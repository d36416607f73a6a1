//! The query grammar as derivations: a derivation records the program
//! together with the spelling the grammar allows (white space, the digits of
//! numbers).  Every text that the grammar derives, with integers that fit
//! their types and nesting within the parser's depth cap, parses whole, into
//! the program of its derivation.
use crate::decimal::Dec;
use crate::filter::{CompareOp, Filter, Lit};
use crate::parser::{
    MAX_DEPTH,
    char_at, chars_value, digit_values, has_at, int_end, int_value, is_digit, is_space,
    is_string_char, is_word_char, p_field, p_filter, p_index, p_literal, p_object, p_pair, p_pairs,
    p_pairs_tail, p_query, p_query_tail, parse, sep_end, ws_end,
};
use crate::printer::{
    is_op_start, is_word, lemma_at, lemma_cmp_text, lemma_digit_run, lemma_iterator_text,
    lemma_keyword_text, lemma_no_filter, lemma_not_iterator, lemma_not_iterator_digit,
    lemma_not_keyword, lemma_not_select, lemma_split, lemma_string_text, lemma_sub,
    lemma_word_run, op_text,
};
use vstd::prelude::*;

verus! {

/// One step of a derived query: the white space before and after its `|`
/// (not written for the first step) and its filter.
pub struct StepSyn {
    pub before: Seq<char>,
    pub after: Seq<char>,
    pub filter: FilterSyn,
}

/// One pair of a derived object constructor: the white space around its
/// `,` (not written for the first pair), the key, the white space around
/// the `:`, and the query.
pub struct PairSyn {
    pub before: Seq<char>,
    pub after: Seq<char>,
    pub key: Seq<char>,
    pub ws_key: Seq<char>,
    pub ws_colon: Seq<char>,
    pub query: Seq<StepSyn>,
}

/// A derived literal, with the characters as written.
pub enum LitSyn {
    True,
    False,
    Null,
    Str(Seq<char>),
    Float(bool, Seq<char>, Seq<char>),
    Int(Seq<char>),
}

/// A derived filter.  Integers keep their spelling; `Object` keeps the
/// white space after `{` and before `}`; `Select` keeps the white space at
/// each of its four places.
pub enum FilterSyn {
    Identity,
    Field(Seq<char>),
    Index(Seq<char>),
    Iterator,
    Object(Seq<char>, Seq<PairSyn>, Seq<char>),
    Select(Seq<char>, Seq<StepSyn>, Seq<char>, CompareOp, Seq<char>, LitSyn, Seq<char>),
}

pub open spec fn all_space(w: Seq<char>) -> bool {
    forall|k: int| 0 <= k < w.len() ==> is_space(#[trigger] w[k])
}

pub open spec fn is_digits(t: Seq<char>) -> bool {
    t.len() > 0 && forall|k: int| 0 <= k < t.len() ==> is_digit(#[trigger] t[k])
}

/// An integer as the grammar spells it: an optional `-`, then digits.
pub open spec fn int_spelling(t: Seq<char>) -> bool {
    is_digits(t) || (t.len() > 1 && t[0] == '-' && is_digits(t.drop_first()))
}

/// The value of an integer spelling.
pub open spec fn spelled_value(t: Seq<char>) -> int {
    if t.len() > 0 && t[0] == '-' {
        -(chars_value(t.drop_first()) as int)
    } else {
        chars_value(t) as int
    }
}

pub open spec fn lit_syn_text(l: LitSyn) -> Seq<char> {
    match l {
        LitSyn::True => seq!['t', 'r', 'u', 'e'],
        LitSyn::False => seq!['f', 'a', 'l', 's', 'e'],
        LitSyn::Null => seq!['n', 'u', 'l', 'l'],
        LitSyn::Str(t) => seq!['"'] + t + seq!['"'],
        LitSyn::Float(neg, w, f) => (if neg {
            seq!['-']
        } else {
            Seq::empty()
        }) + w + seq!['.'] + f,
        LitSyn::Int(t) => t,
    }
}

pub open spec fn lit_syn_ast(l: LitSyn) -> Lit {
    match l {
        LitSyn::True => Lit::Bool(true),
        LitSyn::False => Lit::Bool(false),
        LitSyn::Null => Lit::Null,
        LitSyn::Str(t) => Lit::Str(t),
        LitSyn::Float(neg, w, f) => Lit::Float(
            Dec { negative: neg, whole: digit_values(w), frac: digit_values(f) },
        ),
        LitSyn::Int(t) => Lit::Int(spelled_value(t) as i64),
    }
}

pub open spec fn valid_lit(l: LitSyn) -> bool {
    match l {
        LitSyn::Str(t) => forall|k: int| 0 <= k < t.len() ==> is_string_char(#[trigger] t[k]),
        LitSyn::Float(neg, w, f) => is_digits(w) && is_digits(f),
        LitSyn::Int(t) => int_spelling(t) && i64::MIN <= spelled_value(t) <= i64::MAX,
        _ => true,
    }
}

/// The text of a derived filter.
pub open spec fn render_filter(f: FilterSyn) -> Seq<char>
    decreases f, 0nat,
{
    match f {
        FilterSyn::Identity => seq!['.'],
        FilterSyn::Field(w) => seq!['.'] + w,
        FilterSyn::Index(t) => seq!['.', '['] + t + seq![']'],
        FilterSyn::Iterator => seq!['.', '[', ']'],
        FilterSyn::Object(wo, ps, wc) => seq!['{'] + wo + render_pairs(ps) + wc + seq!['}'],
        FilterSyn::Select(w1, q, w2, op, w3, lit, w4) => seq!['s', 'e', 'l', 'e', 'c', 't', '(']
            + w1 + render_query(q) + w2 + op_text(op) + w3 + lit_syn_text(lit) + w4 + seq![')'],
    }
}

/// The text of a derived query.
pub open spec fn render_query(q: Seq<StepSyn>) -> Seq<char>
    decreases q, 1nat,
{
    if q.len() == 0 {
        Seq::empty()
    } else {
        render_filter(q[0].filter) + render_steps(q.drop_first())
    }
}

/// The text of the steps after the first, each after its `|`.
pub open spec fn render_steps(q: Seq<StepSyn>) -> Seq<char>
    decreases q, 0nat,
{
    if q.len() == 0 {
        Seq::empty()
    } else {
        q[0].before + seq!['|'] + q[0].after + render_filter(q[0].filter) + render_steps(
            q.drop_first(),
        )
    }
}

pub open spec fn render_pair(pr: PairSyn) -> Seq<char>
    decreases pr, 0nat,
{
    pr.key + pr.ws_key + seq![':'] + pr.ws_colon + render_query(pr.query)
}

pub open spec fn render_pairs(ps: Seq<PairSyn>) -> Seq<char>
    decreases ps, 1nat,
{
    if ps.len() == 0 {
        Seq::empty()
    } else {
        render_pair(ps[0]) + render_pairs_tail(ps.drop_first())
    }
}

pub open spec fn render_pairs_tail(ps: Seq<PairSyn>) -> Seq<char>
    decreases ps, 0nat,
{
    if ps.len() == 0 {
        Seq::empty()
    } else {
        ps[0].before + seq![','] + ps[0].after + render_pair(ps[0]) + render_pairs_tail(
            ps.drop_first(),
        )
    }
}

/// The program that a derived filter describes.
pub open spec fn filter_ast(f: FilterSyn) -> Filter
    decreases f, 0nat,
{
    match f {
        FilterSyn::Identity => Filter::Identity,
        FilterSyn::Field(w) => Filter::Field(w),
        FilterSyn::Index(t) => Filter::Index(spelled_value(t) as i32),
        FilterSyn::Iterator => Filter::Iterator,
        FilterSyn::Object(wo, ps, wc) => Filter::Object(pairs_ast(ps)),
        FilterSyn::Select(w1, q, w2, op, w3, lit, w4) => Filter::Select(
            query_ast(q),
            op,
            lit_syn_ast(lit),
        ),
    }
}

/// The program that a derived query describes.
pub open spec fn query_ast(q: Seq<StepSyn>) -> Seq<Filter>
    decreases q, 0nat,
{
    if q.len() == 0 {
        Seq::empty()
    } else {
        seq![filter_ast(q[0].filter)] + query_ast(q.drop_first())
    }
}

pub open spec fn pairs_ast(ps: Seq<PairSyn>) -> Seq<(Seq<char>, Seq<Filter>)>
    decreases ps, 0nat,
{
    if ps.len() == 0 {
        Seq::empty()
    } else {
        seq![(ps[0].key, query_ast(ps[0].query))] + pairs_ast(ps.drop_first())
    }
}

pub open spec fn max_depth(a: nat, b: nat) -> nat {
    if a >= b {
        a
    } else {
        b
    }
}

/// How deeply object constructors and selects nest in a derived filter.
pub open spec fn syn_filter_depth(f: FilterSyn) -> nat
    decreases f, 0nat,
{
    match f {
        FilterSyn::Object(wo, ps, wc) => 1 + syn_pairs_depth(ps),
        FilterSyn::Select(w1, q, w2, op, w3, lit, w4) => 1 + syn_query_depth(q),
        _ => 0,
    }
}

/// The deepest nesting among the steps of a derived query.
pub open spec fn syn_query_depth(q: Seq<StepSyn>) -> nat
    decreases q, 0nat,
{
    if q.len() == 0 {
        0
    } else {
        max_depth(syn_filter_depth(q[0].filter), syn_query_depth(q.drop_first()))
    }
}

/// The deepest nesting among the queries of derived pairs.
pub open spec fn syn_pairs_depth(ps: Seq<PairSyn>) -> nat
    decreases ps, 0nat,
{
    if ps.len() == 0 {
        0
    } else {
        max_depth(syn_query_depth(ps[0].query), syn_pairs_depth(ps.drop_first()))
    }
}

/// A derived filter that the grammar allows, with integers that fit their
/// types.
pub open spec fn valid_filter(f: FilterSyn) -> bool
    decreases f, 0nat,
{
    match f {
        FilterSyn::Field(w) => is_word(w),
        FilterSyn::Index(t) => int_spelling(t) && i32::MIN <= spelled_value(t) <= i32::MAX,
        FilterSyn::Object(wo, ps, wc) => all_space(wo) && all_space(wc) && ps.len() > 0
            && valid_pairs(ps),
        FilterSyn::Select(w1, q, w2, op, w3, lit, w4) => all_space(w1) && all_space(w2) && all_space(
            w3,
        ) && all_space(w4) && q.len() > 0 && valid_steps(q) && valid_lit(lit),
        _ => true,
    }
}

pub open spec fn valid_steps(q: Seq<StepSyn>) -> bool
    decreases q, 0nat,
{
    q.len() == 0 || (all_space(q[0].before) && all_space(q[0].after) && valid_filter(q[0].filter)
        && valid_steps(q.drop_first()))
}

pub open spec fn valid_pairs(ps: Seq<PairSyn>) -> bool
    decreases ps, 0nat,
{
    ps.len() == 0 || (all_space(ps[0].before) && all_space(ps[0].after) && is_word(ps[0].key)
        && all_space(ps[0].ws_key) && all_space(ps[0].ws_colon) && ps[0].query.len() > 0
        && valid_steps(ps[0].query) && valid_pairs(ps.drop_first()))
}

/// A derived query that the grammar allows.
pub open spec fn valid_query(q: Seq<StepSyn>) -> bool {
    q.len() > 0 && valid_steps(q)
}

/// What may follow a filter in derived text.
pub open spec fn after_filter(s: Seq<char>, e: int) -> bool {
    e == s.len() || (0 <= e < s.len() && (is_space(s[e]) || s[e] == '|' || s[e] == ',' || s[e]
        == '}' || is_op_start(s[e])))
}

/// What may follow a query in derived text: the end, or white space and
/// then `,`, `}` or a comparison.
pub open spec fn after_query(s: Seq<char>, e: int) -> bool {
    e == s.len() || (0 <= ws_end(s, e) < s.len() && (s[ws_end(s, e)] == ',' || s[ws_end(s, e)]
        == '}' || is_op_start(s[ws_end(s, e)])))
}

/// What follows the pairs of an object constructor: white space and `}`.
pub open spec fn after_pairs(s: Seq<char>, e: int) -> bool {
    0 <= ws_end(s, e) < s.len() && s[ws_end(s, e)] == '}'
}

proof fn lemma_space_run(s: Seq<char>, i: int, j: int)
    requires
        0 <= i <= j <= s.len(),
        forall|k: int| i <= k < j ==> is_space(#[trigger] s[k]),
        j == s.len() || !is_space(s[j]),
    ensures
        ws_end(s, i) == j,
    decreases j - i,
{
    if i < j {
        lemma_space_run(s, i + 1, j);
    }
}

/// White space `w` at `i`, followed by the end or by a character that is
/// not a space, ends where `w` does.
proof fn lemma_ws_at(s: Seq<char>, i: int, w: Seq<char>)
    requires
        all_space(w),
        has_at(s, i, w),
        i + w.len() == s.len() || !is_space(s[i + w.len()]),
    ensures
        ws_end(s, i) == i + w.len(),
{
    lemma_at(s, i, w);
    assert forall|k: int| i <= k < i + w.len() implies is_space(#[trigger] s[k]) by {
        assert(s[i + (k - i)] == w[k - i]);
    }
    lemma_space_run(s, i, i + w.len());
}

proof fn lemma_ws_facts(s: Seq<char>, i: int)
    requires
        0 <= i <= s.len(),
    ensures
        i <= ws_end(s, i) <= s.len(),
        ws_end(s, i) > i ==> is_space(s[i]),
    decreases s.len() - i,
{
    if i < s.len() && is_space(s[i]) {
        lemma_ws_facts(s, i + 1);
    }
}

proof fn lemma_after_query_filter(s: Seq<char>, e: int)
    requires
        0 <= e <= s.len(),
        after_query(s, e),
    ensures
        after_filter(s, e),
        e == s.len() || s[e] != '[',
        e == s.len() || (s[e] != 's' && s[e] != '.' && s[e] != '{'),
        sep_end(s, e) == e,
{
    lemma_ws_facts(s, e);
}

proof fn lemma_render_first(f: FilterSyn)
    ensures
        render_filter(f).len() > 0,
        render_filter(f)[0] == '.' || render_filter(f)[0] == '{' || render_filter(f)[0] == 's',
{
}

proof fn lemma_query_first(q: Seq<StepSyn>)
    requires
        q.len() > 0,
    ensures
        render_query(q).len() > 0,
        render_query(q)[0] == '.' || render_query(q)[0] == '{' || render_query(q)[0] == 's',
{
    lemma_render_first(q[0].filter);
    assert(render_query(q)[0] == render_filter(q[0].filter)[0]);
}

/// An integer spelling at `p`, followed by no digit, is read whole with its
/// value.
proof fn lemma_int_spelled(s: Seq<char>, p: int, t: Seq<char>)
    requires
        int_spelling(t),
        has_at(s, p, t),
        p + t.len() == s.len() || !is_digit(s[p + t.len()]),
    ensures
        int_end(s, p) == p + t.len(),
        int_value(s, p, p + t.len()) == spelled_value(t),
{
    let e = p + t.len();
    lemma_at(s, p, t);
    assert(s[p + 0] == t[0]);
    if t[0] == '-' {
        let n = t.drop_first();
        assert(is_digits(n));
        assert forall|k: int| p + 1 <= k < e implies is_digit(#[trigger] s[k]) by {
            assert(s[p + (k - p)] == t[k - p]);
            assert(t[k - p] == n[k - p - 1]);
        }
        lemma_digit_run(s, p + 1, e);
        assert(t.subrange(1, t.len() as int) =~= n);
        lemma_sub(s, p, t, 1, n);
    } else {
        assert(is_digits(t));
        assert forall|k: int| p <= k < e implies is_digit(#[trigger] s[k]) by {
            assert(s[p + (k - p)] == t[k - p]);
        }
        lemma_digit_run(s, p, e);
        assert(t.subrange(0, t.len() as int) =~= t);
        lemma_sub(s, p, t, 0, t);
    }
}

proof fn lemma_syn_simple(f: FilterSyn, s: Seq<char>, i: int, d: nat)
    requires
        valid_filter(f),
        !(f is Object || f is Select),
        has_at(s, i, render_filter(f)),
        after_filter(s, i + render_filter(f).len()),
    ensures
        p_filter(s, i, d) == Some((i + render_filter(f).len(), filter_ast(f))),
{
    let t = render_filter(f);
    let e = i + t.len();
    lemma_at(s, i, t);
    assert(s[i + 0] == '.');
    lemma_not_select(s, i, d);
    match f {
        FilterSyn::Identity => {
            lemma_not_iterator(s, i);
            assert(p_index(s, i) is None);
            assert(p_field(s, i) is None);
            assert(p_object(s, i, d) is None);
        },
        FilterSyn::Field(w) => {
            assert(s[i + 1] == t[1]);
            assert(t[1] == w[0]);
            lemma_not_iterator(s, i);
            assert forall|k: int| i + 1 <= k < e implies is_word_char(#[trigger] s[k]) by {
                assert(s[i + (k - i)] == t[k - i]);
                assert(t[k - i] == w[k - i - 1]);
            }
            lemma_word_run(s, i + 2, e);
            assert(t.subrange(1, t.len() as int) =~= w);
            lemma_sub(s, i, t, 1, w);
            assert(p_index(s, i) is None);
        },
        FilterSyn::Index(n) => {
            assert(s[i + 1] == '[');
            assert(s[i + 2] == t[2]);
            assert(t[2] == n[0]);
            lemma_not_iterator_digit(s, i, n[0]);
            lemma_split(s, i, seq!['.', '['] + n, seq![']']);
            lemma_split(s, i, seq!['.', '['], n);
            assert(s[i + 2 + n.len()] == ']') by {
                assert(s[i + (2 + n.len())] == t[2 + n.len() as int]);
            }
            lemma_int_spelled(s, i + 2, n);
        },
        FilterSyn::Iterator => {
            lemma_iterator_text(s, i, d);
        },
        _ => {},
    }
}

proof fn lemma_syn_lit(l: LitSyn, s: Seq<char>, p: int)
    requires
        valid_lit(l),
        has_at(s, p, lit_syn_text(l)),
        0 <= p + lit_syn_text(l).len() < s.len(),
        is_space(s[p + lit_syn_text(l).len()]) || s[p + lit_syn_text(l).len()] == ')',
    ensures
        p_literal(s, p) == Some((p + lit_syn_text(l).len(), lit_syn_ast(l))),
{
    let t = lit_syn_text(l);
    let e = p + t.len();
    match l {
        LitSyn::True => lemma_keyword_text(Lit::Bool(true), s, p),
        LitSyn::False => lemma_keyword_text(Lit::Bool(false), s, p),
        LitSyn::Null => lemma_keyword_text(Lit::Null, s, p),
        LitSyn::Str(x) => lemma_string_text(x, s, p),
        LitSyn::Int(n) => {
            lemma_at(s, p, t);
            assert(s[p + 0] == n[0]);
            lemma_not_keyword(s, p);
            lemma_int_spelled(s, p, n);
        },
        LitSyn::Float(neg, w, f) => {
            let sign = if neg { seq!['-'] } else { Seq::<char>::empty() };
            assert(t == sign + w + seq!['.'] + f);
            lemma_at(s, p, t);
            let ws = p + sign.len();
            let j = ws + w.len();
            assert(s[p + sign.len()] == t[sign.len() as int]);
            assert(t[sign.len() as int] == w[0]);
            assert(s[p + 0] == t[0]);
            assert(neg ==> t[0] == '-');
            assert(!neg ==> t[0] == w[0]);
            lemma_not_keyword(s, p);
            assert(char_at(s, p, '-') == neg);
            assert forall|k: int| ws <= k < j implies is_digit(#[trigger] s[k]) by {
                assert(s[p + (k - p)] == t[k - p]);
                assert(t[k - p] == w[k - ws]);
            }
            assert(s[p + (j - p)] == t[j - p]);
            assert(t[j - p] == '.');
            lemma_digit_run(s, ws, j);
            assert forall|k: int| j + 1 <= k < e implies is_digit(#[trigger] s[k]) by {
                assert(s[p + (k - p)] == t[k - p]);
                assert(t[k - p] == f[k - j - 1]);
            }
            lemma_digit_run(s, j + 1, e);
            assert(t.subrange(sign.len() as int, (sign.len() + w.len()) as int) =~= w);
            lemma_sub(s, p, t, sign.len() as int, w);
            assert(t.subrange(j - p + 1, j - p + 1 + f.len()) =~= f);
            lemma_sub(s, p, t, j - p + 1, f);
        },
    }
}

/// A derived filter is read whole, as the filter it describes.
proof fn lemma_syn_filter(f: FilterSyn, s: Seq<char>, i: int, d: nat)
    requires
        d + syn_filter_depth(f) <= MAX_DEPTH,
        valid_filter(f),
        has_at(s, i, render_filter(f)),
        after_filter(s, i + render_filter(f).len()),
    ensures
        p_filter(s, i, d) == Some((i + render_filter(f).len(), filter_ast(f))),
    decreases f, 2nat,
{
    match f {
        FilterSyn::Object(wo, ps, wc) => lemma_syn_object(wo, ps, wc, s, i, d),
        FilterSyn::Select(w1, q, w2, op, w3, lit, w4) => lemma_syn_select(
            w1,
            q,
            w2,
            op,
            w3,
            lit,
            w4,
            s,
            i,
            d,
        ),
        _ => lemma_syn_simple(f, s, i, d),
    }
}

proof fn lemma_syn_object(wo: Seq<char>, ps: Seq<PairSyn>, wc: Seq<char>, s: Seq<char>, i: int, d: nat)
    requires
        d + syn_filter_depth(FilterSyn::Object(wo, ps, wc)) <= MAX_DEPTH,
        valid_filter(FilterSyn::Object(wo, ps, wc)),
        has_at(s, i, render_filter(FilterSyn::Object(wo, ps, wc))),
    ensures
        p_filter(s, i, d) == Some(
            (
                i + render_filter(FilterSyn::Object(wo, ps, wc)).len(),
                filter_ast(FilterSyn::Object(wo, ps, wc)),
            ),
        ),
    decreases ps, 5nat,
{
    let pt = render_pairs(ps);
    let t = render_filter(FilterSyn::Object(wo, ps, wc));
    assert(syn_filter_depth(FilterSyn::Object(wo, ps, wc)) == 1 + syn_pairs_depth(ps));
    assert(t == seq!['{'] + wo + pt + wc + seq!['}']);
    lemma_at(s, i, t);
    lemma_split(s, i, seq!['{'] + wo + pt + wc, seq!['}']);
    lemma_split(s, i, seq!['{'] + wo + pt, wc);
    lemma_split(s, i, seq!['{'] + wo, pt);
    lemma_split(s, i, seq!['{'], wo);
    assert(s[i + 0] == '{');
    lemma_not_select(s, i, d);
    lemma_not_iterator(s, i);
    assert(p_index(s, i) is None);
    assert(p_field(s, i) is None);
    let a = i + 1 + wo.len();
    let b = a + pt.len();
    let c = b + wc.len();
    assert(pt[0] == ps[0].key[0]);
    lemma_at(s, a, pt);
    assert(s[a + 0] == pt[0]);
    lemma_ws_at(s, i + 1, wo);
    assert(s[c] == '}') by {
        assert(s[i + (c - i)] == t[c - i]);
    }
    lemma_ws_at(s, b, wc);
    lemma_syn_pairs(ps, s, a, (d + 1) as nat);
}

proof fn lemma_syn_select(
    w1: Seq<char>,
    q: Seq<StepSyn>,
    w2: Seq<char>,
    op: CompareOp,
    w3: Seq<char>,
    lit: LitSyn,
    w4: Seq<char>,
    s: Seq<char>,
    i: int,
    depth: nat,
)
    requires
        depth + syn_filter_depth(FilterSyn::Select(w1, q, w2, op, w3, lit, w4)) <= MAX_DEPTH,
        valid_filter(FilterSyn::Select(w1, q, w2, op, w3, lit, w4)),
        has_at(s, i, render_filter(FilterSyn::Select(w1, q, w2, op, w3, lit, w4))),
    ensures
        p_filter(s, i, depth) == Some(
            (
                i + render_filter(FilterSyn::Select(w1, q, w2, op, w3, lit, w4)).len(),
                filter_ast(FilterSyn::Select(w1, q, w2, op, w3, lit, w4)),
            ),
        ),
    decreases q, 5nat,
{
    reveal_strlit("select(");
    assert(syn_filter_depth(FilterSyn::Select(w1, q, w2, op, w3, lit, w4)) == 1 + syn_query_depth(q));
    let head = seq!['s', 'e', 'l', 'e', 'c', 't', '('];
    let qt = render_query(q);
    let ot = op_text(op);
    let lt = lit_syn_text(lit);
    let t = render_filter(FilterSyn::Select(w1, q, w2, op, w3, lit, w4));
    assert(t == head + w1 + qt + w2 + ot + w3 + lt + w4 + seq![')']);
    lemma_at(s, i, t);
    lemma_split(s, i, head + w1 + qt + w2 + ot + w3 + lt + w4, seq![')']);
    lemma_split(s, i, head + w1 + qt + w2 + ot + w3 + lt, w4);
    lemma_split(s, i, head + w1 + qt + w2 + ot + w3, lt);
    lemma_split(s, i, head + w1 + qt + w2 + ot, w3);
    lemma_split(s, i, head + w1 + qt + w2, ot);
    lemma_split(s, i, head + w1 + qt, w2);
    lemma_split(s, i, head + w1, qt);
    lemma_split(s, i, head, w1);
    assert(s.subrange(i, i + 7) =~= "select("@);
    let a = i + 7 + w1.len();
    let b = a + qt.len();
    let c = b + w2.len();
    let d = c + ot.len();
    let e = d + w3.len();
    let g = e + lt.len();
    let h = g + w4.len();
    lemma_query_first(q);
    assert(lt.len() > 0 && !is_space(lt[0]) && lt[0] != '=') by {
        match lit {
            LitSyn::Int(n) => {},
            LitSyn::Float(neg, w, f) => {
                let sign = if neg { seq!['-'] } else { Seq::<char>::empty() };
                assert(lt[sign.len() as int] == w[0]);
            },
            _ => {},
        }
    }
    assert(ot.len() > 0 && is_op_start(ot[0]));
    lemma_at(s, a, qt);
    assert(s[a + 0] == qt[0]);
    lemma_at(s, c, ot);
    assert(s[c + 0] == ot[0]);
    lemma_at(s, e, lt);
    assert(s[e + 0] == lt[0]);
    assert(s[h] == ')') by {
        assert(s[i + (h - i)] == t[h - i]);
    }
    lemma_ws_at(s, i + 7, w1);
    lemma_ws_at(s, b, w2);
    lemma_ws_at(s, d, w3);
    lemma_ws_at(s, g, w4);
    if w3.len() > 0 {
        lemma_at(s, d, w3);
        assert(s[d + 0] == w3[0]);
    }
    if w4.len() > 0 {
        lemma_at(s, g, w4);
        assert(s[g + 0] == w4[0]);
    }
    lemma_syn_query(q, s, a, (depth + 1) as nat);
    lemma_cmp_text(op, s, c);
    lemma_syn_lit(lit, s, e);
}

/// A derived query is read whole, as the program it describes.
proof fn lemma_syn_query(q: Seq<StepSyn>, s: Seq<char>, i: int, d: nat)
    requires
        d + syn_query_depth(q) <= MAX_DEPTH,
        valid_query(q),
        has_at(s, i, render_query(q)),
        after_query(s, i + render_query(q).len()),
    ensures
        p_query(s, i, d) == Some((i + render_query(q).len(), query_ast(q))),
    decreases q, 1nat,
{
    let ft = render_filter(q[0].filter);
    let rest = render_steps(q.drop_first());
    lemma_split(s, i, ft, rest);
    lemma_render_first(q[0].filter);
    lemma_at(s, i, ft);
    assert(s[i + 0] == ft[0]);
    assert(ws_end(s, i) == i);
    assert(sep_end(s, i) == i);
    let e = i + ft.len();
    if rest.len() > 0 {
        lemma_at(s, e, rest);
        assert(s[e + 0] == rest[0]);
        let st = q.drop_first()[0];
        assert(valid_steps(q.drop_first()));
        assert(all_space(st.before));
        if st.before.len() > 0 {
            assert(rest[0] == st.before[0]);
            assert(is_space(st.before[0]));
        } else {
            assert(rest[0] == '|');
        }
    } else {
        lemma_after_query_filter(s, e);
    }
    lemma_syn_filter(q[0].filter, s, i, d);
    lemma_syn_steps(q.drop_first(), s, e, d);
}

proof fn lemma_syn_steps(q: Seq<StepSyn>, s: Seq<char>, pos: int, d: nat)
    requires
        d + syn_query_depth(q) <= MAX_DEPTH,
        valid_steps(q),
        has_at(s, pos, render_steps(q)),
        after_query(s, pos + render_steps(q).len()),
    ensures
        p_query_tail(s, pos, d) == (pos + render_steps(q).len(), query_ast(q)),
    decreases q, 0nat,
{
    reveal_strlit("[]");
    if q.len() == 0 {
        lemma_after_query_filter(s, pos);
        if has_at(s, pos, "[]"@) {
            lemma_at(s, pos, "[]"@);
            assert(s[pos + 0] == '[');
        }
        lemma_no_filter(s, pos, d);
    } else {
        let st = q[0];
        let ft = render_filter(st.filter);
        let rest = render_steps(q.drop_first());
        let t = render_steps(q);
        assert(t == st.before + seq!['|'] + st.after + ft + rest);
        lemma_at(s, pos, t);
        lemma_split(s, pos, st.before + seq!['|'] + st.after + ft, rest);
        lemma_split(s, pos, st.before + seq!['|'] + st.after, ft);
        lemma_split(s, pos, st.before + seq!['|'], st.after);
        lemma_split(s, pos, st.before, seq!['|']);
        let bar = pos + st.before.len();
        let f0 = bar + 1 + st.after.len();
        let e = f0 + ft.len();
        assert(s[bar] == '|') by {
            assert(s[pos + (bar - pos)] == t[bar - pos]);
        }
        lemma_render_first(st.filter);
        lemma_at(s, f0, ft);
        assert(s[f0 + 0] == ft[0]);
        if st.before.len() > 0 {
            lemma_at(s, pos, st.before);
            assert(s[pos + 0] == st.before[0]);
        }
        if has_at(s, pos, "[]"@) {
            lemma_at(s, pos, "[]"@);
            assert(s[pos + 0] == '[');
        }
        lemma_ws_at(s, pos, st.before);
        lemma_ws_at(s, bar + 1, st.after);
        if rest.len() > 0 {
            lemma_at(s, e, rest);
            assert(s[e + 0] == rest[0]);
            let nx = q.drop_first()[0];
            assert(valid_steps(q.drop_first()));
            assert(all_space(nx.before));
            if nx.before.len() > 0 {
                assert(rest[0] == nx.before[0]);
                assert(is_space(nx.before[0]));
            } else {
                assert(rest[0] == '|');
            }
        } else {
            lemma_after_query_filter(s, e);
        }
        lemma_syn_filter(st.filter, s, f0, d);
        lemma_syn_steps(q.drop_first(), s, e, d);
    }
}

/// A derived pair is read whole.
proof fn lemma_syn_pair(pr: PairSyn, s: Seq<char>, i: int, d: nat)
    requires
        d + syn_query_depth(pr.query) <= MAX_DEPTH,
        is_word(pr.key),
        all_space(pr.ws_key),
        all_space(pr.ws_colon),
        valid_query(pr.query),
        has_at(s, i, render_pair(pr)),
        after_query(s, i + render_pair(pr).len()),
    ensures
        p_pair(s, i, d) == Some((i + render_pair(pr).len(), (pr.key, query_ast(pr.query)))),
    decreases pr, 0nat,
{
    let qt = render_query(pr.query);
    let t = render_pair(pr);
    assert(t == pr.key + pr.ws_key + seq![':'] + pr.ws_colon + qt);
    lemma_at(s, i, t);
    lemma_split(s, i, pr.key + pr.ws_key + seq![':'] + pr.ws_colon, qt);
    lemma_split(s, i, pr.key + pr.ws_key + seq![':'], pr.ws_colon);
    lemma_split(s, i, pr.key + pr.ws_key, seq![':']);
    lemma_split(s, i, pr.key, pr.ws_key);
    let we = i + pr.key.len();
    let colon = we + pr.ws_key.len();
    let b = colon + 1 + pr.ws_colon.len();
    assert(s[i + 0] == pr.key[0]);
    assert forall|k: int| i <= k < we implies is_word_char(#[trigger] s[k]) by {
        assert(s[i + (k - i)] == t[k - i]);
        assert(t[k - i] == pr.key[k - i]);
    }
    assert(s[colon] == ':') by {
        assert(s[i + (colon - i)] == t[colon - i]);
    }
    if pr.ws_key.len() > 0 {
        lemma_at(s, we, pr.ws_key);
        assert(s[we + 0] == pr.ws_key[0]);
    }
    lemma_word_run(s, i + 1, we);
    lemma_ws_at(s, we, pr.ws_key);
    lemma_query_first(pr.query);
    lemma_at(s, b, qt);
    assert(s[b + 0] == qt[0]);
    lemma_ws_at(s, colon + 1, pr.ws_colon);
    lemma_syn_query(pr.query, s, b, d);
    assert(t.subrange(0, pr.key.len() as int) =~= pr.key);
    lemma_sub(s, i, t, 0, pr.key);
}

proof fn lemma_syn_pairs(ps: Seq<PairSyn>, s: Seq<char>, i: int, d: nat)
    requires
        d + syn_pairs_depth(ps) <= MAX_DEPTH,
        ps.len() > 0,
        valid_pairs(ps),
        has_at(s, i, render_pairs(ps)),
        after_pairs(s, i + render_pairs(ps).len()),
    ensures
        p_pairs(s, i, d) == Some((i + render_pairs(ps).len(), pairs_ast(ps))),
    decreases ps, 4nat,
{
    let pr = ps[0];
    let head = render_pair(pr);
    let rest = render_pairs_tail(ps.drop_first());
    lemma_split(s, i, head, rest);
    let c = i + head.len();
    lemma_pair_end(ps.drop_first(), s, c);
    lemma_syn_pair(pr, s, i, d);
    lemma_syn_pairs_tail(ps.drop_first(), s, c, d);
}

/// After a pair come the remaining pairs, each after `,`, then `}`: the
/// pair's query is followed as a query may be.
proof fn lemma_pair_end(ps: Seq<PairSyn>, s: Seq<char>, c: int)
    requires
        valid_pairs(ps),
        has_at(s, c, render_pairs_tail(ps)),
        after_pairs(s, c + render_pairs_tail(ps).len()),
    ensures
        after_query(s, c),
{
    if ps.len() > 0 {
        let t = render_pairs_tail(ps);
        assert(t =~= ps[0].before + seq![','] + (ps[0].after + render_pair(ps[0])
            + render_pairs_tail(ps.drop_first())));
        lemma_split(s, c, ps[0].before + seq![','], ps[0].after + render_pair(ps[0])
            + render_pairs_tail(ps.drop_first()));
        lemma_split(s, c, ps[0].before, seq![',']);
        lemma_at(s, c + ps[0].before.len(), seq![',']);
        assert(s[c + ps[0].before.len() + 0] == ',');
        lemma_ws_at(s, c, ps[0].before);
    } else {
        lemma_ws_facts(s, c);
    }
}

proof fn lemma_syn_pairs_tail(ps: Seq<PairSyn>, s: Seq<char>, pos: int, d: nat)
    requires
        d + syn_pairs_depth(ps) <= MAX_DEPTH,
        valid_pairs(ps),
        has_at(s, pos, render_pairs_tail(ps)),
        after_pairs(s, pos + render_pairs_tail(ps).len()),
    ensures
        p_pairs_tail(s, pos, d) == (pos + render_pairs_tail(ps).len(), pairs_ast(ps)),
    decreases ps, 3nat,
{
    if ps.len() == 0 {
        assert(ps =~= Seq::<PairSyn>::empty());
    } else {
        let pr = ps[0];
        let head = render_pair(pr);
        let rest = render_pairs_tail(ps.drop_first());
        let t = render_pairs_tail(ps);
        assert(t == pr.before + seq![','] + pr.after + head + rest);
        lemma_at(s, pos, t);
        lemma_split(s, pos, pr.before + seq![','] + pr.after + head, rest);
        lemma_split(s, pos, pr.before + seq![','] + pr.after, head);
        lemma_split(s, pos, pr.before + seq![','], pr.after);
        lemma_split(s, pos, pr.before, seq![',']);
        let comma = pos + pr.before.len();
        let b = comma + 1 + pr.after.len();
        let c = b + head.len();
        assert(s[comma] == ',') by {
            assert(s[pos + (comma - pos)] == t[comma - pos]);
        }
        assert(head[0] == pr.key[0]);
        lemma_at(s, b, head);
        assert(s[b + 0] == head[0]);
        lemma_ws_at(s, pos, pr.before);
        lemma_ws_at(s, comma + 1, pr.after);
        lemma_pair_end(ps.drop_first(), s, c);
        lemma_syn_pair(pr, s, b, d);
        lemma_syn_pairs_tail(ps.drop_first(), s, c, d);
    }
}

/// Every text that the grammar derives, nested no deeper than `MAX_DEPTH`,
/// parses whole, into the program of its derivation.
pub proof fn law_grammar_total(q: Seq<StepSyn>)
    requires
        syn_query_depth(q) <= MAX_DEPTH,
        valid_query(q),
    ensures
        parse(render_query(q)) == Some((Seq::<char>::empty(), query_ast(q))),
{
    let s = render_query(q);
    assert(s.subrange(0, s.len() as int) =~= s);
    lemma_syn_query(q, s, 0, 0);
    assert(s.subrange(s.len() as int, s.len() as int) =~= Seq::<char>::empty());
}

} // verus!

//! Printing a filter program back as query text, and the proof that the
//! parser reads the printed text back as the same program.
use crate::decimal::{all_digits, dec_text, dec_wf, digit_char, digit_chars, digit_text, Dec};
use crate::filter::{
    filters_view, lemma_filters_view, lemma_pairs_view, pairs_view, CompareOp, Filter, Lit,
    Literal, RustyFilter,
};
use crate::parser::{
    MAX_DEPTH,
    char_at, chars_value, digit_of, digit_values, digits_end, has_at, int_end, int_value, is_digit,
    is_space, is_string_char, is_word_char, is_word_start, p_cmp, p_field, p_filter, p_index,
    p_iterator, p_literal, p_object, p_pair, p_pairs, p_pairs_tail, p_query, p_query_tail,
    p_select, p_suffix, parse, sep_end, string_end, word_end, ws_end,
};
use vstd::prelude::*;

verus! {

/// The decimal digits of `n`, most significant first.
pub open spec fn nat_text(n: nat) -> Seq<char>
    decreases n,
{
    if n < 10 {
        seq![digit_char(n as u8)]
    } else {
        nat_text(n / 10) + seq![digit_char((n % 10) as u8)]
    }
}

/// An integer as text: `-` for negative values, then its digits.
pub open spec fn int_text(v: int) -> Seq<char> {
    if v < 0 {
        seq!['-'] + nat_text((-v) as nat)
    } else {
        nat_text(v as nat)
    }
}

pub(crate) proof fn lemma_digit_char(d: u8)
    requires
        d < 10,
    ensures
        is_digit(digit_char(d)),
        digit_of(digit_char(d)) == d,
{
}

proof fn lemma_nat_text(n: nat)
    ensures
        nat_text(n).len() > 0,
        forall|k: int| 0 <= k < nat_text(n).len() ==> is_digit(#[trigger] nat_text(n)[k]),
        chars_value(nat_text(n)) == n,
    decreases n,
{
    if n < 10 {
        lemma_digit_char(n as u8);
        let t = nat_text(n);
        assert(t.drop_last() =~= Seq::<char>::empty());
        assert(chars_value(Seq::<char>::empty()) == 0);
        assert(t.last() == digit_char(n as u8));
    } else {
        lemma_nat_text(n / 10);
        lemma_digit_char((n % 10) as u8);
        let t = nat_text(n);
        assert(t.drop_last() =~= nat_text(n / 10));
        assert(t.last() == digit_char((n % 10) as u8));
        assert(n == (n / 10) * 10 + n % 10) by (nonlinear_arith);
        assert(chars_value(t) == chars_value(nat_text(n / 10)) * 10 + digit_of(t.last()));
        assert(forall|k: int| 0 <= k < t.len() ==> is_digit(#[trigger] t[k])) by {
            assert forall|k: int| 0 <= k < t.len() implies is_digit(#[trigger] t[k]) by {
                if k < nat_text(n / 10).len() {
                    assert(t[k] == nat_text(n / 10)[k]);
                }
            }
        }
    }
}

/// A field name or object key: a word character that may start one, then
/// word characters.
pub open spec fn is_word(w: Seq<char>) -> bool {
    w.len() > 0 && is_word_start(w[0]) && forall|k: int|
        0 <= k < w.len() ==> is_word_char(#[trigger] w[k])
}

/// A literal that query text can spell.
pub open spec fn wf_lit(l: Lit) -> bool {
    match l {
        Lit::Str(t) => forall|k: int| 0 <= k < t.len() ==> is_string_char(#[trigger] t[k]),
        Lit::Float(d) => d.whole.len() > 0 && d.frac.len() > 0 && dec_wf(d),
        _ => true,
    }
}

/// A filter that query text can spell.
pub open spec fn wf_filter(f: Filter) -> bool
    decreases f, 0nat,
{
    match f {
        Filter::Field(w) => is_word(w),
        Filter::Object(pairs) => pairs.len() > 0 && wf_pairs(pairs),
        Filter::Select(path, op, lit) => path.len() > 0 && wf_filters(path) && wf_lit(lit),
        _ => true,
    }
}

/// Every filter of `p` can be spelled.
pub open spec fn wf_filters(p: Seq<Filter>) -> bool
    decreases p, 0nat,
{
    p.len() == 0 || (wf_filter(p[0]) && wf_filters(p.drop_first()))
}

/// Every pair has a word for its key and a program that can be spelled.
pub open spec fn wf_pairs(ps: Seq<(Seq<char>, Seq<Filter>)>) -> bool
    decreases ps, 0nat,
{
    ps.len() == 0 || (is_word(ps[0].0) && ps[0].1.len() > 0 && wf_filters(ps[0].1) && wf_pairs(
        ps.drop_first(),
    ))
}

/// A program that query text can spell: at least one filter, each of which
/// can be spelled.
pub open spec fn wf_program(p: Seq<Filter>) -> bool {
    p.len() > 0 && wf_filters(p)
}

pub open spec fn max_nat(a: nat, b: nat) -> nat {
    if a >= b {
        a
    } else {
        b
    }
}

/// How deeply object constructors and selects nest in a filter.
pub open spec fn filter_depth(f: Filter) -> nat
    decreases f, 0nat,
{
    match f {
        Filter::Object(pairs) => 1 + pairs_depth(pairs),
        Filter::Select(path, op, lit) => 1 + program_depth(path),
        _ => 0,
    }
}

/// The deepest nesting among the filters of `p`.
pub open spec fn program_depth(p: Seq<Filter>) -> nat
    decreases p, 0nat,
{
    if p.len() == 0 {
        0
    } else {
        max_nat(filter_depth(p[0]), program_depth(p.drop_first()))
    }
}

/// The deepest nesting among the programs of `ps`.
pub open spec fn pairs_depth(ps: Seq<(Seq<char>, Seq<Filter>)>) -> nat
    decreases ps, 0nat,
{
    if ps.len() == 0 {
        0
    } else {
        max_nat(program_depth(ps[0].1), pairs_depth(ps.drop_first()))
    }
}

pub open spec fn op_text(op: CompareOp) -> Seq<char> {
    match op {
        CompareOp::Eq => seq!['=', '='],
        CompareOp::Neq => seq!['!', '='],
        CompareOp::Gt => seq!['>'],
        CompareOp::Lt => seq!['<'],
        CompareOp::Gte => seq!['>', '='],
        CompareOp::Lte => seq!['<', '='],
    }
}

pub open spec fn lit_text(l: Lit) -> Seq<char> {
    match l {
        Lit::Int(v) => int_text(v as int),
        Lit::Float(d) => dec_text(d),
        Lit::Str(t) => seq!['"'] + t + seq!['"'],
        Lit::Bool(b) => if b {
            seq!['t', 'r', 'u', 'e']
        } else {
            seq!['f', 'a', 'l', 's', 'e']
        },
        Lit::Null => seq!['n', 'u', 'l', 'l'],
    }
}

/// The text of one filter.
pub open spec fn filter_text(f: Filter) -> Seq<char>
    decreases f, 0nat,
{
    match f {
        Filter::Identity => seq!['.'],
        Filter::Field(w) => seq!['.'] + w,
        Filter::Index(i) => seq!['.', '['] + int_text(i as int) + seq![']'],
        Filter::Iterator => seq!['.', '[', ']'],
        Filter::Object(pairs) => seq!['{'] + pairs_text(pairs) + seq!['}'],
        Filter::Select(path, op, lit) => seq!['s', 'e', 'l', 'e', 'c', 't', '('] + program_text(path)
            + seq![' '] + op_text(op) + seq![' '] + lit_text(lit) + seq![')'],
    }
}

/// The text of a program: its filters separated by ` | `.
pub open spec fn program_text(p: Seq<Filter>) -> Seq<char>
    decreases p, 1nat,
{
    if p.len() == 0 {
        Seq::empty()
    } else {
        filter_text(p[0]) + tail_text(p.drop_first())
    }
}

/// The text of the filters after the first, each after ` | `.
pub open spec fn tail_text(p: Seq<Filter>) -> Seq<char>
    decreases p, 0nat,
{
    if p.len() == 0 {
        Seq::empty()
    } else {
        seq![' ', '|', ' '] + filter_text(p[0]) + tail_text(p.drop_first())
    }
}

/// The text of the pairs of an object constructor, separated by `, `.
pub open spec fn pairs_text(ps: Seq<(Seq<char>, Seq<Filter>)>) -> Seq<char>
    decreases ps, 1nat,
{
    if ps.len() == 0 {
        Seq::empty()
    } else {
        ps[0].0 + seq![':', ' '] + program_text(ps[0].1) + pairs_tail_text(ps.drop_first())
    }
}

/// The text of the pairs after the first, each after `, `.
pub open spec fn pairs_tail_text(ps: Seq<(Seq<char>, Seq<Filter>)>) -> Seq<char>
    decreases ps, 0nat,
{
    if ps.len() == 0 {
        Seq::empty()
    } else {
        seq![',', ' '] + ps[0].0 + seq![':', ' '] + program_text(ps[0].1) + pairs_tail_text(
            ps.drop_first(),
        )
    }
}

pub(crate) proof fn lemma_at(s: Seq<char>, i: int, t: Seq<char>)
    requires
        has_at(s, i, t),
    ensures
        forall|k: int| 0 <= k < t.len() ==> #[trigger] s[i + k] == t[k],
{
    assert forall|k: int| 0 <= k < t.len() implies #[trigger] s[i + k] == t[k] by {
        assert(s.subrange(i, i + t.len())[k] == s[i + k]);
    }
}

pub(crate) proof fn lemma_split(s: Seq<char>, i: int, a: Seq<char>, b: Seq<char>)
    requires
        has_at(s, i, a + b),
    ensures
        has_at(s, i, a),
        has_at(s, i + a.len(), b),
{
    assert(s.subrange(i, i + a.len()) =~= (a + b).subrange(0, a.len() as int));
    assert((a + b).subrange(0, a.len() as int) =~= a);
    assert(s.subrange(i + a.len(), i + a.len() + b.len()) =~= (a + b).subrange(
        a.len() as int,
        (a + b).len() as int,
    ));
    assert((a + b).subrange(a.len() as int, (a + b).len() as int) =~= b);
}

pub(crate) proof fn lemma_word_run(s: Seq<char>, i: int, j: int)
    requires
        0 <= i <= j <= s.len(),
        forall|k: int| i <= k < j ==> is_word_char(#[trigger] s[k]),
        j == s.len() || !is_word_char(s[j]),
    ensures
        word_end(s, i) == j,
    decreases j - i,
{
    if i < j {
        lemma_word_run(s, i + 1, j);
    }
}

pub(crate) proof fn lemma_digit_run(s: Seq<char>, i: int, j: int)
    requires
        0 <= i <= j <= s.len(),
        forall|k: int| i <= k < j ==> is_digit(#[trigger] s[k]),
        j == s.len() || !is_digit(s[j]),
    ensures
        digits_end(s, i) == j,
    decreases j - i,
{
    if i < j {
        lemma_digit_run(s, i + 1, j);
    }
}

pub(crate) proof fn lemma_string_run(s: Seq<char>, i: int, j: int)
    requires
        0 <= i <= j <= s.len(),
        forall|k: int| i <= k < j ==> is_string_char(#[trigger] s[k]),
        j == s.len() || !is_string_char(s[j]),
    ensures
        string_end(s, i) == j,
    decreases j - i,
{
    if i < j {
        lemma_string_run(s, i + 1, j);
    }
}

/// Where the text of `v` stands at `p` and no digit follows, the integer
/// read there ends after it and has value `v`.
proof fn lemma_int_text(s: Seq<char>, p: int, v: int)
    requires
        has_at(s, p, int_text(v)),
        p + int_text(v).len() == s.len() || !is_digit(s[p + int_text(v).len()]),
    ensures
        int_end(s, p) == p + int_text(v).len(),
        int_value(s, p, p + int_text(v).len()) == v,
{
    let t = int_text(v);
    let e = p + t.len();
    lemma_at(s, p, t);
    if v < 0 {
        let n = nat_text((-v) as nat);
        lemma_nat_text((-v) as nat);
        assert(t[0] == '-');
        assert(char_at(s, p, '-'));
        assert forall|k: int| p + 1 <= k < e implies is_digit(#[trigger] s[k]) by {
            assert(s[p + (k - p)] == t[k - p]);
            assert(t[k - p] == n[k - p - 1]);
        }
        lemma_digit_run(s, p + 1, e);
        assert forall|k: int| 0 <= k < n.len() implies #[trigger] s.subrange(p + 1, e)[k] == n[k] by {
            assert(s[p + (k + 1)] == t[k + 1]);
            assert(t[k + 1] == n[k]);
        }
        assert(s.subrange(p + 1, e) =~= n);
    } else {
        let n = nat_text(v as nat);
        lemma_nat_text(v as nat);
        assert(t[0] == n[0]);
        assert(!char_at(s, p, '-'));
        assert forall|k: int| p <= k < e implies is_digit(#[trigger] s[k]) by {
            assert(s[p + (k - p)] == t[k - p]);
        }
        lemma_digit_run(s, p, e);
        assert(s.subrange(p, e) =~= n);
    }
}

/// What may follow a filter's text: the end, a space, `,` or `}`.
pub open spec fn filter_stop(s: Seq<char>, e: int) -> bool {
    e == s.len() || char_at(s, e, ' ') || char_at(s, e, ',') || char_at(s, e, '}')
}

pub open spec fn is_op_start(c: char) -> bool {
    c == '=' || c == '!' || c == '<' || c == '>'
}

/// What may follow a program's text: the end, `,` or `}`, or a space and a
/// comparison.
pub open spec fn query_stop(s: Seq<char>, e: int) -> bool {
    e == s.len() || char_at(s, e, ',') || char_at(s, e, '}') || (char_at(s, e, ' ') && 0 <= e + 1
        < s.len() && is_op_start(s[e + 1]))
}

/// No filter starts at `e` unless `s[e]` is `s`, `.` or `{`.
pub(crate) proof fn lemma_no_filter(s: Seq<char>, e: int, d: nat)
    requires
        0 <= e <= s.len(),
        e == s.len() || (s[e] != 's' && s[e] != '.' && s[e] != '{'),
    ensures
        p_filter(s, e, d) is None,
{
    reveal_strlit("select(");
    reveal_strlit(".[]");
    if has_at(s, e, "select("@) {
        lemma_at(s, e, "select("@);
        assert(s[e + 0] == 's');
    }
    if has_at(s, e, ".[]"@) {
        lemma_at(s, e, ".[]"@);
        assert(s[e + 0] == '.');
    }
}

/// The text of a filter starts with `.`, `{` or `s`.
proof fn lemma_first_char(f: Filter)
    ensures
        filter_text(f).len() > 0,
        filter_text(f)[0] == '.' || filter_text(f)[0] == '{' || filter_text(f)[0] == 's',
{
}

pub(crate) proof fn lemma_not_select(s: Seq<char>, i: int, d: nat)
    requires
        0 <= i < s.len(),
        s[i] != 's',
    ensures
        p_select(s, i, d) is None,
{
    reveal_strlit("select(");
    if has_at(s, i, "select("@) {
        lemma_at(s, i, "select("@);
        assert(s[i + 0] == 's');
    }
}

pub(crate) proof fn lemma_not_iterator(s: Seq<char>, i: int)
    requires
        0 <= i,
        i + 1 >= s.len() || s[i + 1] != '[',
    ensures
        p_iterator(s, i) is None,
{
    reveal_strlit(".[]");
    if has_at(s, i, ".[]"@) {
        lemma_at(s, i, ".[]"@);
        assert(s[i + 1] == '[');
    }
}

proof fn lemma_identity_text(s: Seq<char>, i: int, d: nat)
    requires
        has_at(s, i, filter_text(Filter::Identity)),
        filter_stop(s, i + 1),
    ensures
        p_filter(s, i, d) == Some((i + 1, Filter::Identity)),
{
    let t = filter_text(Filter::Identity);
    lemma_at(s, i, t);
    assert(s[i + 0] == '.');
    lemma_not_select(s, i, d);
    lemma_not_iterator(s, i);
    assert(p_index(s, i) is None);
    assert(p_field(s, i) is None);
    assert(p_object(s, i, d) is None);
}

pub(crate) proof fn lemma_iterator_text(s: Seq<char>, i: int, d: nat)
    requires
        has_at(s, i, filter_text(Filter::Iterator)),
    ensures
        p_filter(s, i, d) == Some((i + 3, Filter::Iterator)),
{
    reveal_strlit(".[]");
    let t = filter_text(Filter::Iterator);
    lemma_at(s, i, t);
    assert(s[i + 0] == '.');
    lemma_not_select(s, i, d);
    assert(s.subrange(i, i + 3) =~= ".[]"@);
}

proof fn lemma_field_text(w: Seq<char>, s: Seq<char>, i: int, d: nat)
    requires
        is_word(w),
        has_at(s, i, filter_text(Filter::Field(w))),
        filter_stop(s, i + 1 + w.len()),
    ensures
        p_filter(s, i, d) == Some((i + 1 + w.len(), Filter::Field(w))),
{
    let t = filter_text(Filter::Field(w));
    let e = i + t.len();
    lemma_at(s, i, t);
    assert(s[i + 0] == '.');
    lemma_not_select(s, i, d);
    assert(s[i + 1] == t[1]);
    assert(t[1] == w[0]);
    lemma_not_iterator(s, i);
    assert forall|k: int| i + 1 <= k < e implies is_word_char(#[trigger] s[k]) by {
        assert(s[i + (k - i)] == t[k - i]);
        assert(t[k - i] == w[k - i - 1]);
    }
    lemma_word_run(s, i + 2, e);
    assert(s.subrange(i + 1, e) =~= w) by {
        assert forall|k: int| 0 <= k < w.len() implies #[trigger] s.subrange(i + 1, e)[k] == w[k] by {
            assert(s[i + (k + 1)] == t[k + 1]);
        }
    }
    assert(p_index(s, i) is None);
}

proof fn lemma_index_text(v: i32, s: Seq<char>, i: int, d: nat)
    requires
        has_at(s, i, filter_text(Filter::Index(v))),
    ensures
        p_filter(s, i, d) == Some((i + filter_text(Filter::Index(v)).len(), Filter::Index(v))),
{
    let t = filter_text(Filter::Index(v));
    let it = int_text(v as int);
    lemma_at(s, i, t);
    assert(s[i + 0] == '.');
    lemma_not_select(s, i, d);
    assert(s[i + 1] == '[');
    lemma_nat_text((-v) as nat);
    lemma_nat_text(v as nat);
    assert(t[2] == it[0]);
    assert(s[i + 2] == t[2]);
    lemma_not_iterator_digit(s, i, it[0]);
    lemma_split(s, i, seq!['.', '['] + it, seq![']']);
    lemma_split(s, i, seq!['.', '['], it);
    assert(s[i + 2 + it.len()] == ']') by {
        assert(s[i + (2 + it.len())] == t[2 + it.len() as int]);
    }
    lemma_int_text(s, i + 2, v as int);
}

pub(crate) proof fn lemma_not_iterator_digit(s: Seq<char>, i: int, c: char)
    requires
        0 <= i,
        i + 2 < s.len(),
        s[i + 2] == c,
        c != ']',
    ensures
        p_iterator(s, i) is None,
{
    reveal_strlit(".[]");
    if has_at(s, i, ".[]"@) {
        lemma_at(s, i, ".[]"@);
        assert(s[i + 2] == ']');
    }
}

/// A comparison reads back from its text when no `=` follows it.
pub(crate) proof fn lemma_cmp_text(op: CompareOp, s: Seq<char>, c: int)
    requires
        has_at(s, c, op_text(op)),
        0 <= c + op_text(op).len() < s.len(),
        s[c + op_text(op).len()] != '=',
    ensures
        p_cmp(s, c) == Some((c + op_text(op).len(), op)),
{
    reveal_strlit("==");
    reveal_strlit("!=");
    reveal_strlit(">=");
    reveal_strlit("<=");
    let t = op_text(op);
    lemma_at(s, c, t);
    assert(s[c + 0] == t[0]);
    if t.len() == 2 {
        assert(s[c + 1] == t[1]);
        assert(s.subrange(c, c + 2) =~= t);
    } else {
        assert(s[c + 1] != '=');
    }
    if has_at(s, c, "=="@) {
        lemma_at(s, c, "=="@);
        assert(s[c + 0] == '=' && s[c + 1] == '=');
    }
    if has_at(s, c, "!="@) {
        lemma_at(s, c, "!="@);
        assert(s[c + 0] == '!' && s[c + 1] == '=');
    }
    if has_at(s, c, ">="@) {
        lemma_at(s, c, ">="@);
        assert(s[c + 0] == '>' && s[c + 1] == '=');
    }
    if has_at(s, c, "<="@) {
        lemma_at(s, c, "<="@);
        assert(s[c + 0] == '<' && s[c + 1] == '=');
    }
    match op {
        CompareOp::Eq => assert(s.subrange(c, c + 2) =~= "=="@),
        CompareOp::Neq => assert(s.subrange(c, c + 2) =~= "!="@),
        CompareOp::Gte => assert(s.subrange(c, c + 2) =~= ">="@),
        CompareOp::Lte => assert(s.subrange(c, c + 2) =~= "<="@),
        _ => {},
    }
}

pub(crate) proof fn lemma_digit_chars(ds: Seq<u8>)
    requires
        all_digits(ds),
    ensures
        forall|k: int|
            0 <= k < ds.len() ==> is_digit(#[trigger] digit_chars(ds)[k]),
        digit_values(digit_chars(ds)) == ds,
{
    let cs = digit_chars(ds);
    assert forall|k: int| 0 <= k < ds.len() implies is_digit(#[trigger] cs[k]) by {
        lemma_digit_char(ds[k]);
    }
    assert forall|k: int| 0 <= k < ds.len() implies #[trigger] digit_values(cs)[k] == ds[k] by {
        lemma_digit_char(ds[k]);
    }
    assert(digit_values(cs) =~= ds);
}

/// `t` stands in `s` from `a` on.
pub(crate) proof fn lemma_sub(s: Seq<char>, i: int, t: Seq<char>, a: int, u: Seq<char>)
    requires
        has_at(s, i, t),
        0 <= a,
        a + u.len() <= t.len(),
        t.subrange(a, a + u.len()) == u,
    ensures
        s.subrange(i + a, i + a + u.len()) == u,
{
    lemma_at(s, i, t);
    assert forall|k: int| 0 <= k < u.len() implies #[trigger] s.subrange(i + a, i + a + u.len())[k]
        == u[k] by {
        assert(s[i + (a + k)] == t[a + k]);
        assert(t.subrange(a, a + u.len())[k] == t[a + k]);
    }
    assert(s.subrange(i + a, i + a + u.len()) =~= u);
}

pub(crate) proof fn lemma_keyword_text(l: Lit, s: Seq<char>, p: int)
    requires
        l is Bool || l is Null,
        has_at(s, p, lit_text(l)),
    ensures
        p_literal(s, p) == Some((p + lit_text(l).len(), l)),
{
    reveal_strlit("true");
    reveal_strlit("false");
    reveal_strlit("null");
    let t = lit_text(l);
    lemma_at(s, p, t);
    assert(s[p + 0] == t[0]);
    if has_at(s, p, "true"@) {
        lemma_at(s, p, "true"@);
        assert(s[p + 0] == 't');
    }
    if has_at(s, p, "false"@) {
        lemma_at(s, p, "false"@);
        assert(s[p + 0] == 'f');
    }
    match l {
        Lit::Bool(b) => if b {
            assert(s.subrange(p, p + 4) =~= "true"@);
        } else {
            assert(s.subrange(p, p + 5) =~= "false"@);
        },
        _ => {
            assert(s.subrange(p, p + 4) =~= "null"@);
        },
    }
}

pub(crate) proof fn lemma_not_keyword(s: Seq<char>, p: int)
    requires
        0 <= p < s.len(),
        s[p] != 't' && s[p] != 'f' && s[p] != 'n',
    ensures
        !has_at(s, p, "true"@),
        !has_at(s, p, "false"@),
        !has_at(s, p, "null"@),
{
    reveal_strlit("true");
    reveal_strlit("false");
    reveal_strlit("null");
    if has_at(s, p, "true"@) {
        lemma_at(s, p, "true"@);
        assert(s[p + 0] == 't');
    }
    if has_at(s, p, "false"@) {
        lemma_at(s, p, "false"@);
        assert(s[p + 0] == 'f');
    }
    if has_at(s, p, "null"@) {
        lemma_at(s, p, "null"@);
        assert(s[p + 0] == 'n');
    }
}

pub(crate) proof fn lemma_string_text(t: Seq<char>, s: Seq<char>, p: int)
    requires
        forall|k: int| 0 <= k < t.len() ==> is_string_char(#[trigger] t[k]),
        has_at(s, p, lit_text(Lit::Str(t))),
    ensures
        p_literal(s, p) == Some((p + t.len() + 2, Lit::Str(t))),
{
    let lt = lit_text(Lit::Str(t));
    lemma_at(s, p, lt);
    assert(s[p + 0] == '"');
    lemma_not_keyword(s, p);
    let e = p + 1 + t.len();
    assert forall|k: int| p + 1 <= k < e implies is_string_char(#[trigger] s[k]) by {
        assert(s[p + (k - p)] == lt[k - p]);
        assert(lt[k - p] == t[k - p - 1]);
    }
    assert(s[p + (1 + t.len())] == lt[1 + t.len() as int]);
    lemma_string_run(s, p + 1, e);
    assert(lt.subrange(1, 1 + t.len() as int) =~= t);
    lemma_sub(s, p, lt, 1, t);
}

proof fn lemma_int_lit_text(v: i64, s: Seq<char>, p: int)
    requires
        has_at(s, p, lit_text(Lit::Int(v))),
        char_at(s, p + lit_text(Lit::Int(v)).len(), ')'),
    ensures
        p_literal(s, p) == Some((p + lit_text(Lit::Int(v)).len(), Lit::Int(v))),
{
    let t = int_text(v as int);
    lemma_at(s, p, t);
    lemma_nat_text((-v) as nat);
    lemma_nat_text(v as nat);
    assert(s[p + 0] == t[0]);
    lemma_not_keyword(s, p);
    lemma_int_text(s, p, v as int);
}

proof fn lemma_float_text(d: Dec, s: Seq<char>, p: int)
    requires
        d.whole.len() > 0,
        d.frac.len() > 0,
        dec_wf(d),
        has_at(s, p, dec_text(d)),
        char_at(s, p + dec_text(d).len(), ')'),
    ensures
        p_literal(s, p) == Some((p + dec_text(d).len(), Lit::Float(d))),
{
    let t = dec_text(d);
    let sign = if d.negative { seq!['-'] } else { Seq::<char>::empty() };
    let wc = digit_chars(d.whole);
    let fc = digit_chars(d.frac);
    assert(t == sign + wc + seq!['.'] + fc);
    lemma_digit_chars(d.whole);
    lemma_digit_chars(d.frac);
    lemma_at(s, p, t);
    let w = p + sign.len();
    let j = w + wc.len();
    let e = j + 1 + fc.len();
    assert(s[p + sign.len()] == t[sign.len() as int]);
    assert(t[sign.len() as int] == wc[0]);
    assert(s[p + 0] == t[0]);
    assert(d.negative ==> t[0] == '-');
    assert(!d.negative ==> t[0] == wc[0]);
    lemma_not_keyword(s, p);
    assert(char_at(s, p, '-') == d.negative);
    assert forall|k: int| w <= k < j implies is_digit(#[trigger] s[k]) by {
        assert(s[p + (k - p)] == t[k - p]);
        assert(t[k - p] == wc[k - w]);
    }
    assert(s[p + (j - p)] == t[j - p]);
    assert(t[j - p] == '.');
    lemma_digit_run(s, w, j);
    assert forall|k: int| j + 1 <= k < e implies is_digit(#[trigger] s[k]) by {
        assert(s[p + (k - p)] == t[k - p]);
        assert(t[k - p] == fc[k - j - 1]);
    }
    lemma_digit_run(s, j + 1, e);
    assert(t.subrange(sign.len() as int, (sign.len() + wc.len()) as int) =~= wc);
    lemma_sub(s, p, t, sign.len() as int, wc);
    assert(t.subrange(j - p + 1, j - p + 1 + fc.len()) =~= fc);
    lemma_sub(s, p, t, j - p + 1, fc);
    assert(e == p + t.len());
}

pub(crate) proof fn lemma_ws_one(s: Seq<char>, i: int)
    requires
        0 <= i < s.len(),
        is_space(s[i]),
        i + 1 == s.len() || !is_space(s[i + 1]),
    ensures
        ws_end(s, i) == i + 1,
{
    assert(ws_end(s, i + 1) == i + 1);
}

proof fn lemma_lit_first(l: Lit)
    requires
        wf_lit(l),
    ensures
        lit_text(l).len() > 0,
        !is_space(lit_text(l)[0]),
{
    match l {
        Lit::Int(v) => {
            lemma_nat_text((-v) as nat);
            lemma_nat_text(v as nat);
        },
        Lit::Float(d) => {
            lemma_digit_chars(d.whole);
            let sign = if d.negative { seq!['-'] } else { Seq::<char>::empty() };
            assert(dec_text(d)[sign.len() as int] == digit_chars(d.whole)[0]);
        },
        _ => {},
    }
}

proof fn lemma_program_first(p: Seq<Filter>)
    requires
        p.len() > 0,
    ensures
        program_text(p).len() > 0,
        program_text(p)[0] == '.' || program_text(p)[0] == '{' || program_text(p)[0] == 's',
{
    lemma_first_char(p[0]);
    assert(program_text(p)[0] == filter_text(p[0])[0]);
}

proof fn lemma_literal_text(l: Lit, s: Seq<char>, p: int)
    requires
        wf_lit(l),
        has_at(s, p, lit_text(l)),
        char_at(s, p + lit_text(l).len(), ')'),
    ensures
        p_literal(s, p) == Some((p + lit_text(l).len(), l)),
{
    match l {
        Lit::Int(v) => lemma_int_lit_text(v, s, p),
        Lit::Float(d) => lemma_float_text(d, s, p),
        Lit::Str(t) => lemma_string_text(t, s, p),
        _ => lemma_keyword_text(l, s, p),
    }
}

/// A well-formed filter reads back from its text.
proof fn lemma_filter_text(f: Filter, s: Seq<char>, i: int, d: nat)
    requires
        d + filter_depth(f) <= MAX_DEPTH,
        wf_filter(f),
        has_at(s, i, filter_text(f)),
        filter_stop(s, i + filter_text(f).len()),
    ensures
        p_filter(s, i, d) == Some((i + filter_text(f).len(), f)),
    decreases f, 2nat,
{
    match f {
        Filter::Identity => lemma_identity_text(s, i, d),
        Filter::Field(w) => lemma_field_text(w, s, i, d),
        Filter::Index(v) => lemma_index_text(v, s, i, d),
        Filter::Iterator => lemma_iterator_text(s, i, d),
        Filter::Object(pairs) => lemma_object_text(pairs, s, i, d),
        Filter::Select(path, op, lit) => lemma_select_text(path, op, lit, s, i, d),
    }
}

proof fn lemma_object_text(pairs: Seq<(Seq<char>, Seq<Filter>)>, s: Seq<char>, i: int, d: nat)
    requires
        d + filter_depth(Filter::Object(pairs)) <= MAX_DEPTH,
        pairs.len() > 0,
        wf_pairs(pairs),
        has_at(s, i, filter_text(Filter::Object(pairs))),
        filter_stop(s, i + filter_text(Filter::Object(pairs)).len()),
    ensures
        p_filter(s, i, d) == Some((i + filter_text(Filter::Object(pairs)).len(), Filter::Object(pairs))),
    decreases pairs, 5nat,
{
    let t = filter_text(Filter::Object(pairs));
    let pt = pairs_text(pairs);
    assert(filter_depth(Filter::Object(pairs)) == 1 + pairs_depth(pairs));
    lemma_at(s, i, t);
    assert(s[i + 0] == '{');
    lemma_not_select(s, i, d);
    lemma_not_iterator(s, i);
    assert(p_index(s, i) is None);
    assert(p_field(s, i) is None);
    assert(s[i + 1] == t[1]);
    assert(t[1] == pt[0]);
    assert(pt[0] == pairs[0].0[0]);
    assert(ws_end(s, i + 1) == i + 1);
    lemma_split(s, i, seq!['{'] + pt, seq!['}']);
    lemma_split(s, i, seq!['{'], pt);
    assert(s[i + (1 + pt.len())] == t[1 + pt.len() as int]);
    lemma_pairs_text(pairs, s, i + 1, (d + 1) as nat);
    assert(ws_end(s, i + 1 + pt.len()) == i + 1 + pt.len());
}

proof fn lemma_select_text(path: Seq<Filter>, op: CompareOp, lit: Lit, s: Seq<char>, i: int, depth: nat)
    requires
        depth + filter_depth(Filter::Select(path, op, lit)) <= MAX_DEPTH,
        path.len() > 0,
        wf_filters(path),
        wf_lit(lit),
        has_at(s, i, filter_text(Filter::Select(path, op, lit))),
    ensures
        p_filter(s, i, depth) == Some(
            (i + filter_text(Filter::Select(path, op, lit)).len(), Filter::Select(path, op, lit)),
        ),
    decreases path, 5nat,
{
    reveal_strlit("select(");
    assert(filter_depth(Filter::Select(path, op, lit)) == 1 + program_depth(path));
    let head = seq!['s', 'e', 'l', 'e', 'c', 't', '('];
    let pt = program_text(path);
    let ot = op_text(op);
    let lt = lit_text(lit);
    let t = filter_text(Filter::Select(path, op, lit));
    assert(t == head + pt + seq![' '] + ot + seq![' '] + lt + seq![')']);
    lemma_at(s, i, t);
    lemma_split(s, i, head + pt + seq![' '] + ot + seq![' '] + lt, seq![')']);
    lemma_split(s, i, head + pt + seq![' '] + ot + seq![' '], lt);
    lemma_split(s, i, head + pt + seq![' '] + ot, seq![' ']);
    lemma_split(s, i, head + pt + seq![' '], ot);
    lemma_split(s, i, head + pt, seq![' ']);
    lemma_split(s, i, head, pt);
    assert(s.subrange(i, i + 7) =~= "select("@) by {
        lemma_split(s, i, head, pt);
    }
    let a = i + 7;
    let b = a + pt.len();
    let c = b + 1;
    let d = c + ot.len();
    let e = d + 1;
    let g = e + lt.len();
    lemma_program_first(path);
    lemma_lit_first(lit);
    assert(s[a] == pt[0]) by {
        assert(s[i + 7] == t[7]);
    }
    assert(ws_end(s, a) == a);
    assert(s[b] == ' ') by {
        assert(s[i + (b - i)] == t[b - i]);
    }
    assert(s[c] == ot[0]) by {
        assert(s[i + (c - i)] == t[c - i]);
    }
    assert(s[d] == ' ') by {
        assert(s[i + (d - i)] == t[d - i]);
    }
    assert(s[e] == lt[0]) by {
        assert(s[i + (e - i)] == t[e - i]);
    }
    assert(s[g] == ')') by {
        assert(s[i + (g - i)] == t[g - i]);
    }
    lemma_program_text(path, s, a, (depth + 1) as nat);
    lemma_ws_one(s, b);
    lemma_cmp_text(op, s, c);
    lemma_ws_one(s, d);
    lemma_literal_text(lit, s, e);
    assert(ws_end(s, g) == g);
}

/// A well-formed program reads back from its text.
proof fn lemma_program_text(p: Seq<Filter>, s: Seq<char>, i: int, d: nat)
    requires
        d + program_depth(p) <= MAX_DEPTH,
        wf_program(p),
        has_at(s, i, program_text(p)),
        query_stop(s, i + program_text(p).len()),
    ensures
        p_query(s, i, d) == Some((i + program_text(p).len(), p)),
    decreases p, 1nat,
{
    let ft = filter_text(p[0]);
    let tt = tail_text(p.drop_first());
    lemma_split(s, i, ft, tt);
    lemma_first_char(p[0]);
    lemma_at(s, i, ft);
    assert(s[i + 0] == ft[0]);
    assert(ws_end(s, i) == i);
    assert(sep_end(s, i) == i);
    if tt.len() > 0 {
        lemma_at(s, i + ft.len(), tt);
        assert(s[i + ft.len() + 0] == tt[0]);
    }
    lemma_filter_text(p[0], s, i, d);
    lemma_tail_text(p.drop_first(), s, i + ft.len(), d);
    assert(seq![p[0]] + p.drop_first() =~= p);
}

/// The filters after the first read back from their text.
proof fn lemma_tail_text(q: Seq<Filter>, s: Seq<char>, pos: int, d: nat)
    requires
        d + program_depth(q) <= MAX_DEPTH,
        wf_filters(q),
        has_at(s, pos, tail_text(q)),
        query_stop(s, pos + tail_text(q).len()),
    ensures
        p_query_tail(s, pos, d) == (pos + tail_text(q).len(), q),
    decreases q, 0nat,
{
    reveal_strlit("[]");
    if q.len() == 0 {
        if has_at(s, pos, "[]"@) {
            lemma_at(s, pos, "[]"@);
            assert(s[pos + 0] == '[');
        }
        assert(p_suffix(s, pos) is None);
        if char_at(s, pos, ' ') {
            lemma_ws_one(s, pos);
        }
        assert(sep_end(s, pos) == pos);
        lemma_no_filter(s, pos, d);
        assert(q =~= Seq::<Filter>::empty());
    } else {
        let ft = filter_text(q[0]);
        let rest = tail_text(q.drop_first());
        let t = tail_text(q);
        assert(t == seq![' ', '|', ' '] + ft + rest);
        lemma_at(s, pos, t);
        lemma_split(s, pos, seq![' ', '|', ' '] + ft, rest);
        lemma_split(s, pos, seq![' ', '|', ' '], ft);
        assert(s[pos + 0] == ' ');
        assert(s[pos + 1] == '|');
        assert(s[pos + 2] == ' ');
        lemma_first_char(q[0]);
        assert(s[pos + 3] == ft[0]) by {
            assert(s[pos + 3] == t[3]);
        }
        if has_at(s, pos, "[]"@) {
            lemma_at(s, pos, "[]"@);
            assert(s[pos + 0] == '[');
        }
        assert(p_suffix(s, pos) is None);
        lemma_ws_one(s, pos);
        lemma_ws_one(s, pos + 2);
        assert(sep_end(s, pos) == pos + 3);
        let e = pos + 3 + ft.len();
        if rest.len() > 0 {
            lemma_at(s, e, rest);
            assert(s[e + 0] == rest[0]);
        }
        lemma_filter_text(q[0], s, pos + 3, d);
        lemma_tail_text(q.drop_first(), s, e, d);
        assert(seq![q[0]] + q.drop_first() =~= q);
    }
}

/// One `key: program` pair reads back from its text.
proof fn lemma_pair_text(pr: (Seq<char>, Seq<Filter>), s: Seq<char>, i: int, d: nat)
    requires
        d + program_depth(pr.1) <= MAX_DEPTH,
        is_word(pr.0),
        wf_program(pr.1),
        has_at(s, i, pr.0 + seq![':', ' '] + program_text(pr.1)),
        char_at(s, i + pr.0.len() + 2 + program_text(pr.1).len(), ',') || char_at(
            s,
            i + pr.0.len() + 2 + program_text(pr.1).len(),
            '}',
        ),
    ensures
        p_pair(s, i, d) == Some((i + pr.0.len() + 2 + program_text(pr.1).len(), pr)),
    decreases pr, 0nat,
{
    let key = pr.0;
    let pt = program_text(pr.1);
    let t = key + seq![':', ' '] + pt;
    lemma_at(s, i, t);
    lemma_split(s, i, key + seq![':', ' '], pt);
    lemma_split(s, i, key, seq![':', ' ']);
    let we = i + key.len();
    assert(s[i + 0] == key[0]);
    assert forall|k: int| i <= k < we implies is_word_char(#[trigger] s[k]) by {
        assert(s[i + (k - i)] == t[k - i]);
        assert(t[k - i] == key[k - i]);
    }
    assert(s[we] == ':') by {
        assert(s[i + key.len()] == t[key.len() as int]);
    }
    assert(s[we + 1] == ' ') by {
        assert(s[i + (key.len() + 1)] == t[key.len() + 1 as int]);
    }
    lemma_word_run(s, i + 1, we);
    assert(ws_end(s, we) == we);
    lemma_program_first(pr.1);
    assert(s[we + 2] == pt[0]) by {
        assert(s[i + (key.len() + 2)] == t[key.len() + 2 as int]);
    }
    lemma_ws_one(s, we + 1);
    lemma_program_text(pr.1, s, we + 2, d);
    assert(t.subrange(0, key.len() as int) =~= key);
    lemma_sub(s, i, t, 0, key);
}

/// The pairs of an object constructor read back from their text.
proof fn lemma_pairs_text(ps: Seq<(Seq<char>, Seq<Filter>)>, s: Seq<char>, i: int, d: nat)
    requires
        d + pairs_depth(ps) <= MAX_DEPTH,
        ps.len() > 0,
        wf_pairs(ps),
        has_at(s, i, pairs_text(ps)),
        char_at(s, i + pairs_text(ps).len(), '}'),
    ensures
        p_pairs(s, i, d) == Some((i + pairs_text(ps).len(), ps)),
    decreases ps, 4nat,
{
    let pr = ps[0];
    let head = pr.0 + seq![':', ' '] + program_text(pr.1);
    let rest = pairs_tail_text(ps.drop_first());
    assert(pairs_text(ps) == head + rest);
    lemma_split(s, i, head, rest);
    let c = i + head.len();
    if rest.len() > 0 {
        lemma_at(s, c, rest);
        assert(s[c + 0] == rest[0]);
    }
    lemma_pair_text(pr, s, i, d);
    lemma_pairs_tail_text(ps.drop_first(), s, c, d);
    assert(seq![pr] + ps.drop_first() =~= ps);
}

/// The pairs after the first read back from their text.
proof fn lemma_pairs_tail_text(ps: Seq<(Seq<char>, Seq<Filter>)>, s: Seq<char>, pos: int, d: nat)
    requires
        d + pairs_depth(ps) <= MAX_DEPTH,
        wf_pairs(ps),
        has_at(s, pos, pairs_tail_text(ps)),
        char_at(s, pos + pairs_tail_text(ps).len(), '}'),
    ensures
        p_pairs_tail(s, pos, d) == (pos + pairs_tail_text(ps).len(), ps),
    decreases ps, 3nat,
{
    if ps.len() == 0 {
        assert(ws_end(s, pos) == pos);
        assert(ps =~= Seq::<(Seq<char>, Seq<Filter>)>::empty());
    } else {
        let pr = ps[0];
        let head = pr.0 + seq![':', ' '] + program_text(pr.1);
        let rest = pairs_tail_text(ps.drop_first());
        let t = pairs_tail_text(ps);
        assert(t == seq![',', ' '] + head + rest);
        lemma_at(s, pos, t);
        lemma_split(s, pos, seq![',', ' '] + head, rest);
        lemma_split(s, pos, seq![',', ' '], head);
        assert(s[pos + 0] == ',');
        assert(s[pos + 1] == ' ');
        assert(s[pos + 2] == pr.0[0]) by {
            assert(s[pos + 2] == t[2]);
        }
        assert(ws_end(s, pos) == pos);
        lemma_ws_one(s, pos + 1);
        let c = pos + 2 + head.len();
        if rest.len() > 0 {
            lemma_at(s, c, rest);
            assert(s[c + 0] == rest[0]);
        }
        lemma_pair_text(pr, s, pos + 2, d);
        lemma_pairs_tail_text(ps.drop_first(), s, c, d);
        assert(seq![pr] + ps.drop_first() =~= ps);
    }
}

pub(crate) proof fn lemma_word_chars(s: Seq<char>, i: int)
    requires
        0 <= i,
    ensures
        i <= word_end(s, i),
        word_end(s, i) <= s.len() || word_end(s, i) == i,
        forall|k: int| i <= k < word_end(s, i) ==> is_word_char(#[trigger] s[k]),
    decreases s.len() - i,
{
    if 0 <= i < s.len() && is_word_char(s[i]) {
        lemma_word_chars(s, i + 1);
    }
}

proof fn lemma_digit_chars_run(s: Seq<char>, i: int)
    requires
        0 <= i,
    ensures
        i <= digits_end(s, i),
        digits_end(s, i) <= s.len() || digits_end(s, i) == i,
        forall|k: int| i <= k < digits_end(s, i) ==> is_digit(#[trigger] s[k]),
    decreases s.len() - i,
{
    if 0 <= i < s.len() && is_digit(s[i]) {
        lemma_digit_chars_run(s, i + 1);
    }
}

proof fn lemma_string_chars(s: Seq<char>, i: int)
    requires
        0 <= i,
    ensures
        i <= string_end(s, i),
        string_end(s, i) <= s.len() || string_end(s, i) == i,
        forall|k: int| i <= k < string_end(s, i) ==> is_string_char(#[trigger] s[k]),
    decreases s.len() - i,
{
    if 0 <= i < s.len() && is_string_char(s[i]) {
        lemma_string_chars(s, i + 1);
    }
}

proof fn lemma_digit_values_wf(t: Seq<char>)
    requires
        forall|k: int| 0 <= k < t.len() ==> is_digit(#[trigger] t[k]),
    ensures
        all_digits(digit_values(t)),
        digit_values(t).len() == t.len(),
{
    assert forall|k: int| 0 <= k < digit_values(t).len() implies #[trigger] digit_values(t)[k] < 10 by {
        assert(is_digit(t[k]));
    }
}

proof fn lemma_wf_literal(s: Seq<char>, i: int)
    requires
        0 <= i,
        p_literal(s, i) is Some,
    ensures
        wf_lit((p_literal(s, i)->0).1),
{
    let j = int_end(s, i);
    let neg = char_at(s, i, '-');
    let w = if neg { i + 1 } else { i };
    if has_at(s, i, "true"@) || has_at(s, i, "false"@) || has_at(s, i, "null"@) {
    } else if char_at(s, i, '"') && char_at(s, string_end(s, i + 1), '"') {
        let e = string_end(s, i + 1);
        lemma_string_chars(s, i + 1);
        let t = s.subrange(i + 1, e);
        assert forall|k: int| 0 <= k < t.len() implies is_string_char(#[trigger] t[k]) by {
            assert(t[k] == s[i + 1 + k]);
        }
    } else if j >= 0 && char_at(s, j, '.') && 0 <= j + 1 < s.len() && is_digit(s[j + 1]) {
        let e = digits_end(s, j + 1);
        lemma_digit_chars_run(s, w);
        lemma_digit_chars_run(s, j + 1);
        lemma_digit_chars_run(s, j + 2);
        assert(j == digits_end(s, w));
        assert(w < s.len() && is_digit(s[w]));
        lemma_digit_chars_run(s, w + 1);
        let wt = s.subrange(w, j);
        let ft = s.subrange(j + 1, e);
        assert forall|k: int| 0 <= k < wt.len() implies is_digit(#[trigger] wt[k]) by {
            assert(wt[k] == s[w + k]);
        }
        assert forall|k: int| 0 <= k < ft.len() implies is_digit(#[trigger] ft[k]) by {
            assert(ft[k] == s[j + 1 + k]);
        }
        lemma_digit_values_wf(wt);
        lemma_digit_values_wf(ft);
    }
}

proof fn lemma_wf_field(s: Seq<char>, i: int)
    requires
        0 <= i,
        p_field(s, i) is Some,
    ensures
        wf_filter((p_field(s, i)->0).1),
{
    let e = word_end(s, i + 2);
    lemma_word_chars(s, i + 2);
    let w = s.subrange(i + 1, e);
    assert(w[0] == s[i + 1]);
    assert forall|k: int| 0 <= k < w.len() implies is_word_char(#[trigger] w[k]) by {
        assert(w[k] == s[i + 1 + k]);
    }
}

proof fn lemma_wf_filters_cons(f: Filter, fs: Seq<Filter>)
    requires
        wf_filter(f),
        wf_filters(fs),
    ensures
        wf_filters(seq![f] + fs),
        program_depth(seq![f] + fs) == max_nat(filter_depth(f), program_depth(fs)),
{
    assert((seq![f] + fs).drop_first() =~= fs);
}

proof fn lemma_pairs_depth_cons(pr: (Seq<char>, Seq<Filter>), ps: Seq<(Seq<char>, Seq<Filter>)>)
    ensures
        pairs_depth(seq![pr] + ps) == max_nat(program_depth(pr.1), pairs_depth(ps)),
{
    assert((seq![pr] + ps).drop_first() =~= ps);
}

/// Whatever the parser reads at `i` can be spelled.
proof fn lemma_wf_query(s: Seq<char>, i: int, d: nat)
    requires
        d <= MAX_DEPTH,
        p_query(s, i, d) is Some,
    ensures
        d + program_depth((p_query(s, i, d)->0).1) <= MAX_DEPTH,
        wf_program((p_query(s, i, d)->0).1),
    decreases s.len() - i, 5nat,
{
    let j = sep_end(s, i);
    let (e, f) = p_filter(s, j, d)->0;
    lemma_wf_filter(s, j, d);
    lemma_wf_tail(s, e, d);
    lemma_wf_filters_cons(f, p_query_tail(s, e, d).1);
}

proof fn lemma_wf_tail(s: Seq<char>, pos: int, d: nat)
    requires
        d <= MAX_DEPTH,
    ensures
        d + program_depth(p_query_tail(s, pos, d).1) <= MAX_DEPTH,
        wf_filters(p_query_tail(s, pos, d).1),
    decreases s.len() - pos, 5nat,
{
    let j = sep_end(s, pos);
    if 0 <= pos <= s.len() && p_suffix(s, pos) is Some {
        let (e, f) = p_suffix(s, pos)->0;
        if pos < e <= s.len() {
            lemma_wf_tail(s, e, d);
            lemma_wf_filters_cons(f, p_query_tail(s, e, d).1);
        }
    } else if 0 <= pos <= j <= s.len() {
        if let Some((e, f)) = p_filter(s, j, d) {
            if pos < e <= s.len() {
                lemma_wf_filter(s, j, d);
                lemma_wf_tail(s, e, d);
                lemma_wf_filters_cons(f, p_query_tail(s, e, d).1);
            }
        }
    }
}

proof fn lemma_wf_filter(s: Seq<char>, i: int, d: nat)
    requires
        d <= MAX_DEPTH,
        p_filter(s, i, d) is Some,
    ensures
        d + filter_depth((p_filter(s, i, d)->0).1) <= MAX_DEPTH,
        wf_filter((p_filter(s, i, d)->0).1),
    decreases s.len() - i, 4nat,
{
    if p_select(s, i, d) is Some {
        lemma_wf_select(s, i, d);
    } else if p_iterator(s, i) is Some {
    } else if p_index(s, i) is Some {
    } else if p_field(s, i) is Some {
        lemma_wf_field(s, i);
    } else if p_object(s, i, d) is Some {
        lemma_wf_object(s, i, d);
    }
}

proof fn lemma_wf_select(s: Seq<char>, i: int, d: nat)
    requires
        d <= MAX_DEPTH,
        p_select(s, i, d) is Some,
    ensures
        d + filter_depth((p_select(s, i, d)->0).1) <= MAX_DEPTH,
        wf_filter((p_select(s, i, d)->0).1),
    decreases s.len() - i, 3nat,
{
    let a = ws_end(s, i + 7);
    lemma_wf_query(s, a, (d + 1) as nat);
    let (b, path) = p_query(s, a, (d + 1) as nat)->0;
    let c = ws_end(s, b);
    let (d, op) = p_cmp(s, c)->0;
    let e = ws_end(s, d);
    lemma_ws_bound(s, d);
    lemma_wf_literal(s, e);
}

pub(crate) proof fn lemma_ws_bound(s: Seq<char>, i: int)
    requires
        0 <= i,
    ensures
        i <= ws_end(s, i),
    decreases s.len() - i,
{
    if 0 <= i < s.len() && is_space(s[i]) {
        lemma_ws_bound(s, i + 1);
    }
}

proof fn lemma_wf_object(s: Seq<char>, i: int, d: nat)
    requires
        d <= MAX_DEPTH,
        p_object(s, i, d) is Some,
    ensures
        d + filter_depth((p_object(s, i, d)->0).1) <= MAX_DEPTH,
        wf_filter((p_object(s, i, d)->0).1),
    decreases s.len() - i, 3nat,
{
    let a = ws_end(s, i + 1);
    lemma_wf_pairs(s, a, (d + 1) as nat);
}

proof fn lemma_wf_pairs(s: Seq<char>, i: int, d: nat)
    requires
        d <= MAX_DEPTH,
        p_pairs(s, i, d) is Some,
    ensures
        d + pairs_depth((p_pairs(s, i, d)->0).1) <= MAX_DEPTH,
        (p_pairs(s, i, d)->0).1.len() > 0,
        wf_pairs((p_pairs(s, i, d)->0).1),
    decreases s.len() - i, 2nat,
{
    let (e, pr) = p_pair(s, i, d)->0;
    lemma_wf_pair(s, i, d);
    lemma_wf_pairs_tail(s, e, d);
    let rest = p_pairs_tail(s, e, d).1;
    assert((seq![pr] + rest).drop_first() =~= rest);
    lemma_pairs_depth_cons(pr, rest);
}

proof fn lemma_wf_pairs_tail(s: Seq<char>, pos: int, d: nat)
    requires
        d <= MAX_DEPTH,
    ensures
        d + pairs_depth(p_pairs_tail(s, pos, d).1) <= MAX_DEPTH,
        wf_pairs(p_pairs_tail(s, pos, d).1),
    decreases s.len() - pos, 2nat,
{
    let a = ws_end(s, pos);
    let b = ws_end(s, a + 1);
    if char_at(s, a, ',') && 0 <= pos < b <= s.len() {
        if let Some((c, pr)) = p_pair(s, b, d) {
            if b < c <= s.len() {
                lemma_wf_pair(s, b, d);
                lemma_wf_pairs_tail(s, c, d);
                let rest = p_pairs_tail(s, c, d).1;
                assert((seq![pr] + rest).drop_first() =~= rest);
                lemma_pairs_depth_cons(pr, rest);
            }
        }
    }
}

proof fn lemma_wf_pair(s: Seq<char>, i: int, d: nat)
    requires
        d <= MAX_DEPTH,
        p_pair(s, i, d) is Some,
    ensures
        d + program_depth(((p_pair(s, i, d)->0).1).1) <= MAX_DEPTH,
        is_word(((p_pair(s, i, d)->0).1).0),
        wf_program(((p_pair(s, i, d)->0).1).1),
    decreases s.len() - i, 1nat,
{
    let we = word_end(s, i + 1);
    let a = ws_end(s, we);
    let b = ws_end(s, a + 1);
    lemma_wf_query(s, b, d);
    lemma_word_chars(s, i + 1);
    let w = s.subrange(i, we);
    assert(w[0] == s[i]);
    assert forall|k: int| 0 <= k < w.len() implies is_word_char(#[trigger] w[k]) by {
        assert(w[k] == s[i + k]);
    }
}

/// Printing a program that the parser produced and parsing the text gives
/// the same program back, with nothing left over.
pub proof fn law_print_parse(query: Seq<char>)
    requires
        parse(query) is Some,
    ensures
        ({
            let (rest, p) = parse(query)->0;
            parse(program_text(p)) == Some((Seq::<char>::empty(), p))
        }),
{
    lemma_wf_query(query, 0, 0);
    let (rest, p) = parse(query)->0;
    lemma_print_parse(p);
}

/// Printing a program that text can spell, nested no deeper than
/// `MAX_DEPTH`, and parsing the text gives the same program back, with
/// nothing left over.
pub proof fn lemma_print_parse(p: Seq<Filter>)
    requires
        program_depth(p) <= MAX_DEPTH,
        wf_program(p),
    ensures
        parse(program_text(p)) == Some((Seq::<char>::empty(), p)),
{
    let s = program_text(p);
    assert(s.subrange(0, s.len() as int) =~= s);
    lemma_program_text(p, s, 0, 0);
    assert(s.subrange(s.len() as int, s.len() as int) =~= Seq::<char>::empty());
}

/// Appends the digits of `n`.
fn push_nat(out: &mut String, n: u64)
    ensures
        final(out)@ == old(out)@ + nat_text(n as nat),
    decreases n,
{
    if n >= 10 {
        push_nat(out, n / 10);
    }
    out.append(digit_text((n % 10) as u8));
    proof {
        if n < 10 {
            assert(n % 10 == n);
        }
    }
}

/// Appends the text of `v`.
fn push_int(out: &mut String, v: i64)
    ensures
        final(out)@ == old(out)@ + int_text(v as int),
{
    proof {
        reveal_strlit("-");
    }
    if v < 0 {
        out.append("-");
        let m = (0 - (v as i128)) as u64;
        push_nat(out, m);
    } else {
        push_nat(out, v as u64);
    }
}

fn op_str(op: &CompareOp) -> (r: &'static str)
    ensures
        r@ == op_text(*op),
{
    proof {
        reveal_strlit("==");
        reveal_strlit("!=");
        reveal_strlit(">");
        reveal_strlit("<");
        reveal_strlit(">=");
        reveal_strlit("<=");
    }
    let r = match op {
        CompareOp::Eq => "==",
        CompareOp::Neq => "!=",
        CompareOp::Gt => ">",
        CompareOp::Lt => "<",
        CompareOp::Gte => ">=",
        CompareOp::Lte => "<=",
    };
    proof {
        assert(r@ =~= op_text(*op));
    }
    r
}

fn push_literal(out: &mut String, lit: &Literal)
    ensures
        final(out)@ == old(out)@ + lit_text(lit@),
{
    proof {
        reveal_strlit("\"");
        reveal_strlit("true");
        reveal_strlit("false");
        reveal_strlit("null");
    }
    let ghost start = out@;
    match lit {
        Literal::Int(v) => push_int(out, *v),
        Literal::Float(d) => {
            let t = d.to_text();
            out.append(t.as_str());
        },
        Literal::String(t) => {
            out.append("\"");
            out.append(t.as_str());
            out.append("\"");
            proof {
                assert(out@ =~= start + lit_text(lit@));
            }
        },
        Literal::Bool(b) => {
            if *b {
                out.append("true");
            } else {
                out.append("false");
            }
            proof {
                assert(out@ =~= start + lit_text(lit@));
            }
        },
        Literal::Null => {
            out.append("null");
            proof {
                assert(out@ =~= start + lit_text(lit@));
            }
        },
    }
}

fn push_filter(out: &mut String, f: &RustyFilter)
    ensures
        final(out)@ == old(out)@ + filter_text(f@),
    decreases f, 0nat,
{
    proof {
        reveal_strlit(".");
        reveal_strlit(".[");
        reveal_strlit("]");
        reveal_strlit(".[]");
        reveal_strlit("{");
        reveal_strlit("}");
        reveal_strlit("select(");
        reveal_strlit(" ");
        reveal_strlit(")");
    }
    let ghost start = out@;
    match f {
        RustyFilter::Identity => {
            out.append(".");
        },
        RustyFilter::Field(w) => {
            out.append(".");
            out.append(w.as_str());
            proof {
                assert(out@ =~= start + filter_text(f@));
            }
        },
        RustyFilter::Index(i) => {
            out.append(".[");
            push_int(out, *i as i64);
            out.append("]");
            proof {
                assert(out@ =~= start + filter_text(f@));
            }
        },
        RustyFilter::Iterator => {
            out.append(".[]");
        },
        RustyFilter::Object(pairs) => {
            proof {
                assert(decreases_to!(*f => (*f)->Object_0));
                assert(decreases_to!((*f)->Object_0 => (*f)->Object_0@));
            }
            out.append("{");
            push_pairs(out, pairs, 0);
            out.append("}");
            proof {
                assert(pairs@.skip(0) =~= pairs@);
                assert(pairs_view(pairs@).skip(0) =~= pairs_view(pairs@));
                assert(out@ =~= start + filter_text(f@));
            }
        },
        RustyFilter::Select(path, op, lit) => {
            proof {
                assert(decreases_to!(*f => (*f)->Select_0));
                assert(decreases_to!((*f)->Select_0 => (*f)->Select_0@));
            }
            out.append("select(");
            push_program(out, path);
            out.append(" ");
            out.append(op_str(op));
            out.append(" ");
            push_literal(out, lit);
            out.append(")");
            proof {
                assert(out@ =~= start + filter_text(f@));
            }
        },
    }
}

fn push_program(out: &mut String, fs: &Vec<RustyFilter>)
    ensures
        final(out)@ == old(out)@ + program_text(filters_view(fs@)),
    decreases fs@, 2nat,
{
    let ghost v = filters_view(fs@);
    proof {
        lemma_filters_view(fs@);
    }
    if fs.len() == 0 {
        return;
    }
    let ghost start = out@;
    proof {
        assert(decreases_to!(fs@ => fs@[0]));
    }
    push_filter(out, &fs[0]);
    push_tail(out, fs, 1);
    proof {
        assert(v.skip(1) =~= v.drop_first());
        assert(out@ =~= start + program_text(v));
    }
}

/// Appends ` | ` and the text of each filter of `fs` from position `k` on.
fn push_tail(out: &mut String, fs: &Vec<RustyFilter>, k: usize)
    requires
        1 <= k <= fs.len(),
    ensures
        final(out)@ == old(out)@ + tail_text(filters_view(fs@).skip(k as int)),
    decreases fs@, 1nat, fs.len() - k,
{
    proof {
        reveal_strlit(" | ");
    }
    let ghost v = filters_view(fs@);
    proof {
        lemma_filters_view(fs@);
    }
    if k == fs.len() {
        proof {
            assert(v.skip(k as int) =~= Seq::<Filter>::empty());
        }
        return;
    }
    let ghost start = out@;
    out.append(" | ");
    proof {
        assert(decreases_to!(fs@ => fs@[k as int]));
    }
    push_filter(out, &fs[k]);
    push_tail(out, fs, k + 1);
    proof {
        assert(v.skip(k as int)[0] == v[k as int]);
        assert(v.skip(k as int).drop_first() =~= v.skip(k + 1));
        assert(out@ =~= start + tail_text(v.skip(k as int)));
    }
}

/// Appends the text of the pairs of `ps` from position `k` on, the first of
/// them after `, ` unless `k` is 0.
fn push_pairs(out: &mut String, ps: &Vec<(String, Vec<RustyFilter>)>, k: usize)
    requires
        k <= ps.len(),
    ensures
        k == 0 ==> final(out)@ == old(out)@ + pairs_text(pairs_view(ps@).skip(k as int)),
        k > 0 ==> final(out)@ == old(out)@ + pairs_tail_text(pairs_view(ps@).skip(k as int)),
    decreases ps@, 1nat, ps.len() - k,
{
    proof {
        reveal_strlit(", ");
        reveal_strlit(": ");
    }
    let ghost v = pairs_view(ps@);
    proof {
        lemma_pairs_view(ps@);
    }
    if k == ps.len() {
        proof {
            assert(v.skip(k as int) =~= Seq::<(Seq<char>, Seq<Filter>)>::empty());
        }
        return;
    }
    let ghost start = out@;
    if k > 0 {
        out.append(", ");
    }
    out.append(ps[k].0.as_str());
    out.append(": ");
    proof {
        assert(decreases_to!(ps@ => ps@[k as int]));
        assert(decreases_to!(ps@[k as int] => ps@[k as int].1));
        assert(decreases_to!(ps@[k as int].1 => ps@[k as int].1@));
    }
    push_program(out, &ps[k].1);
    push_pairs(out, ps, k + 1);
    proof {
        assert(v.skip(k as int)[0] == v[k as int]);
        assert(v.skip(k as int).drop_first() =~= v.skip(k + 1));
        assert(out@ =~= start + (if k > 0 { pairs_tail_text(v.skip(k as int)) } else { pairs_text(
            v.skip(k as int),
        ) }));
    }
}

/// The query text of a program: `parse_query` reads it back as the same
/// program.
pub fn to_query(filters: &Vec<RustyFilter>) -> (r: String)
    ensures
        r@ == program_text(filters_view(filters@)),
{
    let mut out = String::new();
    push_program(&mut out, filters);
    proof {
        assert(out@ =~= program_text(filters_view(filters@)));
    }
    out
}

} // verus!

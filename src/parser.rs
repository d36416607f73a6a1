//! The query parser: query text to a filter program.
//!
//! The grammar, tried in the order given where alternatives overlap:
//!
//! ```text
//! query   := (WS? '|' WS?)? filter (suffix | (WS? '|' WS?)? filter)*
//! filter  := select | '.[]' | '.[' int ']' | '.' word | object | '.'
//! suffix  := '[]' | '[' int ']'
//! object  := '{' WS? pair (WS? ',' WS? pair)* WS? '}'
//! pair    := word WS? ':' WS? query
//! select  := 'select(' WS? query WS? cmp WS? literal WS? ')'
//! cmp     := '==' | '!=' | '>=' | '<=' | '>' | '<'
//! literal := 'true' | 'false' | 'null' | '"' [A-Za-z0-9_\- ]* '"'
//!          | '-'? digits '.' digits | '-'? digits
//! word    := [A-Za-z0-9_] [A-Za-z0-9_\-]*
//! ```
//!
//! WS is any run of spaces, tabs, carriage returns and line feeds.  A suffix
//! is an iterator or index written straight after the filter before it, as
//! in `.a[-1]` or `.items[]`.  Parsing is greedy and commits to the first
//! alternative that matches.  Object constructors and selects nest at most
//! [`MAX_DEPTH`] deep: one deeper does not parse.
use crate::decimal::{all_digits, Dec, Decimal};
use crate::filter::{filters_view, pairs_view, CompareOp, Filter, Lit, Literal, RustyFilter};
use vstd::prelude::*;

verus! {

pub open spec fn is_digit(c: char) -> bool {
    '0' <= c <= '9'
}

pub open spec fn is_alnum(c: char) -> bool {
    is_digit(c) || 'a' <= c <= 'z' || 'A' <= c <= 'Z'
}

/// A character that may start a word.
pub open spec fn is_word_start(c: char) -> bool {
    is_alnum(c) || c == '_'
}

/// A character that may continue a word.
pub open spec fn is_word_char(c: char) -> bool {
    is_alnum(c) || c == '_' || c == '-'
}

/// A character of a string literal.
pub open spec fn is_string_char(c: char) -> bool {
    is_alnum(c) || c == '_' || c == '-' || c == ' '
}

/// Space, tab, carriage return or line feed.
pub open spec fn is_space(c: char) -> bool {
    c == ' ' || c == '\t' || c == '\r' || c == '\n'
}

/// The end of the run of spaces that starts at `i`.
pub open spec fn ws_end(s: Seq<char>, i: int) -> int
    decreases s.len() - i,
{
    if 0 <= i < s.len() && is_space(s[i]) {
        ws_end(s, i + 1)
    } else {
        i
    }
}

/// The end of the run of word characters that starts at `i`.
pub open spec fn word_end(s: Seq<char>, i: int) -> int
    decreases s.len() - i,
{
    if 0 <= i < s.len() && is_word_char(s[i]) {
        word_end(s, i + 1)
    } else {
        i
    }
}

/// The end of the run of digits that starts at `i`.
pub open spec fn digits_end(s: Seq<char>, i: int) -> int
    decreases s.len() - i,
{
    if 0 <= i < s.len() && is_digit(s[i]) {
        digits_end(s, i + 1)
    } else {
        i
    }
}

/// The end of the run of string-literal characters that starts at `i`.
pub open spec fn string_end(s: Seq<char>, i: int) -> int
    decreases s.len() - i,
{
    if 0 <= i < s.len() && is_string_char(s[i]) {
        string_end(s, i + 1)
    } else {
        i
    }
}

/// Whether `t` occurs in `s` at `i`.
pub open spec fn has_at(s: Seq<char>, i: int, t: Seq<char>) -> bool {
    0 <= i && i + t.len() <= s.len() && s.subrange(i, i + t.len()) == t
}

/// Whether `s[i]` exists and is `c`.
pub open spec fn char_at(s: Seq<char>, i: int, c: char) -> bool {
    0 <= i < s.len() && s[i] == c
}

/// Where the filter after an optional `|` separator at `i` starts.
pub open spec fn sep_end(s: Seq<char>, i: int) -> int {
    let a = ws_end(s, i);
    if char_at(s, a, '|') {
        ws_end(s, a + 1)
    } else {
        i
    }
}

/// How deeply object constructors and selects may nest in a query.
pub const MAX_DEPTH: usize = 1024;

/// The value of a decimal digit character.
pub open spec fn digit_of(c: char) -> u8 {
    (c as u32 - '0' as u32) as u8
}

/// The digit values of a run of digit characters.
pub open spec fn digit_values(t: Seq<char>) -> Seq<u8> {
    t.map_values(|c: char| digit_of(c))
}

/// The natural number that a run of digit characters spells.
pub open spec fn chars_value(t: Seq<char>) -> nat
    decreases t.len(),
{
    if t.len() == 0 {
        0
    } else {
        (chars_value(t.drop_last()) * 10 + digit_of(t.last())) as nat
    }
}

/// The end of an integer (an optional `-` and at least one digit) at `i`,
/// or -1 where there is none.
pub open spec fn int_end(s: Seq<char>, i: int) -> int {
    let j = if char_at(s, i, '-') {
        i + 1
    } else {
        i
    };
    if 0 <= j < s.len() && is_digit(s[j]) {
        digits_end(s, j)
    } else {
        -1
    }
}

/// The value of the integer text `s[i..e]`.
pub open spec fn int_value(s: Seq<char>, i: int, e: int) -> int {
    if char_at(s, i, '-') {
        -(chars_value(s.subrange(i + 1, e)) as int)
    } else {
        chars_value(s.subrange(i, e)) as int
    }
}

pub open spec fn p_iterator(s: Seq<char>, i: int) -> Option<(int, Filter)> {
    if has_at(s, i, ".[]"@) {
        Some((i + 3, Filter::Iterator))
    } else {
        None
    }
}

pub open spec fn p_index(s: Seq<char>, i: int) -> Option<(int, Filter)> {
    if char_at(s, i, '.') && char_at(s, i + 1, '[') {
        let e = int_end(s, i + 2);
        let v = int_value(s, i + 2, e);
        if e >= 0 && i32::MIN <= v <= i32::MAX && char_at(s, e, ']') {
            Some((e + 1, Filter::Index(v as i32)))
        } else {
            None
        }
    } else {
        None
    }
}

/// An iterator or index written straight after a filter: `[]` or `[i]`.
pub open spec fn p_suffix(s: Seq<char>, i: int) -> Option<(int, Filter)> {
    if has_at(s, i, "[]"@) {
        Some((i + 2, Filter::Iterator))
    } else if char_at(s, i, '[') {
        let e = int_end(s, i + 1);
        let v = int_value(s, i + 1, e);
        if e >= 0 && i32::MIN <= v <= i32::MAX && char_at(s, e, ']') {
            Some((e + 1, Filter::Index(v as i32)))
        } else {
            None
        }
    } else {
        None
    }
}

pub open spec fn p_field(s: Seq<char>, i: int) -> Option<(int, Filter)> {
    if char_at(s, i, '.') && 0 <= i + 1 < s.len() && is_word_start(s[i + 1]) {
        let e = word_end(s, i + 2);
        Some((e, Filter::Field(s.subrange(i + 1, e))))
    } else {
        None
    }
}

pub open spec fn p_identity(s: Seq<char>, i: int) -> Option<(int, Filter)> {
    if char_at(s, i, '.') {
        Some((i + 1, Filter::Identity))
    } else {
        None
    }
}

pub open spec fn p_cmp(s: Seq<char>, i: int) -> Option<(int, CompareOp)> {
    if has_at(s, i, "=="@) {
        Some((i + 2, CompareOp::Eq))
    } else if has_at(s, i, "!="@) {
        Some((i + 2, CompareOp::Neq))
    } else if has_at(s, i, ">="@) {
        Some((i + 2, CompareOp::Gte))
    } else if has_at(s, i, "<="@) {
        Some((i + 2, CompareOp::Lte))
    } else if char_at(s, i, '>') {
        Some((i + 1, CompareOp::Gt))
    } else if char_at(s, i, '<') {
        Some((i + 1, CompareOp::Lt))
    } else {
        None
    }
}

pub open spec fn p_literal(s: Seq<char>, i: int) -> Option<(int, Lit)> {
    let j = int_end(s, i);
    let neg = char_at(s, i, '-');
    let w = if neg {
        i + 1
    } else {
        i
    };
    if has_at(s, i, "true"@) {
        Some((i + 4, Lit::Bool(true)))
    } else if has_at(s, i, "false"@) {
        Some((i + 5, Lit::Bool(false)))
    } else if has_at(s, i, "null"@) {
        Some((i + 4, Lit::Null))
    } else if char_at(s, i, '"') && char_at(s, string_end(s, i + 1), '"') {
        let e = string_end(s, i + 1);
        Some((e + 1, Lit::Str(s.subrange(i + 1, e))))
    } else if j >= 0 && char_at(s, j, '.') && 0 <= j + 1 < s.len() && is_digit(s[j + 1]) {
        let e = digits_end(s, j + 1);
        Some(
            (
                e,
                Lit::Float(
                    Dec {
                        negative: neg,
                        whole: digit_values(s.subrange(w, j)),
                        frac: digit_values(s.subrange(j + 1, e)),
                    },
                ),
            ),
        )
    } else if j >= 0 && i64::MIN <= int_value(s, i, j) <= i64::MAX {
        Some((j, Lit::Int(int_value(s, i, j) as i64)))
    } else {
        None
    }
}

/// A query at `i`: one or more filters, each after an optional `|`.
pub open spec fn p_query(s: Seq<char>, i: int, d: nat) -> Option<(int, Seq<Filter>)>
    decreases s.len() - i, 5nat,
{
    let j = sep_end(s, i);
    if 0 <= i <= j <= s.len() {
        match p_filter(s, j, d) {
            Some((e, f)) => if i < e <= s.len() {
                let (end, fs) = p_query_tail(s, e, d);
                Some((end, seq![f] + fs))
            } else {
                None
            },
            None => None,
        }
    } else {
        None
    }
}

/// The filters that follow at `pos`, and where they end.
pub open spec fn p_query_tail(s: Seq<char>, pos: int, d: nat) -> (int, Seq<Filter>)
    decreases s.len() - pos, 5nat,
{
    let j = sep_end(s, pos);
    if 0 <= pos <= s.len() && p_suffix(s, pos) is Some {
        let (e, f) = p_suffix(s, pos)->0;
        if pos < e <= s.len() {
            let (end, fs) = p_query_tail(s, e, d);
            (end, seq![f] + fs)
        } else {
            (pos, Seq::empty())
        }
    } else if 0 <= pos <= j <= s.len() {
        match p_filter(s, j, d) {
            Some((e, f)) => if pos < e <= s.len() {
                let (end, fs) = p_query_tail(s, e, d);
                (end, seq![f] + fs)
            } else {
                (pos, Seq::empty())
            },
            None => (pos, Seq::empty()),
        }
    } else {
        (pos, Seq::empty())
    }
}

/// One filter at `i`.
pub open spec fn p_filter(s: Seq<char>, i: int, d: nat) -> Option<(int, Filter)>
    decreases s.len() - i, 4nat,
{
    if 0 <= i <= s.len() {
        if p_select(s, i, d) is Some {
            p_select(s, i, d)
        } else if p_iterator(s, i) is Some {
            p_iterator(s, i)
        } else if p_index(s, i) is Some {
            p_index(s, i)
        } else if p_field(s, i) is Some {
            p_field(s, i)
        } else if p_object(s, i, d) is Some {
            p_object(s, i, d)
        } else {
            p_identity(s, i)
        }
    } else {
        None
    }
}

pub open spec fn p_select(s: Seq<char>, i: int, d: nat) -> Option<(int, Filter)>
    decreases s.len() - i, 3nat,
{
    let a = ws_end(s, i + 7);
    if d < MAX_DEPTH && has_at(s, i, "select("@) && 0 <= i < a <= s.len() {
        match p_query(s, a, d + 1) {
            Some((b, path)) => {
                let c = ws_end(s, b);
                match p_cmp(s, c) {
                    Some((d, op)) => {
                        let e = ws_end(s, d);
                        match p_literal(s, e) {
                            Some((g, lit)) => {
                                let h = ws_end(s, g);
                                if char_at(s, h, ')') {
                                    Some((h + 1, Filter::Select(path, op, lit)))
                                } else {
                                    None
                                }
                            },
                            None => None,
                        }
                    },
                    None => None,
                }
            },
            None => None,
        }
    } else {
        None
    }
}

pub open spec fn p_object(s: Seq<char>, i: int, d: nat) -> Option<(int, Filter)>
    decreases s.len() - i, 3nat,
{
    let a = ws_end(s, i + 1);
    if d < MAX_DEPTH && char_at(s, i, '{') && 0 <= i < a <= s.len() {
        match p_pairs(s, a, d + 1) {
            Some((b, ps)) => {
                let c = ws_end(s, b);
                if char_at(s, c, '}') {
                    Some((c + 1, Filter::Object(ps)))
                } else {
                    None
                }
            },
            None => None,
        }
    } else {
        None
    }
}

/// One or more pairs separated by commas.
pub open spec fn p_pairs(s: Seq<char>, i: int, d: nat) -> Option<(int, Seq<(Seq<char>, Seq<Filter>)>)>
    decreases s.len() - i, 2nat,
{
    if 0 <= i <= s.len() {
        match p_pair(s, i, d) {
            Some((e, pr)) => if i < e <= s.len() {
                let (end, rest) = p_pairs_tail(s, e, d);
                Some((end, seq![pr] + rest))
            } else {
                None
            },
            None => None,
        }
    } else {
        None
    }
}

/// The pairs that follow at `pos`, each after a comma, and where they end.
pub open spec fn p_pairs_tail(s: Seq<char>, pos: int, d: nat) -> (int, Seq<(Seq<char>, Seq<Filter>)>)
    decreases s.len() - pos, 2nat,
{
    let a = ws_end(s, pos);
    let b = ws_end(s, a + 1);
    if char_at(s, a, ',') && 0 <= pos < b <= s.len() {
        match p_pair(s, b, d) {
            Some((c, pr)) => if b < c <= s.len() {
                let (end, rest) = p_pairs_tail(s, c, d);
                (end, seq![pr] + rest)
            } else {
                (pos, Seq::empty())
            },
            None => (pos, Seq::empty()),
        }
    } else {
        (pos, Seq::empty())
    }
}

pub open spec fn p_pair(s: Seq<char>, i: int, d: nat) -> Option<(int, (Seq<char>, Seq<Filter>))>
    decreases s.len() - i, 1nat,
{
    let we = word_end(s, i + 1);
    let a = ws_end(s, we);
    let b = ws_end(s, a + 1);
    if 0 <= i < s.len() && is_word_start(s[i]) && char_at(s, a, ':') && i < b <= s.len() {
        match p_query(s, b, d) {
            Some((c, q)) => Some((c, (s.subrange(i, we), q))),
            None => None,
        }
    } else {
        None
    }
}

/// A whole query: the program and the text that follows it.
pub open spec fn parse(s: Seq<char>) -> Option<(Seq<char>, Seq<Filter>)> {
    match p_query(s, 0, 0) {
        Some((e, fs)) => Some((s.subrange(e, s.len() as int), fs)),
        None => None,
    }
}

/// The characters of `q`, in order.
pub(crate) fn chars_of(q: &str) -> (r: Vec<char>)
    ensures
        r@ == q@,
{
    let mut out: Vec<char> = Vec::new();
    for c in it: q.chars()
        invariant
            out@ == it.seq().take(it.index() as int),
    {
        out.push(c);
    }
    out
}

fn space(c: char) -> (r: bool)
    ensures
        r == is_space(c),
{
    c == ' ' || c == '\t' || c == '\r' || c == '\n'
}

fn digit(c: char) -> (r: bool)
    ensures
        r == is_digit(c),
{
    '0' <= c && c <= '9'
}

fn alnum(c: char) -> (r: bool)
    ensures
        r == is_alnum(c),
{
    digit(c) || ('a' <= c && c <= 'z') || ('A' <= c && c <= 'Z')
}

fn word_char(c: char) -> (r: bool)
    ensures
        r == is_word_char(c),
{
    alnum(c) || c == '_' || c == '-'
}

fn string_char(c: char) -> (r: bool)
    ensures
        r == is_string_char(c),
{
    alnum(c) || c == '_' || c == '-' || c == ' '
}

/// Whether `s[i]` exists and is `c`.
fn char_is(s: &Vec<char>, i: usize, c: char) -> (r: bool)
    ensures
        r == char_at(s@, i as int, c),
{
    i < s.len() && s[i] == c
}

/// Whether `t` occurs in `s` at `i`.
fn tag_at(s: &Vec<char>, i: usize, t: &str) -> (r: bool)
    requires
        i <= s.len(),
    ensures
        r == has_at(s@, i as int, t@),
{
    let n = t.unicode_len();
    if s.len() - i < n {
        return false;
    }
    let mut k: usize = 0;
    while k < n
        invariant
            k <= n,
            n == t@.len(),
            i + n <= s.len(),
            forall|m: int| 0 <= m < k ==> s@[i + m] == t@[m],
        decreases n - k,
    {
        if s[i + k] != t.get_char(k) {
            assert(s@.subrange(i as int, i + n)[k as int] == s@[i + k]);
            return false;
        }
        k = k + 1;
    }
    assert(s@.subrange(i as int, i + n) =~= t@);
    true
}

/// The end of the run of spaces at `i`.
fn skip_ws(s: &Vec<char>, i: usize) -> (r: usize)
    requires
        i <= s.len(),
    ensures
        r as int == ws_end(s@, i as int),
        i <= r <= s.len(),
{
    let mut j = i;
    while j < s.len() && space(s[j])
        invariant
            i <= j <= s.len(),
            ws_end(s@, j as int) == ws_end(s@, i as int),
        decreases s.len() - j,
    {
        j = j + 1;
    }
    j
}

/// The end of the run of word characters at `i`.
fn skip_word(s: &Vec<char>, i: usize) -> (r: usize)
    requires
        i <= s.len(),
    ensures
        r as int == word_end(s@, i as int),
        i <= r <= s.len(),
{
    let mut j = i;
    while j < s.len() && word_char(s[j])
        invariant
            i <= j <= s.len(),
            word_end(s@, j as int) == word_end(s@, i as int),
        decreases s.len() - j,
    {
        j = j + 1;
    }
    j
}

/// The end of the run of digits at `i`.
fn skip_digits(s: &Vec<char>, i: usize) -> (r: usize)
    requires
        i <= s.len(),
    ensures
        r as int == digits_end(s@, i as int),
        i <= r <= s.len(),
        forall|k: int| i <= k < r ==> is_digit(#[trigger] s@[k]),
{
    let mut j = i;
    while j < s.len() && digit(s[j])
        invariant
            i <= j <= s.len(),
            digits_end(s@, j as int) == digits_end(s@, i as int),
            forall|k: int| i <= k < j ==> is_digit(#[trigger] s@[k]),
        decreases s.len() - j,
    {
        j = j + 1;
    }
    j
}

/// The end of the run of string-literal characters at `i`.
fn skip_string(s: &Vec<char>, i: usize) -> (r: usize)
    requires
        i <= s.len(),
    ensures
        r as int == string_end(s@, i as int),
        i <= r <= s.len(),
{
    let mut j = i;
    while j < s.len() && string_char(s[j])
        invariant
            i <= j <= s.len(),
            string_end(s@, j as int) == string_end(s@, i as int),
        decreases s.len() - j,
    {
        j = j + 1;
    }
    j
}

/// Where the filter after an optional `|` at `i` starts.
fn skip_sep(s: &Vec<char>, i: usize) -> (r: usize)
    requires
        i <= s.len(),
    ensures
        r as int == sep_end(s@, i as int),
        i <= r <= s.len(),
{
    let a = skip_ws(s, i);
    if char_is(s, a, '|') {
        skip_ws(s, a + 1)
    } else {
        i
    }
}

/// The end of an integer at `i`, where there is one.
fn scan_int(s: &Vec<char>, i: usize) -> (r: Option<usize>)
    requires
        i <= s.len(),
    ensures
        match r {
            Some(e) => e as int == int_end(s@, i as int) && i < e <= s.len() && forall|k: int|
                (if char_at(s@, i as int, '-') { i + 1 } else { i as int }) <= k < e ==> is_digit(
                    #[trigger] s@[k],
                ),
            None => int_end(s@, i as int) == -1,
        },
{
    let j = if char_is(s, i, '-') {
        i + 1
    } else {
        i
    };
    if j < s.len() && digit(s[j]) {
        Some(skip_digits(s, j + 1))
    } else {
        None
    }
}

/// Two to the sixty-fourth: beyond every magnitude an `i64` can hold.
pub open spec fn cap() -> nat {
    0x1_0000_0000_0000_0000
}

/// `x`, or [`cap`] where `x` is larger.
pub open spec fn capped(x: nat) -> nat {
    if x > cap() {
        cap()
    } else {
        x
    }
}

/// The value of the integer text `s[i..e]`, where it fits in an `i64`.
fn int_text_value(s: &Vec<char>, i: usize, e: usize) -> (r: Option<i64>)
    requires
        i < e <= s.len(),
        forall|k: int|
            (if char_at(s@, i as int, '-') { i + 1 } else { i as int }) <= k < e ==> is_digit(
                #[trigger] s@[k],
            ),
    ensures
        match r {
            Some(v) => v as int == int_value(s@, i as int, e as int),
            None => !(i64::MIN <= int_value(s@, i as int, e as int) <= i64::MAX),
        },
{
    let neg = s[i] == '-';
    let start = if neg {
        i + 1
    } else {
        i
    };
    let mut acc: u128 = 0;
    let mut k = start;
    assert(s@.subrange(start as int, start as int) =~= Seq::<char>::empty());
    while k < e
        invariant
            start <= k <= e,
            e <= s.len(),
            start == (if char_at(s@, i as int, '-') { i + 1 } else { i as int }),
            forall|m: int| start <= m < e ==> is_digit(#[trigger] s@[m]),
            acc as int == capped(chars_value(s@.subrange(start as int, k as int))),
        decreases e - k,
    {
        assert(is_digit(s@[k as int]));
        let d = (s[k] as u32 - '0' as u32) as u128;
        let ghost before = chars_value(s@.subrange(start as int, k as int));
        proof {
            assert(s@.subrange(start as int, k + 1).drop_last() =~= s@.subrange(
                start as int,
                k as int,
            ));
            assert(chars_value(s@.subrange(start as int, k + 1)) == before * 10 + d);
        }
        let next = acc * 10 + d;
        acc = if next > 0x1_0000_0000_0000_0000 {
            0x1_0000_0000_0000_0000
        } else {
            next
        };
        k = k + 1;
    }
    if neg {
        if acc <= 0x8000_0000_0000_0000 {
            Some((0 - (acc as i128)) as i64)
        } else {
            None
        }
    } else {
        if acc <= 0x7fff_ffff_ffff_ffff {
            Some(acc as i64)
        } else {
            None
        }
    }
}

/// The text `q[a..b]` as a string.
fn text_of(q: &str, a: usize, b: usize) -> (r: String)
    requires
        a <= b <= q@.len(),
    ensures
        r@ == q@.subrange(a as int, b as int),
{
    q.substring_char(a, b).to_owned()
}

/// The digit values of the digit characters `s[a..b]`.
fn digits_of(s: &Vec<char>, a: usize, b: usize) -> (r: Vec<u8>)
    requires
        a <= b <= s.len(),
        forall|k: int| a <= k < b ==> is_digit(#[trigger] s@[k]),
    ensures
        r@ == digit_values(s@.subrange(a as int, b as int)),
        all_digits(r@),
{
    let mut out: Vec<u8> = Vec::new();
    let mut k = a;
    while k < b
        invariant
            a <= k <= b,
            b <= s.len(),
            forall|m: int| a <= m < b ==> is_digit(#[trigger] s@[m]),
            out@ == digit_values(s@.subrange(a as int, k as int)),
            all_digits(out@),
        decreases b - k,
    {
        assert(is_digit(s@[k as int]));
        out.push((s[k] as u32 - '0' as u32) as u8);
        proof {
            assert(digit_values(s@.subrange(a as int, k + 1)) =~= digit_values(
                s@.subrange(a as int, k as int),
            ).push(digit_of(s@[k as int])));
        }
        k = k + 1;
    }
    out
}

fn parse_iterator(s: &Vec<char>, i: usize) -> (r: Option<(usize, RustyFilter)>)
    requires
        i <= s.len(),
    ensures
        match r {
            Some((e, f)) => p_iterator(s@, i as int) == Some((e as int, f@)) && i < e <= s.len(),
            None => p_iterator(s@, i as int) is None,
        },
{
    proof {
        reveal_strlit(".[]");
    }
    if tag_at(s, i, ".[]") {
        Some((i + 3, RustyFilter::Iterator))
    } else {
        None
    }
}

fn parse_index(s: &Vec<char>, i: usize) -> (r: Option<(usize, RustyFilter)>)
    requires
        i <= s.len(),
    ensures
        match r {
            Some((e, f)) => p_index(s@, i as int) == Some((e as int, f@)) && i < e <= s.len(),
            None => p_index(s@, i as int) is None,
        },
{
    if char_is(s, i, '.') && char_is(s, i + 1, '[') {
        match scan_int(s, i + 2) {
            Some(e) => match int_text_value(s, i + 2, e) {
                Some(v) => {
                    if -2147483648 <= v && v <= 2147483647 && char_is(s, e, ']') {
                        Some((e + 1, RustyFilter::Index(v as i32)))
                    } else {
                        None
                    }
                },
                None => None,
            },
            None => None,
        }
    } else {
        None
    }
}

fn parse_suffix(s: &Vec<char>, i: usize) -> (r: Option<(usize, RustyFilter)>)
    requires
        i <= s.len(),
    ensures
        match r {
            Some((e, f)) => p_suffix(s@, i as int) == Some((e as int, f@)) && i < e <= s.len(),
            None => p_suffix(s@, i as int) is None,
        },
{
    proof {
        reveal_strlit("[]");
    }
    if tag_at(s, i, "[]") {
        return Some((i + 2, RustyFilter::Iterator));
    }
    if char_is(s, i, '[') {
        match scan_int(s, i + 1) {
            Some(e) => match int_text_value(s, i + 1, e) {
                Some(v) => {
                    if -2147483648 <= v && v <= 2147483647 && char_is(s, e, ']') {
                        Some((e + 1, RustyFilter::Index(v as i32)))
                    } else {
                        None
                    }
                },
                None => None,
            },
            None => None,
        }
    } else {
        None
    }
}

fn parse_field(q: &str, s: &Vec<char>, i: usize) -> (r: Option<(usize, RustyFilter)>)
    requires
        i <= s.len(),
        s@ == q@,
    ensures
        match r {
            Some((e, f)) => p_field(s@, i as int) == Some((e as int, f@)) && i < e <= s.len(),
            None => p_field(s@, i as int) is None,
        },
{
    if char_is(s, i, '.') && i + 1 < s.len() && (alnum(s[i + 1]) || s[i + 1] == '_') {
        let e = skip_word(s, i + 2);
        Some((e, RustyFilter::Field(text_of(q, i + 1, e))))
    } else {
        None
    }
}

fn parse_identity(s: &Vec<char>, i: usize) -> (r: Option<(usize, RustyFilter)>)
    requires
        i <= s.len(),
    ensures
        match r {
            Some((e, f)) => p_identity(s@, i as int) == Some((e as int, f@)) && i < e <= s.len(),
            None => p_identity(s@, i as int) is None,
        },
{
    if char_is(s, i, '.') {
        Some((i + 1, RustyFilter::Identity))
    } else {
        None
    }
}

fn parse_compare_op(s: &Vec<char>, i: usize) -> (r: Option<(usize, CompareOp)>)
    requires
        i <= s.len(),
    ensures
        match r {
            Some((e, op)) => p_cmp(s@, i as int) == Some((e as int, op)) && i < e <= s.len(),
            None => p_cmp(s@, i as int) is None,
        },
{
    proof {
        reveal_strlit("==");
        reveal_strlit("!=");
        reveal_strlit(">=");
        reveal_strlit("<=");
    }
    if tag_at(s, i, "==") {
        Some((i + 2, CompareOp::Eq))
    } else if tag_at(s, i, "!=") {
        Some((i + 2, CompareOp::Neq))
    } else if tag_at(s, i, ">=") {
        Some((i + 2, CompareOp::Gte))
    } else if tag_at(s, i, "<=") {
        Some((i + 2, CompareOp::Lte))
    } else if char_is(s, i, '>') {
        Some((i + 1, CompareOp::Gt))
    } else if char_is(s, i, '<') {
        Some((i + 1, CompareOp::Lt))
    } else {
        None
    }
}

fn parse_literal(q: &str, s: &Vec<char>, i: usize) -> (r: Option<(usize, Literal)>)
    requires
        i <= s.len(),
        s@ == q@,
    ensures
        match r {
            Some((e, lit)) => p_literal(s@, i as int) == Some((e as int, lit@)) && i < e <= s.len(),
            None => p_literal(s@, i as int) is None,
        },
{
    proof {
        reveal_strlit("true");
        reveal_strlit("false");
        reveal_strlit("null");
    }
    if tag_at(s, i, "true") {
        return Some((i + 4, Literal::Bool(true)));
    }
    if tag_at(s, i, "false") {
        return Some((i + 5, Literal::Bool(false)));
    }
    if tag_at(s, i, "null") {
        return Some((i + 4, Literal::Null));
    }
    if char_is(s, i, '"') {
        let e = skip_string(s, i + 1);
        if char_is(s, e, '"') {
            return Some((e + 1, Literal::String(text_of(q, i + 1, e))));
        }
    }
    match scan_int(s, i) {
        Some(j) => {
            if char_is(s, j, '.') && j + 1 < s.len() && digit(s[j + 1]) {
                let e = skip_digits(s, j + 2);
                let neg = char_is(s, i, '-');
                let w = if neg {
                    i + 1
                } else {
                    i
                };
                let whole = digits_of(s, w, j);
                let frac = digits_of(s, j + 1, e);
                return Some((e, Literal::Float(Decimal::new(neg, whole, frac))));
            }
            match int_text_value(s, i, j) {
                Some(v) => Some((j, Literal::Int(v))),
                None => None,
            }
        },
        None => None,
    }
}

/// A query at `i`: one or more filters, each after an optional `|`.
fn parse_query_at(q: &str, s: &Vec<char>, i: usize, depth: usize) -> (r: Option<(usize, Vec<RustyFilter>)>)
    requires
        i <= s.len(),
        s@ == q@,
    ensures
        match r {
            Some((e, fs)) => p_query(s@, i as int, depth as nat) == Some((e as int, filters_view(fs@))) && i < e
                <= s.len(),
            None => p_query(s@, i as int, depth as nat) is None,
        },
    decreases s.len() - i, 5nat,
{
    let j = skip_sep(s, i);
    match parse_filter_at(q, s, j, depth) {
        None => None,
        Some((e, f)) => {
            let ghost first = f@;
            let mut fs: Vec<RustyFilter> = Vec::new();
            fs.push(f);
            proof {
                assert(fs@.drop_last() =~= Seq::<RustyFilter>::empty());
                assert(filters_view(Seq::<RustyFilter>::empty()) =~= Seq::<Filter>::empty());
                assert(filters_view(fs@) =~= seq![first]);
            }
            let mut pos = e;
            let ghost tail0 = p_query_tail(s@, e as int, depth as nat);
            loop
                invariant
                    i < e <= pos <= s.len(),
                    s@ == q@,
                    tail0 == p_query_tail(s@, e as int, depth as nat),
                    filters_view(fs@).len() >= 1,
                    filters_view(fs@)[0] == first,
                    tail0.0 == p_query_tail(s@, pos as int, depth as nat).0,
                    seq![first] + tail0.1 == filters_view(fs@) + p_query_tail(s@, pos as int, depth as nat).1,
                ensures
                    p_query_tail(s@, pos as int, depth as nat) == (pos as int, Seq::<Filter>::empty()),
                decreases s.len() - pos,
            {
                let step = match parse_suffix(s, pos) {
                    Some(x) => Some(x),
                    None => parse_filter_at(q, s, skip_sep(s, pos), depth),
                };
                match step {
                    Some((next_end, next_filter)) => {
                        let ghost before = fs@;
                        let ghost next_view = next_filter@;
                        let ghost rest = p_query_tail(s@, next_end as int, depth as nat);
                        fs.push(next_filter);
                        proof {
                            assert(p_query_tail(s@, pos as int, depth as nat) == (
                                rest.0,
                                seq![next_view] + rest.1,
                            ));
                            assert(fs@.drop_last() =~= before);
                            assert(filters_view(before) + (seq![next_view] + rest.1) =~= filters_view(
                                fs@,
                            ) + rest.1);
                        }
                        pos = next_end;
                    },
                    None => {
                        proof {
                            assert(p_query_tail(s@, pos as int, depth as nat) == (
                                pos as int,
                                Seq::<Filter>::empty(),
                            ));
                            assert(filters_view(fs@) + Seq::<Filter>::empty() =~= filters_view(fs@));
                        }
                        break ;
                    },
                }
            }
            Some((pos, fs))
        },
    }
}

/// One filter at `i`.
fn parse_filter_at(q: &str, s: &Vec<char>, i: usize, depth: usize) -> (r: Option<(usize, RustyFilter)>)
    requires
        i <= s.len(),
        s@ == q@,
    ensures
        match r {
            Some((e, f)) => p_filter(s@, i as int, depth as nat) == Some((e as int, f@)) && i < e <= s.len(),
            None => p_filter(s@, i as int, depth as nat) is None,
        },
    decreases s.len() - i, 4nat,
{
    if let Some(r) = parse_select_at(q, s, i, depth) {
        return Some(r);
    }
    if let Some(r) = parse_iterator(s, i) {
        return Some(r);
    }
    if let Some(r) = parse_index(s, i) {
        return Some(r);
    }
    if let Some(r) = parse_field(q, s, i) {
        return Some(r);
    }
    if let Some(r) = parse_object_at(q, s, i, depth) {
        return Some(r);
    }
    parse_identity(s, i)
}

/// A `select(path op literal)` filter at `i`.
fn parse_select_at(q: &str, s: &Vec<char>, i: usize, depth: usize) -> (r: Option<(usize, RustyFilter)>)
    requires
        i <= s.len(),
        s@ == q@,
    ensures
        match r {
            Some((e, f)) => p_select(s@, i as int, depth as nat) == Some((e as int, f@)) && i < e <= s.len(),
            None => p_select(s@, i as int, depth as nat) is None,
        },
    decreases s.len() - i, 3nat,
{
    proof {
        reveal_strlit("select(");
    }
    if depth >= MAX_DEPTH || !tag_at(s, i, "select(") {
        return None;
    }
    let a = skip_ws(s, i + 7);
    let (b, path) = match parse_query_at(q, s, a, depth + 1) {
        Some(x) => x,
        None => return None,
    };
    let c = skip_ws(s, b);
    let (d, op) = match parse_compare_op(s, c) {
        Some(x) => x,
        None => return None,
    };
    let e = skip_ws(s, d);
    let (g, lit) = match parse_literal(q, s, e) {
        Some(x) => x,
        None => return None,
    };
    let h = skip_ws(s, g);
    if char_is(s, h, ')') {
        Some((h + 1, RustyFilter::Select(path, op, lit)))
    } else {
        None
    }
}

/// A `key: query` pair of an object constructor at `i`.
fn parse_pair_at(q: &str, s: &Vec<char>, i: usize, depth: usize) -> (r: Option<(usize, (String, Vec<RustyFilter>))>)
    requires
        i <= s.len(),
        s@ == q@,
    ensures
        match r {
            Some((e, pr)) => p_pair(s@, i as int, depth as nat) == Some((e as int, (pr.0@, filters_view(pr.1@))))
                && i < e <= s.len(),
            None => p_pair(s@, i as int, depth as nat) is None,
        },
    decreases s.len() - i, 1nat,
{
    if !(i < s.len() && (alnum(s[i]) || s[i] == '_')) {
        return None;
    }
    let we = skip_word(s, i + 1);
    let a = skip_ws(s, we);
    if !char_is(s, a, ':') {
        return None;
    }
    let b = skip_ws(s, a + 1);
    match parse_query_at(q, s, b, depth) {
        Some((c, sub)) => Some((c, (text_of(q, i, we), sub))),
        None => None,
    }
}

/// An object constructor `{key: query, ...}` at `i`.
fn parse_object_at(q: &str, s: &Vec<char>, i: usize, depth: usize) -> (r: Option<(usize, RustyFilter)>)
    requires
        i <= s.len(),
        s@ == q@,
    ensures
        match r {
            Some((e, f)) => p_object(s@, i as int, depth as nat) == Some((e as int, f@)) && i < e <= s.len(),
            None => p_object(s@, i as int, depth as nat) is None,
        },
    decreases s.len() - i, 3nat,
{
    if depth >= MAX_DEPTH || !char_is(s, i, '{') {
        return None;
    }
    let inner = depth + 1;
    let a = skip_ws(s, i + 1);
    let (e, first) = match parse_pair_at(q, s, a, inner) {
        Some(x) => x,
        None => return None,
    };
    let ghost first_view = (first.0@, filters_view(first.1@));
    let mut pairs: Vec<(String, Vec<RustyFilter>)> = Vec::new();
    pairs.push(first);
    proof {
        assert(pairs@.drop_last() =~= Seq::<(String, Vec<RustyFilter>)>::empty());
        assert(pairs_view(Seq::<(String, Vec<RustyFilter>)>::empty()) =~= Seq::<(Seq<char>, Seq<Filter>)>::empty());
        assert(pairs_view(pairs@) =~= seq![first_view]);
    }
    let ghost tail0 = p_pairs_tail(s@, e as int, (depth + 1) as nat);
    let mut pos = e;
    loop
        invariant
            i < a < e <= pos <= s.len(),
            s@ == q@,
            inner == depth + 1,
            a as int == ws_end(s@, i + 1),
            p_pair(s@, a as int, (depth + 1) as nat) == Some((e as int, first_view)),
            tail0 == p_pairs_tail(s@, e as int, (depth + 1) as nat),
            tail0.0 == p_pairs_tail(s@, pos as int, (depth + 1) as nat).0,
            seq![first_view] + tail0.1 == pairs_view(pairs@) + p_pairs_tail(s@, pos as int, (depth + 1) as nat).1,
        ensures
            p_pairs_tail(s@, pos as int, (depth + 1) as nat) == (pos as int, Seq::<(Seq<char>, Seq<Filter>)>::empty()),
        decreases s.len() - pos,
    {
        let sa = skip_ws(s, pos);
        if !char_is(s, sa, ',') {
            proof {
                assert(p_pairs_tail(s@, pos as int, (depth + 1) as nat) == (pos as int, Seq::<(Seq<char>, Seq<Filter>)>::empty()));
                assert(pairs_view(pairs@) + Seq::<(Seq<char>, Seq<Filter>)>::empty() =~= pairs_view(
                    pairs@,
                ));
            }
            break ;
        }
        let sb = skip_ws(s, sa + 1);
        match parse_pair_at(q, s, sb, inner) {
            Some((c, pr)) => {
                let ghost before = pairs@;
                let ghost prv = (pr.0@, filters_view(pr.1@));
                pairs.push(pr);
                proof {
                    assert(p_pairs_tail(s@, pos as int, (depth + 1) as nat) == (p_pairs_tail(s@, c as int, (depth + 1) as nat).0, seq![prv] + p_pairs_tail(s@, c as int, (depth + 1) as nat).1));
                    assert(pairs@.drop_last() =~= before);
                    let rest = p_pairs_tail(s@, c as int, (depth + 1) as nat).1;
                    assert(pairs_view(before) + (seq![prv] + rest) =~= pairs_view(pairs@) + rest);
                }
                pos = c;
            },
            None => {
                proof {
                    assert(p_pairs_tail(s@, pos as int, (depth + 1) as nat) == (pos as int, Seq::<(Seq<char>, Seq<Filter>)>::empty()));
                    assert(pairs_view(pairs@) + Seq::<(Seq<char>, Seq<Filter>)>::empty() =~= pairs_view(
                        pairs@,
                    ));
                }
                break ;
            },
        }
    }
    let c = skip_ws(s, pos);
    if char_is(s, c, '}') {
        Some((c + 1, RustyFilter::Object(pairs)))
    } else {
        None
    }
}

/// Why a query was refused.
#[derive(Debug, PartialEq)]
pub enum ParseError {
    /// The query does not start with a program.
    InvalidSyntax,
    /// A program was read, and this text followed it.
    ExtraCharacters(String),
}

/// Parses the program at the start of `input`, and returns it with the
/// text that follows it.
pub fn parse_query(input: &str) -> (r: Result<(&str, Vec<RustyFilter>), ParseError>)
    ensures
        match r {
            Ok((rest, p)) => parse(input@) == Some((rest@, filters_view(p@))),
            Err(e) => parse(input@) is None && e is InvalidSyntax,
        },
{
    let s = chars_of(input);
    match parse_query_at(input, &s, 0, 0) {
        Some((e, fs)) => Ok((input.substring_char(e, s.len()), fs)),
        None => Err(ParseError::InvalidSyntax),
    }
}

/// The number that `t` spells: an optional `-`, digits, and optionally a
/// `.` with more digits.
pub open spec fn number_of_text(t: Seq<char>) -> Option<Dec> {
    let j = int_end(t, 0);
    let neg = char_at(t, 0, '-');
    let w = if neg {
        1int
    } else {
        0int
    };
    if j < 0 {
        None
    } else if j == t.len() {
        Some(Dec { negative: neg, whole: digit_values(t.subrange(w, j)), frac: Seq::empty() })
    } else if char_at(t, j, '.') && 0 <= j + 1 < t.len() && is_digit(t[j + 1]) && digits_end(t, j + 1)
        == t.len() {
        Some(
            Dec {
                negative: neg,
                whole: digit_values(t.subrange(w, j)),
                frac: digit_values(t.subrange(j + 1, t.len() as int)),
            },
        )
    } else {
        None
    }
}

/// Reads a plain decimal number such as `-12`, `0.5` or `3.25`.
pub fn parse_number(text: &str) -> (r: Option<Decimal>)
    ensures
        match r {
            Some(d) => number_of_text(text@) == Some(d@),
            None => number_of_text(text@) is None,
        },
{
    let s = chars_of(text);
    match scan_int(&s, 0) {
        Some(j) => {
            let neg = char_is(&s, 0, '-');
            let w: usize = if neg {
                1
            } else {
                0
            };
            if j == s.len() {
                let whole = digits_of(&s, w, j);
                let frac: Vec<u8> = Vec::new();
                proof {
                    assert(frac@ =~= Seq::<u8>::empty());
                }
                Some(Decimal::new(neg, whole, frac))
            } else if char_is(&s, j, '.') && j + 1 < s.len() && digit(s[j + 1]) {
                let e = skip_digits(&s, j + 2);
                if e == s.len() {
                    let whole = digits_of(&s, w, j);
                    let frac = digits_of(&s, j + 1, e);
                    Some(Decimal::new(neg, whole, frac))
                } else {
                    None
                }
            } else {
                None
            }
        },
        None => None,
    }
}

proof fn lemma_query_tail_range(s: Seq<char>, pos: int, d: nat)
    requires
        0 <= pos <= s.len(),
    ensures
        pos <= p_query_tail(s, pos, d).0 <= s.len(),
    decreases s.len() - pos,
{
    let j = sep_end(s, pos);
    if p_suffix(s, pos) is Some {
        let (e, f) = p_suffix(s, pos)->0;
        if pos < e <= s.len() {
            lemma_query_tail_range(s, e, d);
        }
    } else if 0 <= pos <= j <= s.len() {
        if let Some((e, f)) = p_filter(s, j, d) {
            if pos < e <= s.len() {
                lemma_query_tail_range(s, e, d);
            }
        }
    }
}

/// What follows the program that `parse` reads is a suffix of the query.
pub proof fn law_rest_is_suffix(s: Seq<char>)
    requires
        parse(s) is Some,
    ensures
        ({
            let (rest, program) = parse(s)->0;
            rest.len() <= s.len() && s.subrange(s.len() - rest.len(), s.len() as int) == rest
        }),
{
    let j = sep_end(s, 0);
    let (e, f) = p_filter(s, j, 0)->0;
    lemma_query_tail_range(s, e, 0);
    let end = p_query_tail(s, e, 0).0;
    let (rest, program) = parse(s)->0;
    assert(rest == s.subrange(end, s.len() as int));
}

} // verus!

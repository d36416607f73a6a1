//! Compiled programs: a query checked to be a whole program, ready to run
//! over any number of inputs.
use crate::engine::{evaluate, handles_view, process_rust_value, Handle};
use crate::filter::{filters_view, Filter, RustyFilter};
use crate::parser::{chars_of, parse, parse_query, ParseError};
use crate::value::{lemma_values_view, values_view, Value};
use vstd::prelude::*;

verus! {

/// Whether `c` has the Unicode `White_Space` property.
pub open spec fn white_space(c: char) -> bool {
    let u = c as u32;
    (0x9 <= u <= 0xd) || u == 0x20 || u == 0x85 || u == 0xa0 || u == 0x1680 || (0x2000 <= u
        <= 0x200a) || u == 0x2028 || u == 0x2029 || u == 0x202f || u == 0x205f || u == 0x3000
}

/// Every character of `t` is white space.
pub open spec fn all_white(t: Seq<char>) -> bool {
    forall|i: int| 0 <= i < t.len() ==> white_space(#[trigger] t[i])
}

/// Relies on `char::is_whitespace`, which is true exactly for the characters
/// with the Unicode `White_Space` property.
#[verifier::external_body]
fn is_white(c: char) -> (r: bool)
    ensures
        r == white_space(c),
{
    c.is_whitespace()
}

/// Whether `t` holds nothing but white space.
fn blank(t: &str) -> (r: bool)
    ensures
        r == all_white(t@),
{
    let cs = chars_of(t);
    let mut i: usize = 0;
    while i < cs.len()
        invariant
            i <= cs.len(),
            cs@ == t@,
            forall|k: int| 0 <= k < i ==> white_space(#[trigger] cs@[k]),
        decreases cs.len() - i,
    {
        if !is_white(cs[i]) {
            return false;
        }
        i = i + 1;
    }
    true
}

/// A query compiled into its filter program.
pub struct RustyProgram {
    filters: Vec<RustyFilter>,
}

impl RustyProgram {
    pub closed spec fn view(&self) -> Seq<Filter> {
        filters_view(self.filters@)
    }

    /// The filters of the program, in order.
    pub fn filters(&self) -> (r: &Vec<RustyFilter>)
        ensures
            filters_view(r@) == self@,
    {
        &self.filters
    }

    /// Every result of the program on `input`, in order.
    pub fn run(&self, input: &Value) -> (r: Vec<Value>)
        ensures
            values_view(r@) == evaluate(input@, self@),
    {
        let mut handles = process_rust_value(Handle::Borrowed(input), self.filters.as_slice());
        let ghost hv = handles_view(handles@);
        let ghost orig = handles@;
        let mut out: Vec<Value> = Vec::new();
        let mut i: usize = 0;
        proof {
            assert(values_view(out@) =~= hv.take(0)) by {
                lemma_values_view(out@);
            }
        }
        while i < handles.len()
            invariant
                i <= handles.len(),
                handles.len() == orig.len(),
                hv == handles_view(orig),
                forall|j: int| i <= j < orig.len() ==> #[trigger] handles@[j] == orig[j],
                values_view(out@) == hv.take(i as int),
            decreases handles.len() - i,
        {
            let mut h = Handle::Owned(Value::Null);
            handles.set_and_swap(i, &mut h);
            let v = h.into_owned();
            let ghost before = out@;
            out.push(v);
            proof {
                assert(out@.drop_last() =~= before);
                assert(hv.take(i + 1) =~= hv.take(i as int).push(hv[i as int]));
            }
            i = i + 1;
        }
        proof {
            assert(hv.take(orig.len() as int) =~= hv);
        }
        out
    }

    /// The first result of the program on `input`, if there is one.
    pub fn first(&self, input: &Value) -> (r: Option<Value>)
        ensures
            match r {
                Some(v) => evaluate(input@, self@).len() > 0 && v@ == evaluate(input@, self@)[0],
                None => evaluate(input@, self@).len() == 0,
            },
    {
        let mut results = self.run(input);
        proof {
            lemma_values_view(results@);
        }
        if results.len() == 0 {
            None
        } else {
            Some(results.swap_remove(0))
        }
    }
}

/// The results of a run, shaped for a host that wants a single value: none,
/// the one result, or all of them as a list.
pub enum Shaped {
    Nothing,
    One(Value),
    Many(Vec<Value>),
}

/// Shapes the results of a run for a host that wants a single value.
pub fn shape(results: Vec<Value>) -> (r: Shaped)
    ensures
        match r {
            Shaped::Nothing => results@.len() == 0,
            Shaped::One(v) => results@.len() == 1 && v@ == results@[0]@,
            Shaped::Many(vs) => results@.len() > 1 && vs@ == results@,
        },
{
    let mut results = results;
    if results.len() == 0 {
        Shaped::Nothing
    } else if results.len() == 1 {
        Shaped::One(results.swap_remove(0))
    } else {
        Shaped::Many(results)
    }
}

/// Compiles a query: it must be one whole program, followed by nothing but
/// white space.
pub fn compile(query: &str) -> (r: Result<RustyProgram, ParseError>)
    ensures
        match r {
            Ok(p) => match parse(query@) {
                Some((rest, fs)) => all_white(rest) && p@ == fs,
                None => false,
            },
            Err(ParseError::InvalidSyntax) => parse(query@) is None,
            Err(ParseError::ExtraCharacters(t)) => match parse(query@) {
                Some((rest, fs)) => !all_white(rest) && t@ == rest,
                None => false,
            },
        },
{
    match parse_query(query) {
        Ok((rest, filters)) => {
            if blank(rest) {
                Ok(RustyProgram { filters })
            } else {
                Err(ParseError::ExtraCharacters(rest.to_owned()))
            }
        },
        Err(e) => Err(e),
    }
}

} // verus!

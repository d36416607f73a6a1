//! The filter program: the operators that the parser produces and the
//! evaluator runs, with their mathematical model.
use crate::decimal::{Dec, Decimal};
use vstd::prelude::*;

verus! {

/// How a `select` predicate compares the selected value with its literal.
#[derive(PartialEq, Eq, Structural, Clone, Copy, Debug)]
pub enum CompareOp {
    Eq,
    Neq,
    Gt,
    Lt,
    Gte,
    Lte,
}

/// The right-hand side of a `select` predicate.
#[derive(Debug, PartialEq)]
pub enum Literal {
    Int(i64),
    Float(Decimal),
    String(String),
    Bool(bool),
    Null,
}

/// Model of a [`Literal`].
pub enum Lit {
    Int(i64),
    Float(Dec),
    Str(Seq<char>),
    Bool(bool),
    Null,
}

impl Literal {
    pub open spec fn view(&self) -> Lit {
        match self {
            Literal::Int(i) => Lit::Int(*i),
            Literal::Float(d) => Lit::Float(d@),
            Literal::String(s) => Lit::Str(s@),
            Literal::Bool(b) => Lit::Bool(*b),
            Literal::Null => Lit::Null,
        }
    }
}

/// One operator of a query.  `Object` and `Select` hold sub-programs.
#[derive(Debug, PartialEq)]
pub enum RustyFilter {
    Identity,
    Field(String),
    Index(i32),
    Iterator,
    Object(Vec<(String, Vec<RustyFilter>)>),
    Select(Vec<RustyFilter>, CompareOp, Literal),
}

/// Model of a [`RustyFilter`].
pub enum Filter {
    Identity,
    Field(Seq<char>),
    Index(i32),
    Iterator,
    Object(Seq<(Seq<char>, Seq<Filter>)>),
    Select(Seq<Filter>, CompareOp, Lit),
}

impl RustyFilter {
    pub open spec fn view(&self) -> Filter
        decreases self,
    {
        match self {
            RustyFilter::Identity => Filter::Identity,
            RustyFilter::Field(k) => Filter::Field(k@),
            RustyFilter::Index(i) => Filter::Index(*i),
            RustyFilter::Iterator => Filter::Iterator,
            RustyFilter::Object(pairs) => Filter::Object(pairs_view(pairs@)),
            RustyFilter::Select(path, op, lit) => Filter::Select(filters_view(path@), *op, lit@),
        }
    }
}

/// Models of a sequence of filters, filter by filter.
pub open spec fn filters_view(s: Seq<RustyFilter>) -> Seq<Filter>
    decreases s,
{
    if s.len() == 0 {
        Seq::empty()
    } else {
        filters_view(s.drop_last()).push(s.last()@)
    }
}

/// Models of the pairs of an object constructor, pair by pair.
pub open spec fn pairs_view(s: Seq<(String, Vec<RustyFilter>)>) -> Seq<(Seq<char>, Seq<Filter>)>
    decreases s,
{
    if s.len() == 0 {
        Seq::empty()
    } else {
        pairs_view(s.drop_last()).push((s.last().0@, filters_view(s.last().1@)))
    }
}

/// The model of a sequence of filters has one entry per filter.
pub proof fn lemma_filters_view(s: Seq<RustyFilter>)
    ensures
        filters_view(s).len() == s.len(),
        forall|i: int| 0 <= i < s.len() ==> #[trigger] filters_view(s)[i] == s[i]@,
    decreases s.len(),
{
    if s.len() > 0 {
        lemma_filters_view(s.drop_last());
    }
}

/// The model of a sequence of pairs has one entry per pair.
pub proof fn lemma_pairs_view(s: Seq<(String, Vec<RustyFilter>)>)
    ensures
        pairs_view(s).len() == s.len(),
        forall|i: int|
            0 <= i < s.len() ==> #[trigger] pairs_view(s)[i] == (s[i].0@, filters_view(s[i].1@)),
    decreases s.len(),
{
    if s.len() > 0 {
        lemma_pairs_view(s.drop_last());
    }
}

} // verus!

//! JSON values as the engine sees them, with their mathematical model.
use crate::decimal::{Dec, Decimal};
use vstd::prelude::*;

verus! {

/// A decoded JSON document.  Objects keep their entries in order.  Numbers
/// are signed or unsigned 64-bit integers, or exact decimals for numbers
/// written with a fraction or an exponent.
#[derive(Debug, PartialEq)]
pub enum Value {
    Null,
    Bool(bool),
    Int(i64),
    UInt(u64),
    Float(Decimal),
    Str(String),
    Array(Vec<Value>),
    Object(Vec<(String, Value)>),
}

/// Model of a [`Value`].
pub enum Json {
    Null,
    Bool(bool),
    Int(i64),
    UInt(u64),
    Float(Dec),
    Str(Seq<char>),
    Array(Seq<Json>),
    Object(Seq<(Seq<char>, Json)>),
}

impl Value {
    pub open spec fn view(&self) -> Json
        decreases self,
    {
        match self {
            Value::Null => Json::Null,
            Value::Bool(b) => Json::Bool(*b),
            Value::Int(i) => Json::Int(*i),
            Value::UInt(u) => Json::UInt(*u),
            Value::Float(d) => Json::Float(d@),
            Value::Str(s) => Json::Str(s@),
            Value::Array(a) => Json::Array(values_view(a@)),
            Value::Object(o) => Json::Object(entries_view(o@)),
        }
    }
}

/// Models of a sequence of values, element by element.
pub open spec fn values_view(s: Seq<Value>) -> Seq<Json>
    decreases s,
{
    if s.len() == 0 {
        Seq::empty()
    } else {
        values_view(s.drop_last()).push(s.last()@)
    }
}

/// Models of a sequence of object entries, entry by entry.
pub open spec fn entries_view(s: Seq<(String, Value)>) -> Seq<(Seq<char>, Json)>
    decreases s,
{
    if s.len() == 0 {
        Seq::empty()
    } else {
        entries_view(s.drop_last()).push((s.last().0@, s.last().1@))
    }
}

/// The model of a sequence of values has one entry per value.
pub proof fn lemma_values_view(s: Seq<Value>)
    ensures
        values_view(s).len() == s.len(),
        forall|i: int| 0 <= i < s.len() ==> #[trigger] values_view(s)[i] == s[i]@,
    decreases s.len(),
{
    if s.len() > 0 {
        lemma_values_view(s.drop_last());
    }
}

/// The model of a sequence of entries has one entry per entry.
pub proof fn lemma_entries_view(s: Seq<(String, Value)>)
    ensures
        entries_view(s).len() == s.len(),
        forall|i: int|
            0 <= i < s.len() ==> #[trigger] entries_view(s)[i] == (s[i].0@, s[i].1@),
    decreases s.len(),
{
    if s.len() > 0 {
        lemma_entries_view(s.drop_last());
    }
}

/// A deep copy of a value.
pub fn copy_value(v: &Value) -> (r: Value)
    ensures
        r@ == v@,
    decreases v,
{
    match v {
        Value::Null => Value::Null,
        Value::Bool(b) => Value::Bool(*b),
        Value::Int(i) => Value::Int(*i),
        Value::UInt(u) => Value::UInt(*u),
        Value::Float(d) => Value::Float(d.copy()),
        Value::Str(s) => Value::Str(s.clone()),
        Value::Array(a) => {
            let mut out: Vec<Value> = Vec::new();
            let mut i: usize = 0;
            while i < a.len()
                invariant
                    i <= a.len(),
                    *v == Value::Array(*a),
                    values_view(out@) == values_view(a@.subrange(0, i as int)),
                decreases a.len() - i,
            {
                proof {
                    assert(decreases_to!(*v => (*v)->Array_0));
                    assert(decreases_to!(*a => a[i as int]));
                }
                let c = copy_value(&a[i]);
                proof {
                    assert(out@.push(c).drop_last() =~= out@);
                    assert(a@.subrange(0, i + 1).drop_last() =~= a@.subrange(0, i as int));
                }
                out.push(c);
                i = i + 1;
            }
            assert(a@.subrange(0, a.len() as int) =~= a@);
            Value::Array(out)
        },
        Value::Object(o) => {
            proof {
                assert(decreases_to!(*v => (*v)->Object_0));
            }
            Value::Object(copy_entries(o))
        },
    }
}

/// A deep copy of a list of object entries.
pub fn copy_entries(o: &Vec<(String, Value)>) -> (r: Vec<(String, Value)>)
    ensures
        entries_view(r@) == entries_view(o@),
    decreases o,
{
    let mut out: Vec<(String, Value)> = Vec::new();
    let mut i: usize = 0;
    while i < o.len()
        invariant
            i <= o.len(),
            entries_view(out@) == entries_view(o@.subrange(0, i as int)),
        decreases o.len() - i,
    {
        proof {
            assert(decreases_to!(*o => o[i as int]));
            assert(decreases_to!(o[i as int] => o[i as int].1));
        }
        let c = (o[i].0.clone(), copy_value(&o[i].1));
        proof {
            assert(out@.push(c).drop_last() =~= out@);
            assert(o@.subrange(0, i + 1).drop_last() =~= o@.subrange(0, i as int));
        }
        out.push(c);
        i = i + 1;
    }
    assert(o@.subrange(0, o.len() as int) =~= o@);
    out
}

} // verus!

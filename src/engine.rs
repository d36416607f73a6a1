//! The evaluator: runs a filter program over a JSON value and yields the
//! stream of results.
use crate::decimal::dec_cmp;
use crate::filter::{
    filters_view, lemma_filters_view, lemma_pairs_view, pairs_view, CompareOp, Filter, Lit,
    Literal, RustyFilter,
};
use crate::value::{
    copy_entries, copy_value, entries_view, lemma_entries_view, lemma_values_view, values_view,
    Json, Value,
};
use vstd::prelude::*;
use vstd::utf8::encode_utf8;

verus! {

/// Whether `x op y` holds.
pub open spec fn op_holds(x: int, y: int, op: CompareOp) -> bool {
    match op {
        CompareOp::Eq => x == y,
        CompareOp::Neq => x != y,
        CompareOp::Gt => x > y,
        CompareOp::Lt => x < y,
        CompareOp::Gte => x >= y,
        CompareOp::Lte => x <= y,
    }
}

/// Lexicographic order of two byte strings: -1, 0 or 1.
pub open spec fn bytes_cmp(a: Seq<u8>, b: Seq<u8>) -> int
    decreases a.len(),
{
    if a.len() == 0 {
        if b.len() == 0 {
            0
        } else {
            -1
        }
    } else if b.len() == 0 {
        1
    } else if a[0] < b[0] {
        -1
    } else if a[0] > b[0] {
        1
    } else {
        bytes_cmp(a.drop_first(), b.drop_first())
    }
}

/// `false` orders before `true`.
pub open spec fn bool_rank(b: bool) -> int {
    if b {
        1
    } else {
        0
    }
}

/// Whether a selected value satisfies `op lit`.  Integers compare by their
/// mathematical values (an unsigned input is never reinterpreted as
/// signed), decimals by their exact values, strings by their UTF-8 bytes,
/// and `null` only equals `null`.  Any other pairing is false.
pub open spec fn condition_holds(v: Json, op: CompareOp, lit: Lit) -> bool {
    match v {
        Json::Int(a) => match lit {
            Lit::Int(b) => op_holds(a as int, b as int, op),
            _ => false,
        },
        Json::UInt(a) => match lit {
            Lit::Int(b) => op_holds(a as int, b as int, op),
            _ => false,
        },
        Json::Float(a) => match lit {
            Lit::Float(b) => op_holds(dec_cmp(a, b), 0, op),
            _ => false,
        },
        Json::Str(a) => match lit {
            Lit::Str(b) => op_holds(bytes_cmp(encode_utf8(a), encode_utf8(b)), 0, op),
            _ => false,
        },
        Json::Bool(a) => match lit {
            Lit::Bool(b) => op_holds(bool_rank(a), bool_rank(b), op),
            _ => false,
        },
        Json::Null => lit is Null && op == CompareOp::Eq,
        _ => false,
    }
}

/// The first index at or after `i` whose entry has key `k`, or -1.
pub open spec fn key_index_from(es: Seq<(Seq<char>, Json)>, k: Seq<char>, i: int) -> int
    decreases es.len() - i,
{
    if i < 0 || i >= es.len() {
        -1
    } else if es[i].0 == k {
        i
    } else {
        key_index_from(es, k, i + 1)
    }
}

/// The index of the first entry with key `k`, or -1.
pub open spec fn key_index(es: Seq<(Seq<char>, Json)>, k: Seq<char>) -> int {
    key_index_from(es, k, 0)
}

/// The entries with `k` bound to `v`: an existing entry for `k` keeps its
/// place and takes the new value, otherwise the entry goes last.
pub open spec fn insert_entry(es: Seq<(Seq<char>, Json)>, k: Seq<char>, v: Json) -> Seq<
    (Seq<char>, Json),
> {
    let i = key_index(es, k);
    if i >= 0 {
        es.update(i, (k, v))
    } else {
        es.push((k, v))
    }
}

/// An array position as `Index` reads it: negative positions count from the end.
pub open spec fn resolve_index(n: int, i: i32) -> int {
    if i < 0 {
        n + i
    } else {
        i as int
    }
}

/// Each partial object extended by `k` bound to each result, partial
/// objects outermost.
pub open spec fn extend_all(partials: Seq<Seq<(Seq<char>, Json)>>, k: Seq<char>, rs: Seq<Json>) -> Seq<
    Seq<(Seq<char>, Json)>,
>
    decreases partials.len(),
{
    if partials.len() == 0 {
        Seq::empty()
    } else {
        extend_all(partials.drop_last(), k, rs) + rs.map_values(
            |r: Json| insert_entry(partials.last(), k, r),
        )
    }
}

/// The results of one filter on one value.
pub open spec fn apply(f: Filter, v: Json) -> Seq<Json>
    decreases f, 0nat,
{
    match f {
        Filter::Identity => seq![v],
        Filter::Field(k) => match v {
            Json::Object(es) => {
                let i = key_index(es, k);
                if i >= 0 {
                    seq![es[i].1]
                } else {
                    Seq::empty()
                }
            },
            _ => Seq::empty(),
        },
        Filter::Index(i) => match v {
            Json::Array(a) => {
                let j = resolve_index(a.len() as int, i);
                if 0 <= j < a.len() {
                    seq![a[j]]
                } else {
                    Seq::empty()
                }
            },
            _ => Seq::empty(),
        },
        Filter::Iterator => match v {
            Json::Array(a) => a,
            _ => Seq::empty(),
        },
        Filter::Object(pairs) => product(v, pairs).map_values(|es| Json::Object(es)),
        Filter::Select(path, op, lit) => {
            let rs = run(seq![v], path);
            if rs.len() > 0 && condition_holds(rs[0], op, lit) {
                seq![v]
            } else {
                Seq::empty()
            }
        },
    }
}

/// The entry lists of the objects that `pairs` builds from `v`: the
/// cartesian product of the pairs' results, the first pair outermost.
pub open spec fn product(v: Json, pairs: Seq<(Seq<char>, Seq<Filter>)>) -> Seq<
    Seq<(Seq<char>, Json)>,
>
    decreases pairs, 0nat,
{
    if pairs.len() == 0 {
        seq![Seq::empty()]
    } else {
        let last = pairs[pairs.len() - 1];
        extend_all(product(v, pairs.drop_last()), last.0, run(seq![v], last.1))
    }
}

/// One filter applied to every value of a working set, results in order.
pub open spec fn apply_all(f: Filter, ws: Seq<Json>) -> Seq<Json>
    decreases f, ws.len(),
{
    if ws.len() == 0 {
        Seq::empty()
    } else {
        apply_all(f, ws.drop_last()) + apply(f, ws.last())
    }
}

/// A program run over a working set: each filter in turn replaces the set
/// by the results of the filter on each of its values.
pub open spec fn run(ws: Seq<Json>, p: Seq<Filter>) -> Seq<Json>
    decreases p, 0nat,
{
    if p.len() == 0 {
        ws
    } else {
        run(apply_all(p[0], ws), p.drop_first())
    }
}

/// The results of a program on one input value.
pub open spec fn evaluate(v: Json, p: Seq<Filter>) -> Seq<Json> {
    run(seq![v], p)
}

/// A value in the working set: a borrow into the input, or a value that
/// evaluation built.
pub enum Handle<'a> {
    Borrowed(&'a Value),
    Owned(Value),
}

impl<'a> Handle<'a> {
    pub open spec fn view(&self) -> Json {
        match self {
            Handle::Borrowed(v) => v@,
            Handle::Owned(v) => v@,
        }
    }

    /// The value behind the handle.
    pub fn value(&self) -> (r: &Value)
        ensures
            r@ == self@,
    {
        match self {
            Handle::Borrowed(v) => v,
            Handle::Owned(v) => v,
        }
    }

    /// The value behind the handle, copied out of the input when borrowed.
    pub fn into_owned(self) -> (r: Value)
        ensures
            r@ == self@,
    {
        match self {
            Handle::Borrowed(v) => copy_value(v),
            Handle::Owned(v) => v,
        }
    }
}

/// The models of a sequence of handles.
pub open spec fn handles_view<'a>(s: Seq<Handle<'a>>) -> Seq<Json> {
    s.map_values(|h: Handle<'a>| h@)
}

proof fn lemma_key_index_range(es: Seq<(Seq<char>, Json)>, k: Seq<char>, i: int)
    requires
        0 <= i,
    ensures
        key_index_from(es, k, i) == -1 || (i <= key_index_from(es, k, i) < es.len()
            && es[key_index_from(es, k, i)].0 == k),
    decreases es.len() - i,
{
    if i < es.len() && es[i].0 != k {
        lemma_key_index_range(es, k, i + 1);
    }
}

/// The position of the first entry with key `key`.
fn find_key(es: &Vec<(String, Value)>, key: &String) -> (r: Option<usize>)
    ensures
        match r {
            Some(i) => i as int == key_index(entries_view(es@), key@) && i < es.len(),
            None => key_index(entries_view(es@), key@) == -1,
        },
{
    let ghost ev = entries_view(es@);
    proof {
        lemma_entries_view(es@);
    }
    let mut i: usize = 0;
    while i < es.len()
        invariant
            i <= es.len(),
            ev == entries_view(es@),
            ev.len() == es.len(),
            forall|j: int| 0 <= j < es.len() ==> #[trigger] ev[j] == (es@[j].0@, es@[j].1@),
            key_index_from(ev, key@, i as int) == key_index(ev, key@),
        decreases es.len() - i,
    {
        if es[i].0 == *key {
            return Some(i);
        }
        i = i + 1;
    }
    None
}

/// Sign of `a - b` for byte strings in lexicographic order.
fn bytes_compare(a: &[u8], b: &[u8]) -> (r: i8)
    ensures
        r as int == bytes_cmp(a@, b@),
{
    let mut i: usize = 0;
    assert(a@.skip(0) =~= a@);
    assert(b@.skip(0) =~= b@);
    while i < a.len() && i < b.len()
        invariant
            i <= a.len(),
            i <= b.len(),
            bytes_cmp(a@.skip(i as int), b@.skip(i as int)) == bytes_cmp(a@, b@),
        decreases a.len() - i,
    {
        proof {
            assert(a@.skip(i as int).drop_first() =~= a@.skip(i + 1));
            assert(b@.skip(i as int).drop_first() =~= b@.skip(i + 1));
        }
        if a[i] < b[i] {
            return -1;
        }
        if a[i] > b[i] {
            return 1;
        }
        i = i + 1;
    }
    if i == a.len() {
        if i == b.len() {
            0
        } else {
            -1
        }
    } else {
        1
    }
}

/// Whether `c op 0` holds, for a sign `c`.
fn sign_holds(c: i8, op: &CompareOp) -> (r: bool)
    ensures
        r == op_holds(c as int, 0, *op),
{
    match op {
        CompareOp::Eq => c == 0,
        CompareOp::Neq => c != 0,
        CompareOp::Gt => c > 0,
        CompareOp::Lt => c < 0,
        CompareOp::Gte => c >= 0,
        CompareOp::Lte => c <= 0,
    }
}

/// Sign of `a - b`.
fn int_sign(a: i64, b: i64) -> (r: i8)
    ensures
        op_holds(a as int, b as int, CompareOp::Lt) <==> r < 0,
        a == b <==> r == 0,
        a > b <==> r > 0,
{
    if a < b {
        -1
    } else if a == b {
        0
    } else {
        1
    }
}

/// Whether the selected value `val` satisfies `op lit`.
pub fn evaluate_condition(val: &Value, op: &CompareOp, lit: &Literal) -> (r: bool)
    ensures
        r == condition_holds(val@, *op, lit@),
{
    match val {
        Value::Int(a) => match lit {
            Literal::Int(b) => sign_holds(int_sign(*a, *b), op),
            _ => false,
        },
        Value::UInt(a) => match lit {
            Literal::Int(b) => {
                let c: i8 = if *b < 0 {
                    1
                } else {
                    let bu = *b as u64;
                    if *a < bu {
                        -1
                    } else if *a == bu {
                        0
                    } else {
                        1
                    }
                };
                sign_holds(c, op)
            },
            _ => false,
        },
        Value::Float(a) => match lit {
            Literal::Float(b) => sign_holds(a.compare(b), op),
            _ => false,
        },
        Value::Str(a) => match lit {
            Literal::String(b) => sign_holds(bytes_compare(a.as_str().as_bytes(), b.as_str().as_bytes()), op),
            _ => false,
        },
        Value::Bool(a) => match lit {
            Literal::Bool(b) => {
                let c: i8 = if *a == *b {
                    0
                } else if *b {
                    -1
                } else {
                    1
                };
                sign_holds(c, op)
            },
            _ => false,
        },
        Value::Null => match lit {
            Literal::Null => match op {
                CompareOp::Eq => true,
                _ => false,
            },
            _ => false,
        },
        _ => false,
    }
}

/// The models of a sequence of entry lists.
pub open spec fn objects_view(s: Seq<Vec<(String, Value)>>) -> Seq<Seq<(Seq<char>, Json)>> {
    s.map_values(|o: Vec<(String, Value)>| entries_view(o@))
}

/// Binds `key` to `v` in `obj`, in place when the key is there.
fn insert_entry_into(obj: &mut Vec<(String, Value)>, key: String, v: Value)
    ensures
        entries_view(final(obj)@) == insert_entry(entries_view(old(obj)@), key@, v@),
{
    proof {
        lemma_entries_view(obj@);
    }
    match find_key(obj, &key) {
        Some(i) => {
            let ghost before = obj@;
            obj.set(i, (key, v));
            proof {
                lemma_entries_view(obj@);
                assert(entries_view(obj@) =~= entries_view(before).update(i as int, (key@, v@)));
            }
        },
        None => {
            let ghost before = obj@;
            obj.push((key, v));
            proof {
                assert(obj@.drop_last() =~= before);
            }
        },
    }
}

/// The objects that `pairs` builds from `value`, as entry lists.
fn construct_objects(value: &Value, pairs: &Vec<(String, Vec<RustyFilter>)>) -> (r: Vec<
    Vec<(String, Value)>,
>)
    ensures
        objects_view(r@) == product(value@, pairs_view(pairs@)),
    decreases pairs,
{
    let ghost pv = pairs_view(pairs@);
    proof {
        lemma_pairs_view(pairs@);
    }
    let mut partials: Vec<Vec<(String, Value)>> = Vec::new();
    partials.push(Vec::new());
    proof {
        assert(pv.take(0) =~= Seq::<(Seq<char>, Seq<Filter>)>::empty());
        assert(objects_view(partials@) =~= seq![Seq::<(Seq<char>, Json)>::empty()]);
    }
    let mut i: usize = 0;
    while i < pairs.len()
        invariant
            i <= pairs.len(),
            pv == pairs_view(pairs@),
            pv.len() == pairs.len(),
            forall|j: int|
                0 <= j < pairs.len() ==> #[trigger] pv[j] == (pairs@[j].0@, filters_view(
                    pairs@[j].1@,
                )),
            objects_view(partials@) == product(value@, pv.take(i as int)),
        decreases pairs.len() - i,
    {
        proof {
            assert(decreases_to!(*pairs => pairs[i as int]));
            assert(decreases_to!(pairs[i as int] => pairs[i as int].1));
            assert(decreases_to!(pairs[i as int].1 => pairs[i as int].1@));
        }
        let results = process_rust_value(Handle::Borrowed(value), pairs[i].1.as_slice());
        let ghost rs = handles_view(results@);
        let ghost ps = objects_view(partials@);
        let ghost key = pairs@[i as int].0@;
        let mut next: Vec<Vec<(String, Value)>> = Vec::new();
        let mut a: usize = 0;
        proof {
            assert(ps.take(0) =~= Seq::<Seq<(Seq<char>, Json)>>::empty());
            assert(objects_view(next@) =~= Seq::<Seq<(Seq<char>, Json)>>::empty());
        }
        while a < partials.len()
            invariant
                a <= partials.len(),
                ps == objects_view(partials@),
                rs == handles_view(results@),
                key == pairs@[i as int].0@,
                i < pairs.len(),
                objects_view(next@) == extend_all(ps.take(a as int), key, rs),
            decreases partials.len() - a,
        {
            let ghost before = objects_view(next@);
            let mut b: usize = 0;
            proof {
                assert(objects_view(next@) =~= before + rs.take(0).map_values(
                    |r: Json| insert_entry(ps[a as int], key, r),
                ));
            }
            while b < results.len()
                invariant
                    a < partials.len(),
                    b <= results.len(),
                    ps == objects_view(partials@),
                    rs == handles_view(results@),
                    key == pairs@[i as int].0@,
                    i < pairs.len(),
                    objects_view(next@) == before + rs.take(b as int).map_values(
                        |r: Json| insert_entry(ps[a as int], key, r),
                    ),
                decreases results.len() - b,
            {
                let mut obj = copy_entries(&partials[a]);
                let item = copy_value(results[b].value());
                insert_entry_into(&mut obj, pairs[i].0.clone(), item);
                let ghost prev = next@;
                next.push(obj);
                proof {
                    assert(objects_view(next@) =~= objects_view(prev).push(entries_view(obj@)));
                    assert(rs.take(b + 1) =~= rs.take(b as int).push(rs[b as int]));
                    assert(rs.take(b + 1).map_values(|r: Json| insert_entry(ps[a as int], key, r))
                        =~= rs.take(b as int).map_values(
                        |r: Json| insert_entry(ps[a as int], key, r),
                    ).push(insert_entry(ps[a as int], key, rs[b as int])));
                }
                b = b + 1;
            }
            proof {
                assert(rs.take(results.len() as int) =~= rs);
                assert(ps.take(a + 1).drop_last() =~= ps.take(a as int));
            }
            a = a + 1;
        }
        proof {
            assert(ps.take(partials.len() as int) =~= ps);
            assert(pv.take(i + 1).drop_last() =~= pv.take(i as int));
        }
        partials = next;
        i = i + 1;
    }
    proof {
        assert(pv.take(pairs.len() as int) =~= pv);
    }
    partials
}

/// Appends the results of filter `f` on `value` to `out`.
fn apply_filter<'a>(f: &RustyFilter, value: Handle<'a>, out: &mut Vec<Handle<'a>>)
    ensures
        handles_view(final(out)@) == handles_view(old(out)@) + apply(f@, value@),
        old(out)@.len() <= final(out)@.len(),
        forall|k: int| 0 <= k < old(out)@.len() ==> #[trigger] final(out)@[k] == old(out)@[k],
        value is Borrowed && !(f@ is Object) ==> forall|k: int|
            old(out)@.len() <= k < final(out)@.len() ==> #[trigger] final(out)@[k] is Borrowed,
    decreases f,
{
    let ghost before = out@;
    let ghost start = handles_view(out@);
    match f {
        RustyFilter::Identity => {
            out.push(value);
            proof {
                assert(handles_view(out@) =~= start + seq![value@]);
            }
        },
        RustyFilter::Field(key) => {
            let ghost v = value@;
            match value {
                Handle::Borrowed(b) => match b {
                    Value::Object(es) => {
                        proof {
                            lemma_entries_view(es@);
                        }
                        match find_key(es, key) {
                            Some(i) => {
                                out.push(Handle::Borrowed(&es[i].1));
                                proof {
                                    assert(handles_view(out@) =~= start + seq![es@[i as int].1@]);
                                }
                            },
                            None => {
                                assert(handles_view(out@) =~= start + Seq::<Json>::empty());
                            },
                        }
                    },
                    _ => {
                        assert(handles_view(out@) =~= start + Seq::<Json>::empty());
                    },
                },
                Handle::Owned(o) => match o {
                    Value::Object(mut es) => {
                        proof {
                            lemma_entries_view(es@);
                        }
                        match find_key(&es, key) {
                            Some(i) => {
                                let e = es.swap_remove(i);
                                out.push(Handle::Owned(e.1));
                                proof {
                                    assert(handles_view(out@) =~= start + seq![e.1@]);
                                }
                            },
                            None => {
                                assert(handles_view(out@) =~= start + Seq::<Json>::empty());
                            },
                        }
                    },
                    _ => {
                        assert(handles_view(out@) =~= start + Seq::<Json>::empty());
                    },
                },
            }
        },
        RustyFilter::Index(idx) => {
            match value {
                Handle::Borrowed(b) => match b {
                    Value::Array(arr) => {
                        proof {
                            lemma_values_view(arr@);
                        }
                        match resolve_position(arr.len(), *idx) {
                            Some(j) => {
                                out.push(Handle::Borrowed(&arr[j]));
                                proof {
                                    assert(handles_view(out@) =~= start + seq![arr@[j as int]@]);
                                }
                            },
                            None => {
                                assert(handles_view(out@) =~= start + Seq::<Json>::empty());
                            },
                        }
                    },
                    _ => {
                        assert(handles_view(out@) =~= start + Seq::<Json>::empty());
                    },
                },
                Handle::Owned(o) => match o {
                    Value::Array(mut arr) => {
                        proof {
                            lemma_values_view(arr@);
                        }
                        match resolve_position(arr.len(), *idx) {
                            Some(j) => {
                                let e = arr.swap_remove(j);
                                out.push(Handle::Owned(e));
                                proof {
                                    assert(handles_view(out@) =~= start + seq![e@]);
                                }
                            },
                            None => {
                                assert(handles_view(out@) =~= start + Seq::<Json>::empty());
                            },
                        }
                    },
                    _ => {
                        assert(handles_view(out@) =~= start + Seq::<Json>::empty());
                    },
                },
            }
        },
        RustyFilter::Iterator => {
            match value {
                Handle::Borrowed(b) => match b {
                    Value::Array(arr) => {
                        let ghost av = values_view(arr@);
                        proof {
                            lemma_values_view(arr@);
                            assert(handles_view(out@) =~= start + av.take(0));
                        }
                        let mut i: usize = 0;
                        while i < arr.len()
                            invariant
                                i <= arr.len(),
                                av == values_view(arr@),
                                av.len() == arr.len(),
                                forall|j: int| 0 <= j < arr.len() ==> #[trigger] av[j] == arr@[j]@,
                                handles_view(out@) == start + av.take(i as int),
                                before.len() <= out@.len(),
                                forall|k: int| 0 <= k < before.len() ==> #[trigger] out@[k] == before[k],
                                forall|k: int| before.len() <= k < out@.len() ==> #[trigger] out@[k] is Borrowed,
                            decreases arr.len() - i,
                        {
                            let ghost prev = out@;
                            out.push(Handle::Borrowed(&arr[i]));
                            proof {
                                assert(handles_view(out@) =~= handles_view(prev).push(av[i as int]));
                                assert(av.take(i + 1) =~= av.take(i as int).push(av[i as int]));
                            }
                            i = i + 1;
                        }
                        proof {
                            assert(av.take(arr.len() as int) =~= av);
                        }
                    },
                    _ => {
                        assert(handles_view(out@) =~= start + Seq::<Json>::empty());
                    },
                },
                Handle::Owned(o) => match o {
                    Value::Array(mut arr) => {
                        let ghost orig = arr@;
                        let ghost av = values_view(arr@);
                        proof {
                            lemma_values_view(arr@);
                            assert(handles_view(out@) =~= start + av.take(0));
                        }
                        let mut i: usize = 0;
                        while i < arr.len()
                            invariant
                                i <= arr.len(),
                                arr.len() == orig.len(),
                                av.len() == orig.len(),
                                forall|j: int| 0 <= j < orig.len() ==> #[trigger] av[j] == orig[j]@,
                                forall|j: int| i <= j < orig.len() ==> #[trigger] arr@[j] == orig[j],
                                handles_view(out@) == start + av.take(i as int),
                                before.len() <= out@.len(),
                                forall|k: int| 0 <= k < before.len() ==> #[trigger] out@[k] == before[k],
                            decreases arr.len() - i,
                        {
                            let mut item = Value::Null;
                            arr.set_and_swap(i, &mut item);
                            let ghost prev = out@;
                            out.push(Handle::Owned(item));
                            proof {
                                assert(handles_view(out@) =~= handles_view(prev).push(av[i as int]));
                                assert(av.take(i + 1) =~= av.take(i as int).push(av[i as int]));
                            }
                            i = i + 1;
                        }
                        proof {
                            assert(av.take(orig.len() as int) =~= av);
                        }
                    },
                    _ => {
                        assert(handles_view(out@) =~= start + Seq::<Json>::empty());
                    },
                },
            }
        },
        RustyFilter::Object(pairs) => {
            proof {
                assert(decreases_to!(*f => (*f)->Object_0));
            }
            let mut objs = construct_objects(value.value(), pairs);
            let ghost orig = objs@;
            let ghost ov = objects_view(objs@);
            let ghost made = ov.map_values(|es| Json::Object(es));
            proof {
                assert(handles_view(out@) =~= start + made.take(0));
            }
            let mut i: usize = 0;
            while i < objs.len()
                invariant
                    i <= objs.len(),
                    objs.len() == orig.len(),
                    ov == objects_view(orig),
                    made == ov.map_values(|es| Json::Object(es)),
                    forall|j: int| i <= j < orig.len() ==> #[trigger] objs@[j] == orig[j],
                    handles_view(out@) == start + made.take(i as int),
                    before.len() <= out@.len(),
                    forall|k: int| 0 <= k < before.len() ==> #[trigger] out@[k] == before[k],
                decreases objs.len() - i,
            {
                let mut es: Vec<(String, Value)> = Vec::new();
                objs.set_and_swap(i, &mut es);
                let ghost prev = out@;
                out.push(Handle::Owned(Value::Object(es)));
                proof {
                    assert(handles_view(out@) =~= handles_view(prev).push(made[i as int]));
                    assert(made.take(i + 1) =~= made.take(i as int).push(made[i as int]));
                }
                i = i + 1;
            }
            proof {
                assert(made.take(orig.len() as int) =~= made);
            }
        },
        RustyFilter::Select(path, op, lit) => {
            proof {
                assert(decreases_to!(*f => (*f)->Select_0));
                assert(decreases_to!((*f)->Select_0 => (*f)->Select_0@));
            }
            let passes = {
                let results = process_rust_value(Handle::Borrowed(value.value()), path.as_slice());
                results.len() > 0 && evaluate_condition(results[0].value(), op, lit)
            };
            if passes {
                out.push(value);
                proof {
                    assert(handles_view(out@) =~= start + seq![value@]);
                }
            } else {
                assert(handles_view(out@) =~= start + Seq::<Json>::empty());
            }
        },
    }
}

/// The array position that `Index(idx)` reads in an array of length `n`.
fn resolve_position(n: usize, idx: i32) -> (r: Option<usize>)
    ensures
        match r {
            Some(j) => j as int == resolve_index(n as int, idx) && j < n,
            None => !(0 <= resolve_index(n as int, idx) < n),
        },
{
    if idx < 0 {
        let m = (-(idx as i64)) as usize;
        if m <= n {
            Some(n - m)
        } else {
            None
        }
    } else {
        let j = idx as usize;
        if j < n {
            Some(j)
        } else {
            None
        }
    }
}

/// No filter of `p` constructs objects.
pub open spec fn constructs_nothing(p: Seq<Filter>) -> bool {
    forall|k: int| 0 <= k < p.len() ==> !(#[trigger] p[k] is Object)
}

/// Runs `filters` over `root`, one filter after the other, and returns every
/// result in order.  Selection steps on a borrowed value hand out borrows
/// into it; only object construction makes new values, so a program that
/// constructs no object, run over a borrowed input, returns borrows only.
pub fn process_rust_value<'a>(root: Handle<'a>, filters: &[RustyFilter]) -> (r: Vec<Handle<'a>>)
    ensures
        handles_view(r@) == evaluate(root@, filters_view(filters@)),
        root is Borrowed && constructs_nothing(filters_view(filters@)) ==> forall|k: int|
            0 <= k < r@.len() ==> #[trigger] r@[k] is Borrowed,
    decreases filters@,
{
    let ghost borrowing = root is Borrowed && constructs_nothing(filters_view(filters@));
    let ghost whole = filters_view(filters@);
    proof {
        lemma_filters_view(filters@);
    }
    let ghost root_view = root@;
    let mut current: Vec<Handle<'a>> = Vec::new();
    current.push(root);
    proof {
        assert(handles_view(current@) =~= seq![root_view]);
        assert(whole.skip(0) =~= whole);
    }
    let mut fi: usize = 0;
    while fi < filters.len()
        invariant
            fi <= filters.len(),
            whole == filters_view(filters@),
            whole.len() == filters.len(),
            forall|j: int| 0 <= j < filters.len() ==> #[trigger] whole[j] == filters@[j]@,
            run(handles_view(current@), whole.skip(fi as int)) == run(seq![root_view], whole),
            borrowing == (root is Borrowed && constructs_nothing(whole)),
            borrowing ==> forall|k: int| 0 <= k < current@.len() ==> #[trigger] current@[k] is Borrowed,
        decreases filters.len() - fi,
    {
        let ghost cur = handles_view(current@);
        let ghost orig = current@;
        let mut next: Vec<Handle<'a>> = Vec::new();
        let mut i: usize = 0;
        proof {
            assert(handles_view(next@) =~= apply_all(whole[fi as int], cur.take(0)));
        }
        while i < current.len()
            invariant
                i <= current.len(),
                fi < filters.len(),
                current.len() == orig.len(),
                cur == handles_view(orig),
                forall|j: int| i <= j < orig.len() ==> #[trigger] current@[j] == orig[j],
                whole.len() == filters.len(),
                whole[fi as int] == filters@[fi as int]@,
                handles_view(next@) == apply_all(whole[fi as int], cur.take(i as int)),
                borrowing == (root is Borrowed && constructs_nothing(whole)),
                borrowing ==> forall|k: int| 0 <= k < orig.len() ==> #[trigger] orig[k] is Borrowed,
                borrowing ==> forall|k: int| 0 <= k < next@.len() ==> #[trigger] next@[k] is Borrowed,
            decreases current.len() - i,
        {
            let mut h = Handle::Owned(Value::Null);
            current.set_and_swap(i, &mut h);
            proof {
                assert(decreases_to!(filters@ => filters@[fi as int]));
            }
            proof {
                if borrowing {
                    assert(!(whole[fi as int] is Object));
                }
            }
            apply_filter(&filters[fi], h, &mut next);
            proof {
                assert(cur.take(i + 1).drop_last() =~= cur.take(i as int));
            }
            i = i + 1;
        }
        proof {
            assert(cur.take(orig.len() as int) =~= cur);
            assert(whole.skip(fi as int).drop_first() =~= whole.skip(fi + 1));
        }
        current = next;
        fi = fi + 1;
    }
    proof {
        assert(whole.skip(filters.len() as int) =~= Seq::<Filter>::empty());
    }
    current
}

/// The results of a program on each value of `xs`, concatenated in order.
pub open spec fn evaluate_each(xs: Seq<Json>, p: Seq<Filter>) -> Seq<Json>
    decreases xs.len(),
{
    if xs.len() == 0 {
        Seq::empty()
    } else {
        evaluate_each(xs.drop_last(), p) + evaluate(xs.last(), p)
    }
}

/// Whether `f` is a selection filter (`.k`, `.[i]` or `.[]`) whose shape
/// does not fit `v`: a missing key, a position outside the array, or a value
/// of the wrong kind.
pub open spec fn shape_mismatch(f: Filter, v: Json) -> bool {
    match f {
        Filter::Field(k) => match v {
            Json::Object(es) => key_index(es, k) < 0,
            _ => true,
        },
        Filter::Index(i) => match v {
            Json::Array(a) => !(0 <= resolve_index(a.len() as int, i) < a.len()),
            _ => true,
        },
        Filter::Iterator => !(v is Array),
        _ => false,
    }
}

proof fn lemma_apply_all_concat(f: Filter, a: Seq<Json>, b: Seq<Json>)
    ensures
        apply_all(f, a + b) == apply_all(f, a) + apply_all(f, b),
    decreases b.len(),
{
    if b.len() == 0 {
        assert(a + b =~= a);
        assert(apply_all(f, a) + apply_all(f, b) =~= apply_all(f, a));
    } else {
        assert((a + b).drop_last() =~= a + b.drop_last());
        lemma_apply_all_concat(f, a, b.drop_last());
        assert(apply_all(f, a) + apply_all(f, b) =~= apply_all(f, a) + apply_all(f, b.drop_last())
            + apply(f, b.last()));
    }
}

/// Running a program over two working sets one after the other gives the
/// results of running it over their concatenation.
pub proof fn lemma_run_concat(a: Seq<Json>, b: Seq<Json>, p: Seq<Filter>)
    ensures
        run(a + b, p) == run(a, p) + run(b, p),
    decreases p.len(),
{
    if p.len() > 0 {
        lemma_apply_all_concat(p[0], a, b);
        lemma_run_concat(apply_all(p[0], a), apply_all(p[0], b), p.drop_first());
    }
}

/// Running a program over a working set gives the results of evaluating it
/// on each value, concatenated.
pub proof fn lemma_run_each(xs: Seq<Json>, p: Seq<Filter>)
    ensures
        run(xs, p) == evaluate_each(xs, p),
    decreases xs.len(),
{
    if xs.len() == 0 {
        assert(run(xs, p) =~= Seq::<Json>::empty()) by {
            lemma_run_empty(p);
            assert(xs =~= Seq::<Json>::empty());
        }
    } else {
        lemma_run_each(xs.drop_last(), p);
        assert(xs =~= xs.drop_last() + seq![xs.last()]);
        lemma_run_concat(xs.drop_last(), seq![xs.last()], p);
    }
}

/// An empty working set stays empty.
pub proof fn lemma_run_empty(p: Seq<Filter>)
    ensures
        run(Seq::empty(), p) == Seq::<Json>::empty(),
    decreases p.len(),
{
    if p.len() > 0 {
        assert(apply_all(p[0], Seq::empty()) =~= Seq::<Json>::empty());
        lemma_run_empty(p.drop_first());
    }
}

proof fn lemma_apply_one(f: Filter, v: Json)
    ensures
        apply_all(f, seq![v]) == apply(f, v),
{
    assert(seq![v].drop_last() =~= Seq::<Json>::empty());
    assert(seq![v].last() == v);
    assert(apply_all(f, Seq::<Json>::empty()) == Seq::<Json>::empty());
    assert(Seq::<Json>::empty() + apply(f, v) =~= apply(f, v));
}

proof fn lemma_single_filter(v: Json, f: Filter)
    ensures
        evaluate(v, seq![f]) == apply(f, v),
{
    lemma_apply_one(f, v);
    let p = seq![f];
    assert(p.drop_first() =~= Seq::<Filter>::empty());
    assert(p[0] == f);
    assert(run(apply_all(f, seq![v]), Seq::<Filter>::empty()) == apply_all(f, seq![v]));
}

/// Identity yields its input and nothing else.
pub proof fn law_identity(v: Json)
    ensures
        evaluate(v, seq![Filter::Identity]) == seq![v],
{
    lemma_single_filter(v, Filter::Identity);
}

/// A selection filter whose shape does not fit the value yields nothing.
pub proof fn law_silent_empty(v: Json, f: Filter)
    requires
        shape_mismatch(f, v),
    ensures
        evaluate(v, seq![f]) == Seq::<Json>::empty(),
{
    lemma_single_filter(v, f);
    assert(apply(f, v) =~= Seq::<Json>::empty());
}

/// On an array, `.[]` followed by a program gives the program's results on
/// each element, concatenated in order.
pub proof fn law_iterator_distributes(v: Json, p: Seq<Filter>)
    requires
        v is Array,
    ensures
        evaluate(v, seq![Filter::Iterator] + p) == evaluate_each(v->Array_0, p),
{
    let q = seq![Filter::Iterator] + p;
    assert(q[0] == Filter::Iterator);
    assert(q.drop_first() =~= p);
    lemma_apply_one(Filter::Iterator, v);
    lemma_run_each(v->Array_0, p);
}

/// `.[i]` and `.[i - n]` both read element `i` of an array of length `n`.
pub proof fn law_index(a: Seq<Json>, i: int)
    requires
        0 <= i < a.len(),
        i <= i32::MAX,
        i - a.len() >= i32::MIN,
    ensures
        evaluate(Json::Array(a), seq![Filter::Index(i as i32)]) == seq![a[i]],
        evaluate(Json::Array(a), seq![Filter::Index((i - a.len()) as i32)]) == seq![a[i]],
{
    lemma_single_filter(Json::Array(a), Filter::Index(i as i32));
    lemma_single_filter(Json::Array(a), Filter::Index((i - a.len()) as i32));
}

proof fn lemma_extend_none(partials: Seq<Seq<(Seq<char>, Json)>>, k: Seq<char>)
    ensures
        extend_all(partials, k, Seq::empty()) == Seq::<Seq<(Seq<char>, Json)>>::empty(),
    decreases partials.len(),
{
    if partials.len() > 0 {
        lemma_extend_none(partials.drop_last(), k);
        assert(Seq::<Json>::empty().map_values(|r: Json| insert_entry(partials.last(), k, r))
            =~= Seq::<Seq<(Seq<char>, Json)>>::empty());
    }
}

proof fn lemma_product_empty(v: Json, pairs: Seq<(Seq<char>, Seq<Filter>)>, k: int)
    requires
        0 <= k < pairs.len(),
        evaluate(v, pairs[k].1).len() == 0,
    ensures
        product(v, pairs) == Seq::<Seq<(Seq<char>, Json)>>::empty(),
    decreases pairs.len(),
{
    let last = pairs[pairs.len() - 1];
    if k == pairs.len() - 1 {
        assert(run(seq![v], last.1) =~= Seq::<Json>::empty());
        lemma_extend_none(product(v, pairs.drop_last()), last.0);
    } else {
        lemma_product_empty(v, pairs.drop_last(), k);
    }
}

/// When some pair of an object constructor yields nothing, the constructor
/// yields nothing.
pub proof fn law_empty_pair_annihilates(v: Json, pairs: Seq<(Seq<char>, Seq<Filter>)>, k: int)
    requires
        0 <= k < pairs.len(),
        evaluate(v, pairs[k].1).len() == 0,
    ensures
        evaluate(v, seq![Filter::Object(pairs)]) == Seq::<Json>::empty(),
{
    lemma_single_filter(v, Filter::Object(pairs));
    lemma_product_empty(v, pairs, k);
    assert(apply(Filter::Object(pairs), v) =~= Seq::<Json>::empty());
}

/// `{a: pa, b: pb}` where `pa` yields `a1, a2` and `pb` yields `b1` builds
/// `{a: a1, b: b1}` and then `{a: a2, b: b1}`.
pub proof fn law_object_cartesian(
    v: Json,
    a: Seq<char>,
    pa: Seq<Filter>,
    b: Seq<char>,
    pb: Seq<Filter>,
    a1: Json,
    a2: Json,
    b1: Json,
)
    requires
        a != b,
        evaluate(v, pa) == seq![a1, a2],
        evaluate(v, pb) == seq![b1],
    ensures
        evaluate(v, seq![Filter::Object(seq![(a, pa), (b, pb)])]) == seq![
            Json::Object(seq![(a, a1), (b, b1)]),
            Json::Object(seq![(a, a2), (b, b1)]),
        ],
{
    let pairs = seq![(a, pa), (b, pb)];
    lemma_single_filter(v, Filter::Object(pairs));
    let no_entries = Seq::<(Seq<char>, Json)>::empty();
    assert(pairs.drop_last().drop_last() =~= Seq::<(Seq<char>, Seq<Filter>)>::empty());
    assert(product(v, pairs.drop_last().drop_last()) == seq![no_entries]);
    assert(pairs.drop_last()[0] == (a, pa));
    // first pair
    let after_first = extend_all(seq![no_entries], a, seq![a1, a2]);
    assert(seq![no_entries].drop_last() =~= Seq::<Seq<(Seq<char>, Json)>>::empty());
    assert(seq![no_entries].last() == no_entries);
    assert(key_index(no_entries, a) == -1);
    assert(insert_entry(no_entries, a, a1) =~= seq![(a, a1)]);
    assert(insert_entry(no_entries, a, a2) =~= seq![(a, a2)]);
    assert(extend_all(Seq::<Seq<(Seq<char>, Json)>>::empty(), a, seq![a1, a2]) == Seq::<
        Seq<(Seq<char>, Json)>,
    >::empty());
    assert(seq![a1, a2].map_values(|r: Json| insert_entry(no_entries, a, r)) =~= seq![
        seq![(a, a1)],
        seq![(a, a2)],
    ]);
    assert(after_first =~= seq![seq![(a, a1)], seq![(a, a2)]]);
    assert(product(v, pairs.drop_last()) == after_first);
    // second pair
    let o1 = seq![(a, a1)];
    let o2 = seq![(a, a2)];
    assert(key_index_from(o1, b, 1) == -1);
    assert(key_index_from(o2, b, 1) == -1);
    assert(key_index(o1, b) == -1);
    assert(key_index(o2, b) == -1);
    let after_second = extend_all(after_first, b, seq![b1]);
    assert(after_first.drop_last() =~= seq![o1]);
    assert(seq![o1].drop_last() =~= Seq::<Seq<(Seq<char>, Json)>>::empty());
    assert(seq![o1].last() == o1);
    assert(after_first.last() == o2);
    assert(insert_entry(o1, b, b1) == o1.push((b, b1)));
    assert(insert_entry(o2, b, b1) == o2.push((b, b1)));
    assert(extend_all(Seq::<Seq<(Seq<char>, Json)>>::empty(), b, seq![b1]) == Seq::<
        Seq<(Seq<char>, Json)>,
    >::empty());
    assert(seq![b1].map_values(|r: Json| insert_entry(o1, b, r)) =~= seq![o1.push((b, b1))]);
    assert(seq![b1].map_values(|r: Json| insert_entry(o2, b, r)) =~= seq![o2.push((b, b1))]);
    assert(extend_all(seq![o1], b, seq![b1]) =~= seq![o1.push((b, b1))]);
    assert(after_second =~= seq![o1.push((b, b1)), o2.push((b, b1))]);
    assert(o1.push((b, b1)) =~= seq![(a, a1), (b, b1)]);
    assert(o2.push((b, b1)) =~= seq![(a, a2), (b, b1)]);
    assert(product(v, pairs) == after_second);
    assert(apply(Filter::Object(pairs), v) =~= seq![
        Json::Object(seq![(a, a1), (b, b1)]),
        Json::Object(seq![(a, a2), (b, b1)]),
    ]);
}

/// A `select` whose predicate holds on `v` yields `v` itself.
pub proof fn law_select_keeps_input(v: Json, path: Seq<Filter>, op: CompareOp, lit: Lit)
    requires
        evaluate(v, path).len() > 0,
        condition_holds(evaluate(v, path)[0], op, lit),
    ensures
        evaluate(v, seq![Filter::Select(path, op, lit)]) == seq![v],
{
    lemma_single_filter(v, Filter::Select(path, op, lit));
}

} // verus!

//! The mathematical model of a document: a sequence of key/value entries
//! whose values are drawn from a tagged union of JSON shapes.

use vstd::prelude::*;

verus! {

/// The model of a dynamic value: null, boolean, integer, text, a sequence of
/// values, or a nested document given as its ordered entry sequence.
pub enum ValueModel {
    Null,
    Bool(bool),
    Num(i64),
    Text(Seq<char>),
    Array(Seq<ValueModel>),
    Object(Seq<(Seq<char>, ValueModel)>),
}

/// True when some entry of `es` carries the key `k`.
pub open spec fn has_key(es: Seq<(Seq<char>, ValueModel)>, k: Seq<char>) -> bool {
    exists|i: int| 0 <= i < es.len() && es[i].0 == k
}

/// An index of an entry carrying the key `k` (meaningful only when `has_key`).
pub open spec fn key_index(es: Seq<(Seq<char>, ValueModel)>, k: Seq<char>) -> int {
    choose|i: int| 0 <= i < es.len() && es[i].0 == k
}

/// The value stored under `k`, if any.
pub open spec fn lookup(es: Seq<(Seq<char>, ValueModel)>, k: Seq<char>) -> Option<ValueModel> {
    if has_key(es, k) {
        Some(es[key_index(es, k)].1)
    } else {
        None
    }
}

/// Entries after storing `m` under `k`: the entry for an existing key is
/// replaced in place; a new key is appended at the end.
pub open spec fn upsert(
    es: Seq<(Seq<char>, ValueModel)>,
    k: Seq<char>,
    m: ValueModel,
) -> Seq<(Seq<char>, ValueModel)> {
    if has_key(es, k) {
        es.update(key_index(es, k), (k, m))
    } else {
        es.push((k, m))
    }
}

/// No two entries carry the same key.
pub open spec fn unique_keys(es: Seq<(Seq<char>, ValueModel)>) -> bool {
    forall|i: int, j: int| 0 <= i < j < es.len() ==> es[i].0 != es[j].0
}

/// Every object inside `m`, at any depth, has unique keys.
pub open spec fn wf_model(m: ValueModel) -> bool
    decreases m,
{
    match m {
        ValueModel::Array(vs) => forall|i: int| 0 <= i < vs.len() ==> wf_model(#[trigger] vs[i]),
        ValueModel::Object(es) => wf_entries(es),
        _ => true,
    }
}

/// The keys of `es` are unique and every value in it is well formed.
pub open spec fn wf_entries(es: Seq<(Seq<char>, ValueModel)>) -> bool
    decreases es,
{
    unique_keys(es) && forall|i: int| 0 <= i < es.len() ==> wf_model(#[trigger] es[i].1)
}

/// The parts of a well-formed entry list: unique keys, well-formed values.
pub proof fn lemma_wf_entries_parts(es: Seq<(Seq<char>, ValueModel)>)
    requires
        wf_entries(es),
    ensures
        unique_keys(es),
        forall|q: int| 0 <= q < es.len() ==> wf_model((#[trigger] es[q]).1),
{
    assert(ValueModel::Object(es)->Object_0 == es);
}

/// An entry list with unique keys and well-formed values is well formed.
pub proof fn lemma_wf_entries_intro(es: Seq<(Seq<char>, ValueModel)>)
    requires
        unique_keys(es),
        forall|q: int| 0 <= q < es.len() ==> wf_model((#[trigger] es[q]).1),
    ensures
        wf_entries(es),
{
}

/// The parts of a well-formed list value: each element is well formed.
pub proof fn lemma_wf_array_parts(vs: Seq<ValueModel>)
    requires
        wf_model(ValueModel::Array(vs)),
    ensures
        forall|q: int| 0 <= q < vs.len() ==> wf_model(#[trigger] vs[q]),
{
    assert(ValueModel::Array(vs)->Array_0 == vs);
}

/// A list value of well-formed elements is well formed.
pub proof fn lemma_wf_array_intro(vs: Seq<ValueModel>)
    requires
        forall|q: int| 0 <= q < vs.len() ==> wf_model(#[trigger] vs[q]),
    ensures
        wf_model(ValueModel::Array(vs)),
{
    assert(ValueModel::Array(vs)->Array_0 == vs);
}

/// A document value over a well-formed entry list is well formed.
pub proof fn lemma_wf_object_intro(es: Seq<(Seq<char>, ValueModel)>)
    requires
        wf_entries(es),
    ensures
        wf_model(ValueModel::Object(es)),
{
    assert(ValueModel::Object(es)->Object_0 == es);
}

/// The entry list of a well-formed document value is well formed.
pub proof fn lemma_wf_object_parts(es: Seq<(Seq<char>, ValueModel)>)
    requires
        wf_model(ValueModel::Object(es)),
    ensures
        wf_entries(es),
{
    assert(ValueModel::Object(es)->Object_0 == es);
}

/// The entries obtained by storing the pairs of `ps` one after the other
/// into an empty document: for a duplicated key the last pair wins.
pub open spec fn added_in_order(ps: Seq<(Seq<char>, ValueModel)>) -> Seq<(Seq<char>, ValueModel)>
    decreases ps.len(),
{
    if ps.len() == 0 {
        Seq::empty()
    } else {
        upsert(added_in_order(ps.drop_last()), ps.last().0, ps.last().1)
    }
}

/// Adding a value and then reading the same key yields exactly that value.
pub proof fn lemma_add_then_get(es: Seq<(Seq<char>, ValueModel)>, k: Seq<char>, m: ValueModel)
    requires
        unique_keys(es),
    ensures
        lookup(upsert(es, k, m), k) == Some(m),
{
    if has_key(es, k) {
        let i = key_index(es, k);
        let u = es.update(i, (k, m));
        assert(0 <= i < u.len() && u[i].0 == k);
        let j = key_index(u, k);
        assert(0 <= j < u.len() && u[j].0 == k);
        if j != i {
            assert(es[j].0 == k);
            assert(false);
        }
    } else {
        let u = es.push((k, m));
        let n = es.len() as int;
        assert(u[n].0 == k);
        assert(has_key(u, k));
        let j = key_index(u, k);
        if j != n {
            assert(es[j].0 == k);
            assert(false);
        }
    }
}

/// Reading a key other than the one just added sees the document unchanged.
pub proof fn lemma_add_frame(
    es: Seq<(Seq<char>, ValueModel)>,
    k: Seq<char>,
    m: ValueModel,
    k2: Seq<char>,
)
    requires
        unique_keys(es),
        k2 != k,
    ensures
        lookup(upsert(es, k, m), k2) == lookup(es, k2),
{
    let u = upsert(es, k, m);
    if has_key(es, k) {
        let i = key_index(es, k);
        assert(0 <= i < es.len() && es[i].0 == k);
        assert(forall|j: int| 0 <= j < u.len() && j != i ==> u[j] == es[j]);
        if has_key(es, k2) {
            let j = key_index(es, k2);
            assert(0 <= j < es.len() && es[j].0 == k2);
            assert(u[j].0 == k2);
            assert(has_key(u, k2));
            let j2 = key_index(u, k2);
            assert(u[j2].0 == k2);
            if j2 != j {
                assert(es[j2].0 == k2);
                assert(false);
            }
        } else {
            if has_key(u, k2) {
                let j2 = key_index(u, k2);
                assert(u[j2].0 == k2);
                assert(es[j2].0 == k2);
                assert(false);
            }
        }
    } else {
        let n = es.len() as int;
        if has_key(es, k2) {
            let j = key_index(es, k2);
            assert(0 <= j < es.len() && es[j].0 == k2);
            assert(u[j].0 == k2);
            assert(has_key(u, k2));
            let j2 = key_index(u, k2);
            assert(u[j2].0 == k2);
            if j2 != j {
                if j2 == n {
                    assert(false);
                } else {
                    assert(es[j2].0 == k2);
                    assert(false);
                }
            }
        } else {
            if has_key(u, k2) {
                let j2 = key_index(u, k2);
                assert(u[j2].0 == k2);
                if j2 == n {
                    assert(false);
                } else {
                    assert(es[j2].0 == k2);
                    assert(false);
                }
            }
        }
    }
}

/// Storing a well-formed value keeps the document well formed, and the
/// document grows only when the key is new.
pub proof fn lemma_upsert_wf(es: Seq<(Seq<char>, ValueModel)>, k: Seq<char>, m: ValueModel)
    requires
        wf_entries(es),
        wf_model(m),
    ensures
        wf_entries(upsert(es, k, m)),
        upsert(es, k, m).len() == if has_key(es, k) {
            es.len()
        } else {
            es.len() + 1
        },
        has_key(upsert(es, k, m), k),
{
    let u = upsert(es, k, m);
    if has_key(es, k) {
        let i = key_index(es, k);
        assert(0 <= i < es.len() && es[i].0 == k);
        assert(forall|j: int| 0 <= j < u.len() ==> (#[trigger] u[j]).0 == es[j].0);
        assert(u[i].0 == k);
        assert(has_key(u, k));
        assert(forall|j: int| 0 <= j < u.len() && j != i ==> u[j].1 == es[j].1);
        assert(forall|j: int| 0 <= j < u.len() ==> wf_model((#[trigger] u[j]).1));
    } else {
        let n = es.len() as int;
        assert(u[n].0 == k);
        assert(has_key(u, k));
        assert(forall|i: int, j: int| 0 <= i < j < u.len() ==> u[i].0 != u[j].0) by {
            assert(forall|i: int| 0 <= i < n ==> (#[trigger] u[i]).0 == es[i].0);
            assert(forall|i: int| 0 <= i < n ==> (#[trigger] u[i]).0 != k) by {
                assert(forall|i: int| 0 <= i < n ==> (#[trigger] es[i]).0 != k);
            }
        }
        assert(forall|j: int| 0 <= j < u.len() ==> wf_model((#[trigger] u[j]).1));
    }
}

/// Overwriting a key leaves the latest value in place and does not grow the
/// document a second time.
pub proof fn lemma_add_overwrites(
    es: Seq<(Seq<char>, ValueModel)>,
    k: Seq<char>,
    m1: ValueModel,
    m2: ValueModel,
)
    requires
        wf_entries(es),
        wf_model(m1),
    ensures
        lookup(upsert(upsert(es, k, m1), k, m2), k) == Some(m2),
        upsert(upsert(es, k, m1), k, m2).len() == upsert(es, k, m1).len(),
{
    lemma_upsert_wf(es, k, m1);
    let u1 = upsert(es, k, m1);
    lemma_add_then_get(u1, k, m2);
}

} // verus!

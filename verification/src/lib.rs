//! A typed-access wrapper around a dynamic, tree-shaped document value.
//!
//! A [`Json`] document is built incrementally with [`Json::add`] and read back
//! with [`Json::get`] and its typed companions, which fail with an explicit
//! [`error::Error`] instead of coercing or crashing.  A document can be
//! rendered to a wire string and parsed back; the round trip is proved to
//! restore the document exactly.

use vstd::prelude::*;

pub mod codec;
pub mod error;
pub mod model;

pub use crate::codec::{decode, encode};
use crate::error::Error;
use crate::model::ValueModel;
use vstd::string::StringExecFns;

verus! {

/// A document: a mapping from string keys to dynamic values, with unique keys.
#[derive(Debug)]
pub struct Json {
    pub(crate) entries: Vec<(String, Value)>,
}

/// A dynamic value: one of the JSON shapes, including a nested [`Json`].
#[derive(Debug)]
pub enum Value {
    Null,
    Bool(bool),
    Num(i64),
    Text(String),
    Array(Vec<Value>),
    Object(Json),
}

/// The model of a value: the same tree with strings as character sequences.
pub closed spec fn value_model(v: Value) -> ValueModel
    decreases v,
{
    match v {
        Value::Null => ValueModel::Null,
        Value::Bool(b) => ValueModel::Bool(b),
        Value::Num(n) => ValueModel::Num(n),
        Value::Text(s) => ValueModel::Text(s@),
        Value::Array(a) => ValueModel::Array(values_model(a@)),
        Value::Object(j) => ValueModel::Object(entries_model(j.entries@)),
    }
}

/// The models of a list of values, in order.
pub closed spec fn values_model(vs: Seq<Value>) -> Seq<ValueModel>
    decreases vs,
{
    if vs.len() == 0 {
        Seq::empty()
    } else {
        seq![value_model(vs[0])] + values_model(vs.drop_first())
    }
}

/// The model of an entry list: each key as its characters, each value as its model.
pub closed spec fn entries_model(es: Seq<(String, Value)>) -> Seq<(Seq<char>, ValueModel)>
    decreases es,
{
    if es.len() == 0 {
        Seq::empty()
    } else {
        seq![(es[0].0@, value_model(es[0].1))] + entries_model(es.drop_first())
    }
}

/// `values_model` maps the list elementwise.
pub proof fn lemma_values_model(vs: Seq<Value>)
    ensures
        values_model(vs).len() == vs.len(),
        forall|i: int| 0 <= i < vs.len() ==> values_model(vs)[i] == value_model(#[trigger] vs[i]),
    decreases vs,
{
    if vs.len() > 0 {
        lemma_values_model(vs.drop_first());
        assert forall|i: int| 0 <= i < vs.len() implies values_model(vs)[i]
            == value_model(#[trigger] vs[i]) by {
            if i > 0 {
                assert(vs.drop_first()[i - 1] == vs[i]);
            }
        }
    }
}

/// `entries_model` maps the entry list elementwise.
pub proof fn lemma_entries_model(es: Seq<(String, Value)>)
    ensures
        entries_model(es).len() == es.len(),
        forall|i: int| 0 <= i < es.len() ==> entries_model(es)[i]
            == ((#[trigger] es[i]).0@, value_model(es[i].1)),
    decreases es,
{
    if es.len() > 0 {
        lemma_entries_model(es.drop_first());
        assert forall|i: int| 0 <= i < es.len() implies entries_model(es)[i]
            == ((#[trigger] es[i]).0@, value_model(es[i].1)) by {
            if i > 0 {
                assert(es.drop_first()[i - 1] == es[i]);
            }
        }
    }
}

impl View for Value {
    type V = ValueModel;

    closed spec fn view(&self) -> ValueModel {
        value_model(*self)
    }
}

impl View for Json {
    type V = Seq<(Seq<char>, ValueModel)>;

    closed spec fn view(&self) -> Seq<(Seq<char>, ValueModel)> {
        entries_model(self.entries@)
    }
}

impl Json {
    /// A document is valid when its keys are unique, at every depth.
    pub open spec fn inv(&self) -> bool {
        model::wf_entries(self@)
    }

    /// Creates an empty document.
    pub fn new() -> (r: Json)
        ensures
            r@ == Seq::<(Seq<char>, ValueModel)>::empty(),
            r.inv(),
    {
        Json { entries: Vec::new() }
    }

    /// Stores `v` under `k`.  An existing entry for `k` is overwritten in
    /// place; a new key is appended.  Never fails.
    #[verifier::loop_isolation(false)]
    pub fn add(&mut self, k: &str, v: Value)
        requires
            old(self).inv(),
            model::wf_model(v@),
        ensures
            final(self)@ == model::upsert(old(self)@, k@, v@),
            final(self).inv(),
    {
        proof {
            model::lemma_upsert_wf(old(self)@, k@, v@);
        }
        let key: String = k.to_owned();
        let n = self.entries.len();
        let mut i: usize = 0;
        while i < n
            invariant
                n == self.entries@.len(),
                i <= n,
                self.entries@ == old(self).entries@,
                key@ == k@,
                forall|j: int| 0 <= j < i ==> (#[trigger] self.entries@[j]).0@ != k@,
            decreases n - i,
        {
            if self.entries[i].0 == key {
                let ghost es0 = self.entries@;
                self.entries[i] = (key, v);
                proof {
                    let ghost es1 = self.entries@;
                    let ii = i as int;
                    lemma_entries_model(es0);
                    lemma_entries_model(es1);
                    assert(es0[ii].0@ == k@);
                    assert(entries_model(es0)[ii] == (es0[ii].0@, value_model(es0[ii].1)));
                    assert(old(self)@[ii].0 == k@);
                    assert(model::has_key(old(self)@, k@));
                    let ci = model::key_index(old(self)@, k@);
                    assert(0 <= ci < old(self)@.len() && old(self)@[ci].0 == k@);
                    assert(model::unique_keys(old(self)@));
                    assert(ci == ii) by {
                        if ci < ii {
                            assert(old(self)@[ci].0 != old(self)@[ii].0);
                        } else if ci > ii {
                            assert(old(self)@[ii].0 != old(self)@[ci].0);
                        }
                    };
                    assert(es1[ii].0@ == k@ && value_model(es1[ii].1) == v@);
                    assert forall|j: int| 0 <= j < es1.len() implies entries_model(es1)[j]
                        == model::upsert(old(self)@, k@, v@)[j] by {
                        assert(entries_model(es1)[j] == (es1[j].0@, value_model(es1[j].1)));
                        assert(entries_model(es0)[j] == (es0[j].0@, value_model(es0[j].1)));
                        if j != ii {
                            assert(es1[j] == es0[j]);
                        }
                    };
                    assert(final(self)@ =~= model::upsert(old(self)@, k@, v@));
                }
                return ;
            }
            i += 1;
        }
        let ghost es0 = self.entries@;
        proof {
            assert(forall|j: int| 0 <= j < es0.len() ==> (#[trigger] es0[j]).0@ != k@);
        }
        self.entries.push((key, v));
        proof {
            let ghost es1 = self.entries@;
            lemma_entries_model(es0);
            lemma_entries_model(es1);
            assert forall|j: int| 0 <= j < old(self)@.len() implies (#[trigger] old(
                self,
            )@[j]).0 != k@ by {
                assert(entries_model(es0)[j] == (es0[j].0@, value_model(es0[j].1)));
                assert(es0[j].0@ != k@);
            };
            assert(!model::has_key(old(self)@, k@));
            let nn = es0.len() as int;
            assert(es1[nn].0@ == k@ && value_model(es1[nn].1) == v@);
            assert forall|j: int| 0 <= j < es1.len() implies entries_model(es1)[j]
                == model::upsert(old(self)@, k@, v@)[j] by {
                assert(entries_model(es1)[j] == (es1[j].0@, value_model(es1[j].1)));
                if j < nn {
                    assert(es1[j] == es0[j]);
                    assert(entries_model(es0)[j] == (es0[j].0@, value_model(es0[j].1)));
                }
            };
            assert(final(self)@ =~= model::upsert(old(self)@, k@, v@));
        }
    }
}

impl Json {
    /// Reads the value stored under `k`.  Fails with [`Error::NotFound`],
    /// carrying the key and a rendering of this document, exactly when the
    /// key is absent; otherwise hands back an independent copy of the value.
    #[verifier::loop_isolation(false)]
    pub fn get(&self, k: &str) -> (r: Result<Value, Error>)
        requires
            self.inv(),
        ensures
            model::has_key(self@, k@) ==> (r matches Ok(v) && model::lookup(self@, k@) == Some(v@)
                && model::wf_model(v@)),
            !model::has_key(self@, k@) ==> (r matches Err(e) && e matches Error::NotFound(
                key,
                snap,
            ) && key@ == k@ && snap@ == codec::doc_text(self@)),
    {
        let key: String = k.to_owned();
        let n = self.entries.len();
        let mut i: usize = 0;
        while i < n
            invariant
                n == self.entries@.len(),
                i <= n,
                key@ == k@,
                forall|j: int| 0 <= j < i ==> (#[trigger] self.entries@[j]).0@ != k@,
            decreases n - i,
        {
            if self.entries[i].0 == key {
                let v = self.entries[i].1.clone();
                proof {
                    let ii = i as int;
                    lemma_entries_model(self.entries@);
                    assert(self@[ii] == (self.entries@[ii].0@, value_model(self.entries@[ii].1)));
                    assert(self@[ii].0 == k@);
                    assert(model::has_key(self@, k@));
                    let ci = model::key_index(self@, k@);
                    assert(0 <= ci < self@.len() && self@[ci].0 == k@);
                    assert(ci == ii) by {
                        if ci < ii {
                            assert(self@[ci].0 != self@[ii].0);
                        } else if ci > ii {
                            assert(self@[ii].0 != self@[ci].0);
                        }
                    };
                    assert(model::lookup(self@, k@) == Some(self@[ii].1));
                    assert(model::wf_model(self@[ii].1));
                }
                return Ok(v);
            }
            i += 1;
        }
        proof {
            lemma_entries_model(self.entries@);
            assert forall|j: int| 0 <= j < self@.len() implies (#[trigger] self@[j]).0 != k@ by {
                assert(self@[j] == (self.entries@[j].0@, value_model(self.entries@[j].1)));
                assert(self.entries@[j].0@ != k@);
            };
            assert(!model::has_key(self@, k@));
        }
        Err(Error::NotFound(key, codec::encode(self)))
    }

    /// Reads the boolean stored under `k`; fails with `NotFound` when the key
    /// is absent and with `CannotConvert` when the value is no boolean.
    pub fn get_bool(&self, k: &str) -> (r: Result<bool, Error>)
        requires
            self.inv(),
        ensures
            model::lookup(self@, k@) matches Some(m) ==> (m matches ValueModel::Bool(b) ==> r
                == Ok::<bool, Error>(b)) && (!(m is Bool) ==> (r matches Err(e) && e
                matches Error::CannotConvert(s) && s@ == codec::enc_value(m))),
            model::lookup(self@, k@) is None ==> (r matches Err(e) && e matches Error::NotFound(
                key,
                snap,
            ) && key@ == k@ && snap@ == codec::doc_text(self@)),
    {
        match self.get(k) {
            Ok(v) => v.into_bool(),
            Err(e) => Err(e),
        }
    }

    /// Reads the number stored under `k`; fails with `NotFound` when the key
    /// is absent and with `CannotConvert` when the value is no number.
    pub fn get_i64(&self, k: &str) -> (r: Result<i64, Error>)
        requires
            self.inv(),
        ensures
            model::lookup(self@, k@) matches Some(m) ==> (m matches ValueModel::Num(n) ==> r
                == Ok::<i64, Error>(n)) && (!(m is Num) ==> (r matches Err(e) && e
                matches Error::CannotConvert(s) && s@ == codec::enc_value(m))),
            model::lookup(self@, k@) is None ==> (r matches Err(e) && e matches Error::NotFound(
                key,
                snap,
            ) && key@ == k@ && snap@ == codec::doc_text(self@)),
    {
        match self.get(k) {
            Ok(v) => v.into_i64(),
            Err(e) => Err(e),
        }
    }

    /// Reads the string stored under `k`; fails with `NotFound` when the key
    /// is absent and with `CannotConvert` when the value is no string.
    pub fn get_string(&self, k: &str) -> (r: Result<String, Error>)
        requires
            self.inv(),
        ensures
            model::lookup(self@, k@) matches Some(m) ==> (m matches ValueModel::Text(t) ==> (r
                matches Ok(s) && s@ == t)) && (!(m is Text) ==> (r matches Err(e) && e
                matches Error::CannotConvert(s) && s@ == codec::enc_value(m))),
            model::lookup(self@, k@) is None ==> (r matches Err(e) && e matches Error::NotFound(
                key,
                snap,
            ) && key@ == k@ && snap@ == codec::doc_text(self@)),
    {
        match self.get(k) {
            Ok(v) => v.into_string(),
            Err(e) => Err(e),
        }
    }

    /// Reads the list stored under `k`; fails with `NotFound` when the key
    /// is absent and with `CannotConvert` when the value is no list.
    pub fn get_array(&self, k: &str) -> (r: Result<Vec<Value>, Error>)
        requires
            self.inv(),
        ensures
            model::lookup(self@, k@) matches Some(m) ==> (m matches ValueModel::Array(vs) ==> (r
                matches Ok(a) && values_model(a@) == vs)) && (!(m is Array) ==> (r matches Err(e)
                && e matches Error::CannotConvert(s) && s@ == codec::enc_value(m))),
            model::lookup(self@, k@) is None ==> (r matches Err(e) && e matches Error::NotFound(
                key,
                snap,
            ) && key@ == k@ && snap@ == codec::doc_text(self@)),
    {
        match self.get(k) {
            Ok(v) => v.into_array(),
            Err(e) => Err(e),
        }
    }

    /// Reads the nested document stored under `k`; fails with `NotFound` when
    /// the key is absent and with `CannotConvert` when the value is no document.
    pub fn get_json(&self, k: &str) -> (r: Result<Json, Error>)
        requires
            self.inv(),
        ensures
            model::lookup(self@, k@) matches Some(m) ==> (m matches ValueModel::Object(es) ==> (r
                matches Ok(j) && j@ == es && j.inv())) && (!(m is Object) ==> (r matches Err(e)
                && e matches Error::CannotConvert(s) && s@ == codec::enc_value(m))),
            model::lookup(self@, k@) is None ==> (r matches Err(e) && e matches Error::NotFound(
                key,
                snap,
            ) && key@ == k@ && snap@ == codec::doc_text(self@)),
    {
        match self.get(k) {
            Ok(v) => v.into_json(),
            Err(e) => Err(e),
        }
    }

    /// Builds a document from an ordered list of key/value pairs, as if each
    /// pair were added in turn: for a duplicated key the last pair wins.
    #[verifier::loop_isolation(false)]
    pub fn from_pairs(pairs: Vec<(String, Value)>) -> (r: Json)
        requires
            forall|i: int| 0 <= i < pairs@.len() ==> model::wf_model(value_model(
                (#[trigger] pairs@[i]).1,
            )),
        ensures
            r@ == model::added_in_order(entries_model(pairs@)),
            r.inv(),
    {
        let ghost pm = entries_model(pairs@);
        proof {
            lemma_entries_model(pairs@);
        }
        let mut d = Json::new();
        let n = pairs.len();
        let mut i: usize = 0;
        while i < n
            invariant
                n == pairs@.len(),
                i <= n,
                d@ == model::added_in_order(pm.take(i as int)),
                d.inv(),
            decreases n - i,
        {
            let v = pairs[i].1.clone();
            d.add(pairs[i].0.as_str(), v);
            proof {
                assert(pm.take(i as int + 1).drop_last() =~= pm.take(i as int));
                assert(pm.take(i as int + 1).last() == pm[i as int]);
                assert(pm[i as int] == (pairs@[i as int].0@, value_model(pairs@[i as int].1)));
                assert(d@ == model::added_in_order(pm.take(i as int + 1)));
            }
            i += 1;
        }
        proof {
            assert(pm.take(n as int) =~= pm);
        }
        d
    }
}

impl Value {
    /// Converts this value into a boolean; any other shape fails with a
    /// rendered snapshot of the value.
    pub fn into_bool(self) -> (r: Result<bool, Error>)
        ensures
            self@ matches ValueModel::Bool(b) ==> r == Ok::<bool, Error>(b),
            !(self@ is Bool) ==> (r matches Err(e) && e matches Error::CannotConvert(s) && s@
                == codec::enc_value(self@)),
    {
        match self {
            Value::Bool(b) => Ok(b),
            other => Err(Error::CannotConvert(codec::value_text(&other))),
        }
    }

    /// Converts this value into a number; any other shape fails with a
    /// rendered snapshot of the value.
    pub fn into_i64(self) -> (r: Result<i64, Error>)
        ensures
            self@ matches ValueModel::Num(n) ==> r == Ok::<i64, Error>(n),
            !(self@ is Num) ==> (r matches Err(e) && e matches Error::CannotConvert(s) && s@
                == codec::enc_value(self@)),
    {
        match self {
            Value::Num(n) => Ok(n),
            other => Err(Error::CannotConvert(codec::value_text(&other))),
        }
    }

    /// Converts this value into a string; any other shape fails with a
    /// rendered snapshot of the value.
    pub fn into_string(self) -> (r: Result<String, Error>)
        ensures
            self@ matches ValueModel::Text(t) ==> (r matches Ok(s) && s@ == t),
            !(self@ is Text) ==> (r matches Err(e) && e matches Error::CannotConvert(s) && s@
                == codec::enc_value(self@)),
    {
        match self {
            Value::Text(s) => Ok(s),
            other => Err(Error::CannotConvert(codec::value_text(&other))),
        }
    }

    /// Converts this value into a list of values; any other shape fails with
    /// a rendered snapshot of the value.
    pub fn into_array(self) -> (r: Result<Vec<Value>, Error>)
        ensures
            self@ matches ValueModel::Array(vs) ==> (r matches Ok(a) && values_model(a@) == vs),
            !(self@ is Array) ==> (r matches Err(e) && e matches Error::CannotConvert(s) && s@
                == codec::enc_value(self@)),
    {
        match self {
            Value::Array(a) => Ok(a),
            other => Err(Error::CannotConvert(codec::value_text(&other))),
        }
    }

    /// Converts this value into a nested document; any other shape fails
    /// with a rendered snapshot of the value.
    pub fn into_json(self) -> (r: Result<Json, Error>)
        ensures
            self@ matches ValueModel::Object(es) ==> (r matches Ok(j) && j@ == es && (
            model::wf_entries(es) ==> j.inv())),
            !(self@ is Object) ==> (r matches Err(e) && e matches Error::CannotConvert(s) && s@
                == codec::enc_value(self@)),
    {
        match self {
            Value::Object(j) => Ok(j),
            other => Err(Error::CannotConvert(codec::value_text(&other))),
        }
    }
}

impl From<bool> for Value {
    /// Wraps a boolean as a dynamic value.
    fn from(b: bool) -> (r: Value) {
        Value::Bool(b)
    }
}

impl vstd::std_specs::convert::FromSpecImpl<bool> for Value {
    open spec fn obeys_from_spec() -> bool {
        true
    }

    open spec fn from_spec(b: bool) -> Value {
        Value::Bool(b)
    }
}

impl From<i64> for Value {
    /// Wraps a number as a dynamic value.
    fn from(n: i64) -> (r: Value) {
        Value::Num(n)
    }
}

impl vstd::std_specs::convert::FromSpecImpl<i64> for Value {
    open spec fn obeys_from_spec() -> bool {
        true
    }

    open spec fn from_spec(n: i64) -> Value {
        Value::Num(n)
    }
}

impl From<String> for Value {
    /// Wraps a string as a dynamic value.
    fn from(s: String) -> (r: Value) {
        Value::Text(s)
    }
}

impl vstd::std_specs::convert::FromSpecImpl<String> for Value {
    open spec fn obeys_from_spec() -> bool {
        true
    }

    open spec fn from_spec(s: String) -> Value {
        Value::Text(s)
    }
}

impl From<&str> for Value {
    /// Copies a string slice into a dynamic value.
    fn from(s: &str) -> (r: Value)
        ensures
            r@ == ValueModel::Text(s@),
    {
        Value::Text(s.to_owned())
    }
}

impl vstd::std_specs::convert::FromSpecImpl<&str> for Value {
    open spec fn obeys_from_spec() -> bool {
        false
    }

    open spec fn from_spec(s: &str) -> Value {
        Value::Null
    }
}

impl From<Vec<Value>> for Value {
    /// Wraps a list of values as a dynamic value.
    fn from(a: Vec<Value>) -> (r: Value) {
        Value::Array(a)
    }
}

impl vstd::std_specs::convert::FromSpecImpl<Vec<Value>> for Value {
    open spec fn obeys_from_spec() -> bool {
        true
    }

    open spec fn from_spec(a: Vec<Value>) -> Value {
        Value::Array(a)
    }
}

impl From<Json> for Value {
    /// Wraps a nested document as a dynamic value.
    fn from(d: Json) -> (r: Value) {
        Value::Object(d)
    }
}

impl vstd::std_specs::convert::FromSpecImpl<Json> for Value {
    open spec fn obeys_from_spec() -> bool {
        true
    }

    open spec fn from_spec(d: Json) -> Value {
        Value::Object(d)
    }
}

/// A standalone missing-key error: the key together with the rendering of
/// the document that lacked it, captured when the error was made.
#[derive(Debug)]
pub struct NotFound {
    key: String,
    json: String,
}

impl View for NotFound {
    type V = (Seq<char>, Seq<char>);

    closed spec fn view(&self) -> (Seq<char>, Seq<char>) {
        (self.key@, self.json@)
    }
}

impl NotFound {
    /// Creates the error for `key` against `json`, capturing a rendering of
    /// the document at this moment.
    pub fn new(key: String, json: &Json) -> (r: NotFound)
        ensures
            r@ == (key@, codec::doc_text(json@)),
    {
        NotFound { key, json: codec::encode(json) }
    }

    /// The human-readable description of the failure.
    pub fn message(&self) -> (r: String)
        ensures
            r@ == "NotFound: Cannot found key "@ + self@.0 + " in "@ + self@.1,
    {
        let mut s = String::from_str("NotFound: Cannot found key ");
        s.append(self.key.as_str());
        s.append(" in ");
        s.append(self.json.as_str());
        s
    }
}

/// A deep copy of a value, equal to the original in its model.
#[verifier::loop_isolation(false)]
fn copy_value(v: &Value) -> (r: Value)
    ensures
        r@ == v@,
    decreases *v,
{
    match v {
        Value::Null => Value::Null,
        Value::Bool(b) => Value::Bool(*b),
        Value::Num(n) => Value::Num(*n),
        Value::Text(s) => Value::Text(s.clone()),
        Value::Array(a) => {
            let mut out: Vec<Value> = Vec::new();
            let n = a.len();
            let mut i: usize = 0;
            while i < n
                invariant
                    n == a@.len(),
                    i <= n,
                    out@.len() == i,
                    forall|j: int| 0 <= j < i ==> value_model(#[trigger] out@[j])
                        == value_model(a@[j]),
                decreases n - i,
            {
                proof {
                    assert(*a == (*v)->Array_0);
                    assert(decreases_to!(*v => (*v)->Array_0));
                    assert(decreases_to!(*a => a@));
                    assert(decreases_to!(a@ => a@[i as int]));
                }
                out.push(copy_value(&a[i]));
                i += 1;
            }
            proof {
                lemma_values_model(out@);
                lemma_values_model(a@);
                assert forall|j: int| 0 <= j < out@.len() implies values_model(out@)[j]
                    == values_model(a@)[j] by {
                    assert(value_model(out@[j]) == value_model(a@[j]));
                };
                assert(values_model(out@) =~= values_model(a@));
            }
            Value::Array(out)
        },
        Value::Object(j) => Value::Object(copy_json(j)),
    }
}

/// A deep copy of a document, equal to the original in its model.
#[verifier::loop_isolation(false)]
fn copy_json(d: &Json) -> (r: Json)
    ensures
        r@ == d@,
    decreases *d,
{
    let mut out: Vec<(String, Value)> = Vec::new();
    let n = d.entries.len();
    let mut i: usize = 0;
    while i < n
        invariant
            n == d.entries@.len(),
            i <= n,
            out@.len() == i,
            forall|j: int| 0 <= j < i ==> (#[trigger] out@[j]).0@ == d.entries@[j].0@
                && value_model(out@[j].1) == value_model(d.entries@[j].1),
        decreases n - i,
    {
        proof {
            assert(decreases_to!(*d => d.entries));
            assert(decreases_to!(d.entries => d.entries@));
            assert(decreases_to!(d.entries@ => d.entries@[i as int]));
            assert(decreases_to!(d.entries@[i as int] => d.entries@[i as int].1));
        }
        let key = d.entries[i].0.clone();
        let val = copy_value(&d.entries[i].1);
        out.push((key, val));
        i += 1;
    }
    proof {
        lemma_entries_model(out@);
        lemma_entries_model(d.entries@);
        assert forall|j: int| 0 <= j < out@.len() implies entries_model(out@)[j]
            == entries_model(d.entries@)[j] by {
            assert(entries_model(out@)[j] == (out@[j].0@, value_model(out@[j].1)));
            assert(entries_model(d.entries@)[j] == (d.entries@[j].0@, value_model(
                d.entries@[j].1,
            )));
        };
        assert(entries_model(out@) =~= entries_model(d.entries@));
    }
    Json { entries: out }
}

impl Clone for Value {
    /// A deep copy: the clone has the same model as the original.
    fn clone(&self) -> (r: Self)
        ensures
            r@ == self@,
    {
        copy_value(self)
    }
}

impl Clone for Json {
    /// A deep copy: the clone has the same model as the original.
    fn clone(&self) -> (r: Self)
        ensures
            r@ == self@,
    {
        copy_json(self)
    }
}

} // verus!

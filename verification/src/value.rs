//! The JSON value model: null, booleans, numbers, strings, arrays and
//! objects with insertion-ordered entries.
//!
//! A number is carried as its decimal token (the text form matching the
//! number grammar of this format); callers that hold binary floating-point
//! values render them to their shortest decimal form before constructing a
//! value.  Non-finite numbers have no token and are represented as `Null`.

use vstd::prelude::*;

verus! {

broadcast use vstd::std_specs::vec::group_vec_axioms;

/// A scalar: the non-container values of the JSON model.
#[derive(Debug, PartialEq)]
pub enum StringOrNumberOrBoolOrNull {
    Null,
    Bool(bool),
    /// A number, as its decimal token (for example `42`, `-1.5`, `2e10`).
    Number(String),
    String(String),
}

/// A JSON value: a scalar, an array, or an object of ordered key/value pairs.
#[derive(Debug, PartialEq)]
pub enum JsonValue {
    Primitive(StringOrNumberOrBoolOrNull),
    Array(Vec<JsonValue>),
    Object(Vec<(String, JsonValue)>),
}

/// The mathematical form of a scalar, over sequences of characters.
#[verifier::ext_equal]
pub enum PrimModel {
    Null,
    Bool(bool),
    Num(Seq<char>),
    Str(Seq<char>),
}

/// The mathematical form of a value: what the contracts of the codec speak of.
#[verifier::ext_equal]
pub enum ValueModel {
    Prim(PrimModel),
    Arr(Seq<ValueModel>),
    Obj(Seq<(Seq<char>, ValueModel)>),
}

impl StringOrNumberOrBoolOrNull {
    /// The mathematical form of this scalar.
    pub open spec fn m(self) -> PrimModel {
        match self {
            StringOrNumberOrBoolOrNull::Null => PrimModel::Null,
            StringOrNumberOrBoolOrNull::Bool(b) => PrimModel::Bool(b),
            StringOrNumberOrBoolOrNull::Number(t) => PrimModel::Num(t@),
            StringOrNumberOrBoolOrNull::String(s) => PrimModel::Str(s@),
        }
    }
}

impl JsonValue {
    /// The mathematical form of this value.
    pub open spec fn m(self) -> ValueModel
        decreases self,
    {
        match self {
            JsonValue::Primitive(p) => ValueModel::Prim(p.m()),
            JsonValue::Array(items) => ValueModel::Arr(seq_m(items@)),
            JsonValue::Object(entries) => ValueModel::Obj(entries_m(entries@)),
        }
    }
}

/// The mathematical forms of the values of a sequence, in order.
pub open spec fn seq_m(s: Seq<JsonValue>) -> Seq<ValueModel>
    decreases s,
{
    if s.len() == 0 {
        Seq::empty()
    } else {
        seq![s[0].m()] + seq_m(s.drop_first())
    }
}

/// The mathematical forms of the entries of an object, in order.
pub open spec fn entries_m(s: Seq<(String, JsonValue)>) -> Seq<(Seq<char>, ValueModel)>
    decreases s,
{
    if s.len() == 0 {
        Seq::empty()
    } else {
        seq![(s[0].0@, s[0].1.m())] + entries_m(s.drop_first())
    }
}

/// `seq_m` maps each element to its mathematical form.
pub proof fn lemma_seq_m(s: Seq<JsonValue>)
    ensures
        seq_m(s).len() == s.len(),
        forall|i: int| 0 <= i < s.len() ==> seq_m(s)[i] == #[trigger] s[i].m(),
    decreases s.len(),
{
    if s.len() > 0 {
        lemma_seq_m(s.drop_first());
        assert forall|i: int| 0 <= i < s.len() implies seq_m(s)[i] == #[trigger] s[i].m() by {
            if i > 0 {
                assert(s.drop_first()[i - 1] == s[i]);
                assert(seq_m(s)[i] == seq_m(s.drop_first())[i - 1]);
            }
        }
    }
}

/// `entries_m` maps each entry to its key's characters and its value's form.
pub proof fn lemma_entries_m(s: Seq<(String, JsonValue)>)
    ensures
        entries_m(s).len() == s.len(),
        forall|i: int| 0 <= i < s.len() ==> entries_m(s)[i] == (
        #[trigger] s[i].0@,
        s[i].1.m(),
        ),
    decreases s.len(),
{
    if s.len() > 0 {
        lemma_entries_m(s.drop_first());
        assert forall|i: int| 0 <= i < s.len() implies entries_m(s)[i] == (
        #[trigger] s[i].0@,
        s[i].1.m(),
        ) by {
            if i > 0 {
                assert(s.drop_first()[i - 1] == s[i]);
                assert(entries_m(s)[i] == entries_m(s.drop_first())[i - 1]);
            }
        }
    }
}

/// Pushing one value appends its mathematical form.
pub proof fn lemma_seq_m_push(pre: Seq<JsonValue>, post: Seq<JsonValue>, v: ValueModel)
    requires
        post.len() == pre.len() + 1,
        forall|x: int| 0 <= x < pre.len() ==> post[x] == pre[x],
        post[pre.len() as int].m() == v,
    ensures
        seq_m(post) == seq_m(pre).push(v),
{
    lemma_seq_m(pre);
    lemma_seq_m(post);
    assert forall|x: int| 0 <= x < post.len() implies seq_m(post)[x] == seq_m(pre).push(v)[x] by {
        assert(seq_m(post)[x] == post[x].m());
        if x < pre.len() {
            assert(post[x] == pre[x]);
            assert(seq_m(pre)[x] == pre[x].m());
        }
    }
    assert(seq_m(post) =~= seq_m(pre).push(v));
}

/// A deep copy of a scalar, equal to the original in its mathematical form.
fn clone_prim(p: &StringOrNumberOrBoolOrNull) -> (res: StringOrNumberOrBoolOrNull)
    ensures
        res.m() == p.m(),
{
    match p {
        StringOrNumberOrBoolOrNull::Null => StringOrNumberOrBoolOrNull::Null,
        StringOrNumberOrBoolOrNull::Bool(b) => StringOrNumberOrBoolOrNull::Bool(*b),
        StringOrNumberOrBoolOrNull::Number(t) => StringOrNumberOrBoolOrNull::Number(t.clone()),
        StringOrNumberOrBoolOrNull::String(s) => StringOrNumberOrBoolOrNull::String(s.clone()),
    }
}

/// A deep copy of a value, equal to the original in its mathematical form.
#[verifier::loop_isolation(false)]
fn clone_value(v: &JsonValue) -> (res: JsonValue)
    ensures
        res.m() == v.m(),
    decreases *v,
{
    match v {
        JsonValue::Primitive(p) => JsonValue::Primitive(clone_prim(p)),
        JsonValue::Array(items) => {
            let mut out: Vec<JsonValue> = Vec::new();
            let mut i: usize = 0;
            while i < items.len()
                invariant
                    i <= items@.len(),
                    out@.len() == i,
                    forall|j: int| 0 <= j < i ==> out@[j].m() == items@[j].m(),
                decreases items@.len() - i,
            {
                proof {
                    assert(decreases_to!(*v => *items));
                    assert(decreases_to!(*items => items@));
                    assert(decreases_to!(items@ => items@[i as int]));
                }
                out.push(clone_value(&items[i]));
                i = i + 1;
            }
            proof {
                lemma_seq_m(out@);
                lemma_seq_m(items@);
                assert forall|k: int| 0 <= k < items@.len() implies seq_m(out@)[k] == seq_m(
                    items@,
                )[k] by {
                    assert(out@[k].m() == items@[k].m());
                }
                assert(seq_m(out@) =~= seq_m(items@));
            }
            JsonValue::Array(out)
        },
        JsonValue::Object(entries) => {
            let mut out: Vec<(String, JsonValue)> = Vec::new();
            let mut i: usize = 0;
            while i < entries.len()
                invariant
                    i <= entries@.len(),
                    out@.len() == i,
                    forall|j: int| 0 <= j < i ==> out@[j].0@ == entries@[j].0@ && out@[j].1.m()
                        == entries@[j].1.m(),
                decreases entries@.len() - i,
            {
                proof {
                    assert(decreases_to!(*v => *entries));
                    assert(decreases_to!(*entries => entries@));
                    assert(decreases_to!(entries@ => entries@[i as int]));
                    assert(decreases_to!(entries@[i as int] => entries@[i as int].1));
                }
                let key = entries[i].0.clone();
                let val = clone_value(&entries[i].1);
                out.push((key, val));
                i = i + 1;
            }
            proof {
                lemma_entries_m(out@);
                lemma_entries_m(entries@);
                assert forall|k: int| 0 <= k < entries@.len() implies entries_m(out@)[k]
                    == entries_m(entries@)[k] by {
                    assert(out@[k].0@ == entries@[k].0@);
                    assert(out@[k].1.m() == entries@[k].1.m());
                }
                assert(entries_m(out@) =~= entries_m(entries@));
            }
            JsonValue::Object(out)
        },
    }
}

impl Clone for StringOrNumberOrBoolOrNull {
    /// A deep copy, equal to the original in its mathematical form.
    fn clone(&self) -> (res: Self)
        ensures
            res.m() == self.m(),
    {
        clone_prim(self)
    }
}

impl Clone for JsonValue {
    /// A deep copy, equal to the original in its mathematical form.
    fn clone(&self) -> (res: Self)
        ensures
            res.m() == self.m(),
    {
        clone_value(self)
    }
}

} // verus!

use vstd::prelude::*;

verus! {

/// A generic value tree: the shape shared with the interchange format.
/// An object is a sequence of key/value pairs in insertion order.
#[derive(Debug, PartialEq)]
pub enum Value {
    String(String),
    /// A number, held as its text (a run of digits when read from the notation).
    Number(String),
    Boolean(bool),
    Null,
    Array(Vec<Value>),
    Object(Vec<(String, Value)>),
}

/// The mathematical form of a value tree.
pub enum ValueModel {
    Str(Seq<char>),
    Num(Seq<char>),
    Bool(bool),
    Null,
    Arr(Seq<ValueModel>),
    Obj(Seq<(Seq<char>, ValueModel)>),
}

/// The model of a value tree.
pub open spec fn model(v: Value) -> ValueModel
    decreases v,
{
    match v {
        Value::String(s) => ValueModel::Str(s@),
        Value::Number(n) => ValueModel::Num(n@),
        Value::Boolean(b) => ValueModel::Bool(b),
        Value::Null => ValueModel::Null,
        Value::Array(a) => ValueModel::Arr(
            Seq::new(a.len() as nat, |i: int| if 0 <= i < a.len() { model(a@[i]) } else { ValueModel::Null }),
        ),
        Value::Object(o) => ValueModel::Obj(
            Seq::new(
                o.len() as nat,
                |i: int| if 0 <= i < o.len() { (o@[i].0@, model(o@[i].1)) } else { (Seq::empty(), ValueModel::Null) },
            ),
        ),
    }
}

impl View for Value {
    type V = ValueModel;

    open spec fn view(&self) -> ValueModel {
        model(*self)
    }
}

/// The models of a sequence of values.
pub open spec fn values_view(a: Seq<Value>) -> Seq<ValueModel> {
    Seq::new(a.len(), |i: int| a[i]@)
}

/// The models of a sequence of key/value pairs.
pub open spec fn pairs_view(o: Seq<(String, Value)>) -> Seq<(Seq<char>, ValueModel)> {
    Seq::new(o.len(), |i: int| (o[i].0@, o[i].1@))
}

/// No key occurs twice.
pub open spec fn keys_unique(o: Seq<(Seq<char>, ValueModel)>) -> bool {
    forall|i: int, j: int| 0 <= i < j < o.len() ==> #[trigger] o[i].0 != #[trigger] o[j].0
}

/// The pairs `o` with `k` bound to `v`: in place where `k` is already a key,
/// else appended.
pub open spec fn obj_insert(o: Seq<(Seq<char>, ValueModel)>, k: Seq<char>, v: ValueModel) -> Seq<
    (Seq<char>, ValueModel),
> {
    if exists|i: int| 0 <= i < o.len() && #[trigger] o[i].0 == k {
        let i = choose|i: int| 0 <= i < o.len() && #[trigger] o[i].0 == k;
        o.update(i, (k, v))
    } else {
        o.push((k, v))
    }
}

/// The model of an array is the models of its elements.
pub proof fn lemma_array_view(a: Vec<Value>)
    ensures
        Value::Array(a)@ == ValueModel::Arr(values_view(a@)),
{
    let v = Value::Array(a)@;
    if let ValueModel::Arr(x) = v {
        assert(x =~= values_view(a@));
    }
}

/// The model of an object is the models of its pairs.
pub proof fn lemma_object_view(o: Vec<(String, Value)>)
    ensures
        Value::Object(o)@ == ValueModel::Obj(pairs_view(o@)),
{
    let v = Value::Object(o)@;
    if let ValueModel::Obj(x) = v {
        assert(x =~= pairs_view(o@));
    }
}

/// Binds `key` to `value` in the pairs `o`: in place where `key` is already
/// present, else at the end.
pub fn object_insert(o: &mut Vec<(String, Value)>, key: String, value: Value)
    requires
        keys_unique(pairs_view(old(o)@)),
    ensures
        pairs_view(final(o)@) == obj_insert(pairs_view(old(o)@), key@, value@),
        keys_unique(pairs_view(final(o)@)),
{
    let ghost m = pairs_view(o@);
    let mut idx: usize = 0;
    while idx < o.len()
        invariant
            idx <= o.len(),
            o@ == old(o)@,
            m == pairs_view(o@),
            keys_unique(m),
            forall|j: int| 0 <= j < idx ==> m[j].0 != key@,
        decreases o.len() - idx,
    {
        if o[idx].0 == key {
            assert(m[idx as int].0 == key@);
            o[idx] = (key, value);
            proof {
                assert(pairs_view(o@) =~= m.update(idx as int, (key@, value@)));
            }
            return;
        }
        idx = idx + 1;
    }
    proof {
        assert(!exists|i: int| 0 <= i < m.len() && #[trigger] m[i].0 == key@);
    }
    o.push((key, value));
    proof {
        assert(pairs_view(o@) =~= m.push((key@, value@)));
    }
}

} // verus!

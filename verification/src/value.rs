use vstd::prelude::*;

verus! {

broadcast use {vstd::std_specs::vec::group_vec_axioms, vstd::seq::group_seq_axioms};

/// A document value (JSON, or TOML read the same way) as the
/// specifications see it. An object lists its keys and, at the same
/// positions, their values, in the order the document gives them.
pub enum ValueModel {
    Null,
    Bool(bool),
    Number(Seq<char>),
    Str(Seq<char>),
    Array(Seq<ValueModel>),
    Object(Seq<Seq<char>>, Seq<ValueModel>),
}

/// One key of an object with its value.
pub struct Member {
    pub key: String,
    pub value: Value,
}

/// A JSON document, or a TOML document read as one: tables are objects,
/// numbers and dates keep their text.
pub enum Value {
    Null,
    Bool(bool),
    Number(String),
    Str(String),
    Array(Vec<Value>),
    Object(Vec<Member>),
}

impl View for Value {
    type V = ValueModel;

    open spec fn view(&self) -> ValueModel
        decreases self,
    {
        match self {
            Value::Null => ValueModel::Null,
            Value::Bool(b) => ValueModel::Bool(*b),
            Value::Number(n) => ValueModel::Number(n@),
            Value::Str(s) => ValueModel::Str(s@),
            Value::Array(items) => ValueModel::Array(
                Seq::new(items@.len(), |i: int| if 0 <= i < items@.len() { items@[i].view() } else { ValueModel::Null }),
            ),
            Value::Object(fields) => ValueModel::Object(
                Seq::new(fields@.len(), |i: int| fields@[i].key@),
                Seq::new(
                    fields@.len(),
                    |i: int|
                        if 0 <= i < fields@.len() {
                            fields@[i].value.view()
                        } else {
                            ValueModel::Null
                        },
                ),
            ),
        }
    }
}

/// The position of the first `k` in `ks` at or after `from`.
pub open spec fn find_key(ks: Seq<Seq<char>>, k: Seq<char>, from: int) -> Option<int>
    decreases ks.len() - from,
{
    if from < 0 || from >= ks.len() {
        None
    } else if ks[from] == k {
        Some(from)
    } else {
        find_key(ks, k, from + 1)
    }
}

pub proof fn lemma_find_key(ks: Seq<Seq<char>>, k: Seq<char>, from: int)
    requires
        0 <= from,
    ensures
        find_key(ks, k, from) matches Some(i) ==> from <= i < ks.len() && ks[i] == k && forall|
            j: int,
        |
            from <= j < i ==> ks[j] != k,
        find_key(ks, k, from) is None ==> forall|j: int| from <= j < ks.len() ==> ks[j] != k,
    decreases ks.len() - from,
{
    if from < ks.len() && ks[from] != k {
        lemma_find_key(ks, k, from + 1);
    }
}

impl ValueModel {
    /// The value of key `k` of an object, as `serde_json::Value::get` gives it.
    pub open spec fn field(self, k: Seq<char>) -> Option<ValueModel> {
        match self {
            ValueModel::Object(ks, vs) => match find_key(ks, k, 0) {
                Some(i) => Some(vs[i]),
                None => None,
            },
            _ => None,
        }
    }

    /// The text of a string value.
    pub open spec fn text(self) -> Option<Seq<char>> {
        match self {
            ValueModel::Str(s) => Some(s),
            _ => None,
        }
    }

    /// The text of a string value, or the empty text for any other value.
    pub open spec fn text_or_empty(self) -> Seq<char> {
        match self {
            ValueModel::Str(s) => s,
            _ => Seq::empty(),
        }
    }

    /// `field(k)` followed by `text()`.
    pub open spec fn field_text(self, k: Seq<char>) -> Option<Seq<char>> {
        match self.field(k) {
            Some(v) => v.text(),
            None => None,
        }
    }
}

impl Value {
    /// The value of key `k`, when `self` is an object that has it.
    pub fn get(&self, k: &str) -> (r: Option<&Value>)
        ensures
            r is Some <==> self@.field(k@) is Some,
            r matches Some(v) ==> v@ == self@.field(k@)->0,
    {
        match self {
            Value::Object(fields) => {
                let ghost ks = self@->Object_0;
                proof {
                    lemma_find_key(ks, k@, 0);
                }
                let mut i: usize = 0;
                while i < fields.len()
                    invariant
                        *self == Value::Object(*fields),
                        ks == self@->Object_0,
                        ks.len() == fields@.len(),
                        forall|j: int| 0 <= j < fields@.len() ==> ks[j] == (#[trigger] fields@[j]).key@,
                        i <= fields@.len(),
                        forall|j: int| 0 <= j < i ==> ks[j] != k@,
                    decreases fields@.len() - i,
                {
                    if crate::text::str_eq(fields[i].key.as_str(), k) {
                        proof {
                            lemma_find_key(ks, k@, 0);
                            let f = find_key(ks, k@, 0);
                            if f is None {
                                assert(ks[i as int] == k@);
                            } else {
                                let fi = f->0;
                                assert(fi == i) by {
                                    if fi < i {
                                        assert(ks[fi] != k@);
                                    }
                                    if fi > i {
                                        assert(ks[i as int] == k@);
                                    }
                                }
                            }
                        }
                        return Some(&fields[i].value);
                    }
                    i = i + 1;
                }
                proof {
                    lemma_find_key(ks, k@, 0);
                    if find_key(ks, k@, 0) is Some {
                        let fi = find_key(ks, k@, 0)->0;
                        assert(ks[fi] == k@);
                    }
                }
                None
            },
            _ => None,
        }
    }

    /// The text of a string value.
    pub fn as_str(&self) -> (r: Option<&String>)
        ensures
            r is Some <==> self@.text() is Some,
            r matches Some(s) ==> s@ == self@.text()->0,
    {
        match self {
            Value::Str(s) => Some(s),
            _ => None,
        }
    }

    /// `get(k)` followed by `as_str()`.
    pub fn get_str(&self, k: &str) -> (r: Option<&String>)
        ensures
            r is Some <==> self@.field_text(k@) is Some,
            r matches Some(s) ==> s@ == self@.field_text(k@)->0,
    {
        match self.get(k) {
            Some(v) => v.as_str(),
            None => None,
        }
    }

    pub fn deep_clone(&self) -> (r: Value)
        ensures
            r@ == self@,
        decreases self,
    {
        match self {
            Value::Null => {
                let r = Value::Null;
                assert(r@ == ValueModel::Null);
                r
            },
            Value::Bool(b) => { let r = Value::Bool(*b); assert(r@ == self@); r },
            Value::Number(n) => { let r = Value::Number(n.clone()); assert(r@ == self@); r },
            Value::Str(s) => { let r = Value::Str(s.clone()); assert(r@ == self@); r },
            Value::Array(items) => {
                let mut out: Vec<Value> = Vec::new();
                let mut i: usize = 0;
                while i < items.len()
                    invariant
                        *self == Value::Array(*items),
                        i <= items.len(),
                        out@.len() == i,
                        forall|j: int| 0 <= j < i ==> (#[trigger] out@[j])@ == items@[j]@,
                    decreases items.len() - i,
                {
                    proof {
                        assert(decreases_to!(*items => items[i as int]));
                        assert(decreases_to!(*self => (*self)->Array_0));
                        assert(decreases_to!(*self => items[i as int]));
                    }
                    let c = items[i].deep_clone();
                    out.push(c);
                    i = i + 1;
                }
                let r = Value::Array(out);
                assert(r@->Array_0 =~= self@->Array_0);
                r
            },
            Value::Object(fields) => {
                let mut out: Vec<Member> = Vec::new();
                let mut i: usize = 0;
                while i < fields.len()
                    invariant
                        *self == Value::Object(*fields),
                        i <= fields.len(),
                        out@.len() == i,
                        forall|j: int|
                            0 <= j < i ==> (#[trigger] out@[j]).key@ == fields@[j].key@
                                && out@[j].value@ == fields@[j].value@,
                    decreases fields.len() - i,
                {
                    proof {
                        assert(decreases_to!(*fields => fields[i as int]));
                        assert(decreases_to!(*self => (*self)->Object_0));
                        assert(decreases_to!(fields[i as int] => fields[i as int].value));
                    }
                    let k = fields[i].key.clone();
                    let c = fields[i].value.deep_clone();
                    out.push(Member { key: k, value: c });
                    i = i + 1;
                }
                let r = Value::Object(out);
                assert(r@->Object_0 =~= self@->Object_0);
                assert(r@->Object_1 =~= self@->Object_1);
                r
            },
        }
    }
}

} // verus!

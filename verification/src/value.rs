use vstd::prelude::*;

verus! {

/// The mathematical model of a JSON tree: what every contract of this crate
/// speaks about. Numbers are carried either as exact integers or, where the
/// source text was not an integer in range, as the verbatim literal.
#[verifier::ext_equal]
pub enum JVal {
    Null,
    Bool(bool),
    Int(int),
    Num(Seq<char>),
    Str(Seq<char>),
    Arr(Seq<JVal>),
    Obj(Seq<(Seq<char>, JVal)>),
}

/// A JSON tree value: the single data model this engine stores and rewrites.
/// `Int` holds a number literal that is an integer representable in an `i64`;
/// `Num` keeps any other number literal verbatim, so that serializing emits
/// the digits that were parsed and round-trips exactly.
pub enum Value {
    Null,
    Bool(bool),
    Int(i64),
    Num(String),
    Str(String),
    Arr(Vec<Value>),
    Obj(Vec<(String, Value)>),
}

impl Value {
    /// The model of this tree.
    pub open spec fn model(self) -> JVal
        decreases self, 0int,
    {
        match self {
            Value::Null => JVal::Null,
            Value::Bool(b) => JVal::Bool(b),
            Value::Int(i) => JVal::Int(i as int),
            Value::Num(s) => JVal::Num(s@),
            Value::Str(s) => JVal::Str(s@),
            Value::Arr(a) => JVal::Arr(Value::model_elems(a@)),
            Value::Obj(m) => JVal::Obj(Value::model_fields(m@)),
        }
    }

    /// The models of the elements of an array, in order.
    pub open spec fn model_elems(a: Seq<Value>) -> Seq<JVal>
        decreases a, 1int,
    {
        if a.len() == 0 {
            Seq::empty()
        } else {
            seq![a[0].model()] + Value::model_elems(a.drop_first())
        }
    }

    /// The models of the fields of an object, in order.
    pub open spec fn model_fields(m: Seq<(String, Value)>) -> Seq<(Seq<char>, JVal)>
        decreases m, 1int,
    {
        if m.len() == 0 {
            Seq::empty()
        } else {
            seq![(m[0].0@, m[0].1.model())] + Value::model_fields(m.drop_first())
        }
    }
}

impl View for Value {
    type V = JVal;

    open spec fn view(&self) -> JVal {
        self.model()
    }
}

} // verus!

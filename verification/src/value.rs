//! Component model types and the values that inhabit them.
//!
//! [`Type`] and [`Val`] hold as plain data what decoding reads and produces. Floating point
//! values are held by their bit patterns, and resource types by a number that the host assigns.
use vstd::prelude::*;

verus! {

/// A named record field.
#[derive(Debug, PartialEq, Eq)]
pub struct Field {
    pub name: String,
    pub ty: Type,
}

/// A named variant case, with the type of its payload if it carries one.
#[derive(Debug, PartialEq, Eq)]
pub struct Case {
    pub name: String,
    pub ty: Option<Type>,
}

/// A component model type.
#[derive(Debug, PartialEq, Eq)]
pub enum Type {
    Bool,
    U8,
    U16,
    U32,
    U64,
    S8,
    S16,
    S32,
    S64,
    Float32,
    Float64,
    Char,
    String,
    List(Box<Type>),
    Record(Vec<Field>),
    Tuple(Vec<Type>),
    Variant(Vec<Case>),
    Enum(Vec<String>),
    Option(Box<Type>),
    Result { ok: Option<Box<Type>>, err: Option<Box<Type>> },
    Flags(Vec<String>),
    /// An owned handle to a resource of the given type.
    Own(u32),
    /// A borrowed handle to a resource of the given type.
    Borrow(u32),
}

/// A component model value.
#[derive(Debug, PartialEq, Eq)]
pub enum Val {
    Bool(bool),
    U8(u8),
    U16(u16),
    U32(u32),
    U64(u64),
    S8(i8),
    S16(i16),
    S32(i32),
    S64(i64),
    /// The bits of a single precision number.
    Float32(u32),
    /// The bits of a double precision number.
    Float64(u64),
    Char(char),
    String(String),
    List(Vec<Val>),
    Record(Vec<(String, Val)>),
    Tuple(Vec<Val>),
    Variant { name: String, value: Option<Box<Val>> },
    Enum(String),
    Option(Option<Box<Val>>),
    Result(Result<Option<Box<Val>>, Option<Box<Val>>>),
    Flags(Vec<String>),
}

/// The mathematical content of a [`Val`].
#[verifier::ext_equal]
pub enum ValModel {
    Bool(bool),
    U8(u8),
    U16(u16),
    U32(u32),
    U64(u64),
    S8(i8),
    S16(i16),
    S32(i32),
    S64(i64),
    Float32(u32),
    Float64(u64),
    Char(char),
    String(Seq<char>),
    List(Seq<ValModel>),
    Record(Seq<(Seq<char>, ValModel)>),
    Tuple(Seq<ValModel>),
    Variant { name: Seq<char>, value: Option<Box<ValModel>> },
    Enum(Seq<char>),
    Option(Option<Box<ValModel>>),
    Result(Result<Option<Box<ValModel>>, Option<Box<ValModel>>>),
    Flags(Seq<Seq<char>>),
}

/// The content of a boxed value.
pub open spec fn boxed_model(v: Option<Box<Val>>) -> Option<Box<ValModel>>
    decreases v,
{
    match v {
        Some(v) => Some(Box::new(v.model())),
        None => None,
    }
}

/// The content of each name.
pub open spec fn names_model(names: Seq<String>) -> Seq<Seq<char>> {
    Seq::new(names.len(), |i: int| names[i]@)
}

impl Val {
    /// The content of the value.
    pub open spec fn model(self) -> ValModel
        decreases self,
    {
        match self {
            Val::Bool(v) => ValModel::Bool(v),
            Val::U8(v) => ValModel::U8(v),
            Val::U16(v) => ValModel::U16(v),
            Val::U32(v) => ValModel::U32(v),
            Val::U64(v) => ValModel::U64(v),
            Val::S8(v) => ValModel::S8(v),
            Val::S16(v) => ValModel::S16(v),
            Val::S32(v) => ValModel::S32(v),
            Val::S64(v) => ValModel::S64(v),
            Val::Float32(v) => ValModel::Float32(v),
            Val::Float64(v) => ValModel::Float64(v),
            Val::Char(v) => ValModel::Char(v),
            Val::String(v) => ValModel::String(v@),
            Val::List(vs) => ValModel::List(
                Seq::new(
                    vs@.len(),
                    |i: int|
                        if 0 <= i < vs@.len() {
                            vs@[i].model()
                        } else {
                            arbitrary()
                        },
                ),
            ),
            Val::Record(vs) => ValModel::Record(
                Seq::new(
                    vs@.len(),
                    |i: int|
                        if 0 <= i < vs@.len() {
                            (vs@[i].0@, vs@[i].1.model())
                        } else {
                            arbitrary()
                        },
                ),
            ),
            Val::Tuple(vs) => ValModel::Tuple(
                Seq::new(
                    vs@.len(),
                    |i: int|
                        if 0 <= i < vs@.len() {
                            vs@[i].model()
                        } else {
                            arbitrary()
                        },
                ),
            ),
            Val::Variant { name, value } => ValModel::Variant {
                name: name@,
                value: boxed_model(value),
            },
            Val::Enum(name) => ValModel::Enum(name@),
            Val::Option(v) => ValModel::Option(boxed_model(v)),
            Val::Result(Ok(v)) => ValModel::Result(Ok(boxed_model(v))),
            Val::Result(Err(v)) => ValModel::Result(Err(boxed_model(v))),
            Val::Flags(names) => ValModel::Flags(names_model(names@)),
        }
    }
}

impl View for Val {
    type V = ValModel;

    open spec fn view(&self) -> ValModel {
        self.model()
    }
}

/// The content of each value.
pub open spec fn vals_model(vs: Seq<Val>) -> Seq<ValModel> {
    Seq::new(vs.len(), |i: int| vs[i]@)
}

/// The content of a value that holds others is made of theirs.
pub proof fn lemma_model(v: Val)
    ensures
        v matches Val::List(vs) ==> v@ == ValModel::List(vals_model(vs@)),
        v matches Val::Tuple(vs) ==> v@ == ValModel::Tuple(vals_model(vs@)),
        v matches Val::Record(fields) ==> v@ == ValModel::Record(
            Seq::new(fields@.len(), |i: int| (fields@[i].0@, fields@[i].1@)),
        ),
        v matches Val::Variant { name, value } ==> v@ == (ValModel::Variant {
            name: name@,
            value: boxed_model(value),
        }),
        v matches Val::Option(v0) ==> v@ == ValModel::Option(boxed_model(v0)),
        v matches Val::Result(Ok(v0)) ==> v@ == ValModel::Result(Ok(boxed_model(v0))),
        v matches Val::Result(Err(v0)) ==> v@ == ValModel::Result(Err(boxed_model(v0))),
{
    match v {
        Val::List(vs) => {
            assert(v@->List_0 =~= vals_model(vs@));
        },
        Val::Tuple(vs) => {
            assert(v@->Tuple_0 =~= vals_model(vs@));
        },
        Val::Record(fields) => {
            assert(v@->Record_0 =~= Seq::new(
                fields@.len(),
                |i: int| (fields@[i].0@, fields@[i].1@),
            ));
        },
        _ => {},
    }
}

/// The content of a value is what it holds: the number, the characters, or the content of what it
/// is made of, each in its place.
pub proof fn value_content(v: Val)
    ensures
        match v {
            Val::Bool(x) => v@ == ValModel::Bool(x),
            Val::U8(x) => v@ == ValModel::U8(x),
            Val::U16(x) => v@ == ValModel::U16(x),
            Val::U32(x) => v@ == ValModel::U32(x),
            Val::U64(x) => v@ == ValModel::U64(x),
            Val::S8(x) => v@ == ValModel::S8(x),
            Val::S16(x) => v@ == ValModel::S16(x),
            Val::S32(x) => v@ == ValModel::S32(x),
            Val::S64(x) => v@ == ValModel::S64(x),
            Val::Float32(x) => v@ == ValModel::Float32(x),
            Val::Float64(x) => v@ == ValModel::Float64(x),
            Val::Char(x) => v@ == ValModel::Char(x),
            Val::String(x) => v@ == ValModel::String(x@),
            Val::Enum(x) => v@ == ValModel::Enum(x@),
            Val::List(xs) => v@ matches ValModel::List(ms) && ms.len() == xs@.len()
                && forall|i: int|
                0 <= i < xs@.len() ==> #[trigger] ms[i] == xs@[i]@,
            Val::Tuple(xs) => v@ matches ValModel::Tuple(ms) && ms.len() == xs@.len()
                && forall|i: int| 0 <= i < xs@.len() ==> #[trigger] ms[i] == xs@[i]@,
            Val::Record(xs) => v@ matches ValModel::Record(ms) && ms.len() == xs@.len()
                && forall|i: int|
                0 <= i < xs@.len() ==> (#[trigger] ms[i]).0 == xs@[i].0@ && ms[i].1 == xs@[i].1@,
            Val::Flags(xs) => v@ matches ValModel::Flags(ms) && ms.len() == xs@.len()
                && forall|i: int| 0 <= i < xs@.len() ==> #[trigger] ms[i] == xs@[i]@,
            Val::Variant { name, value: None } => v@ == (ValModel::Variant {
                name: name@,
                value: None,
            }),
            Val::Variant { name, value: Some(x) } => v@ == (ValModel::Variant {
                name: name@,
                value: Some(Box::new(x@)),
            }),
            Val::Option(None) => v@ == ValModel::Option(None),
            Val::Option(Some(x)) => v@ == ValModel::Option(Some(Box::new(x@))),
            Val::Result(Ok(None)) => v@ == ValModel::Result(Ok(None)),
            Val::Result(Ok(Some(x))) => v@ == ValModel::Result(Ok(Some(Box::new(x@)))),
            Val::Result(Err(None)) => v@ == ValModel::Result(Err(None)),
            Val::Result(Err(Some(x))) => v@ == ValModel::Result(Err(Some(Box::new(x@)))),
        },
{
    lemma_model(v);
}

/// The content of values, and of names, is that of each.
pub proof fn contents_of_each(vs: Seq<Val>, names: Seq<String>)
    ensures
        vals_model(vs).len() == vs.len(),
        forall|i: int| 0 <= i < vs.len() ==> #[trigger] vals_model(vs)[i] == vs[i]@,
        names_model(names).len() == names.len(),
        forall|i: int| 0 <= i < names.len() ==> #[trigger] names_model(names)[i] == names[i]@,
{
}

} // verus!

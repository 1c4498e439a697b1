use vstd::prelude::*;

verus! {

/// Identity token for the abstract input and output types a node capability
/// declares. The engine compares these tokens to validate wiring; it never
/// inspects values structurally. `Unit` is the distinguished "no input"
/// identity: a node whose input identity is `Unit` is a pure source and is
/// invoked with an empty input sequence.
#[derive(Clone, Copy, Debug, PartialEq, Eq, Structural)]
pub enum TypeTag {
    Unit,
    Num,
    Truth,
}

/// A type-erased value flowing along graph edges and stored in the compiled
/// pipeline's scratch cells.
#[derive(Clone, Copy, Debug, PartialEq, Eq, Structural)]
pub enum Value {
    Unit,
    Num(i64),
    Truth(bool),
}

impl Value {
    /// The type identity of this value.
    pub open spec fn spec_tag(self) -> TypeTag {
        match self {
            Value::Unit => TypeTag::Unit,
            Value::Num(_) => TypeTag::Num,
            Value::Truth(_) => TypeTag::Truth,
        }
    }

    pub fn tag(&self) -> (t: TypeTag)
        ensures
            t == self.spec_tag(),
    {
        match self {
            Value::Unit => TypeTag::Unit,
            Value::Num(_) => TypeTag::Num,
            Value::Truth(_) => TypeTag::Truth,
        }
    }

    /// Reading a value as a number; anything non-numeric reads as zero.
    pub open spec fn spec_as_num(self) -> i64 {
        match self {
            Value::Num(n) => n,
            _ => 0,
        }
    }

    pub fn as_num(&self) -> (n: i64)
        ensures
            n == self.spec_as_num(),
    {
        match self {
            Value::Num(n) => *n,
            _ => 0,
        }
    }
}

/// The human-readable name of a type identity, used in diagnostics.
pub open spec fn spec_tag_name(t: TypeTag) -> Seq<char> {
    match t {
        TypeTag::Unit => "unit"@,
        TypeTag::Num => "number"@,
        TypeTag::Truth => "truth"@,
    }
}

pub fn tag_name(t: &TypeTag) -> (s: String)
    ensures
        s@ == spec_tag_name(*t),
{
    match t {
        TypeTag::Unit => "unit".to_owned(),
        TypeTag::Num => "number".to_owned(),
        TypeTag::Truth => "truth".to_owned(),
    }
}

} // verus!

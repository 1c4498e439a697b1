use vstd::prelude::*;
use crate::value::{TypeTag, Value};

verus! {

/// The polymorphic capability contract every node kind implements: given an
/// ordered sequence of input values, produce one output value.
///
/// Implementations declare their input and output type identities; the engine
/// queries these identities to validate wiring and never inspects the values
/// structurally. Computation must be a pure function of the capability state
/// and the inputs, which the `compute` contract pins to the spec-level
/// `value_of`. Capabilities must support duplication, since compiled graphs
/// copy node objects out of the builder.
pub trait Compute: Sized {
    /// The declared input type identity.
    spec fn in_tag(&self) -> TypeTag;

    /// The declared output type identity.
    spec fn out_tag(&self) -> TypeTag;

    /// The default output value, usable as initial scratch storage.
    spec fn init_value(&self) -> Value;

    /// The value produced from a given input sequence.
    spec fn value_of(&self, inputs: Seq<Value>) -> Value;

    fn input_type(&self) -> (t: TypeTag)
        ensures
            t == self.in_tag(),
    ;

    fn output_type(&self) -> (t: TypeTag)
        ensures
            t == self.out_tag(),
    ;

    fn init_output(&self) -> (v: Value)
        ensures
            v == self.init_value(),
    ;

    fn compute(&self, inputs: &Vec<Value>) -> (out: Value)
        ensures
            out == self.value_of(inputs@),
    ;

    /// An exact copy of this capability.
    fn duplicate(&self) -> (c: Self)
        ensures
            c == *self,
    ;
}

} // verus!

use vstd::prelude::*;
use crate::compute::Compute;
use crate::value::{TypeTag, Value};

verus! {

/// The default value of a given type identity, used to seed scratch storage.
pub open spec fn spec_default_of(t: TypeTag) -> Value {
    match t {
        TypeTag::Unit => Value::Unit,
        TypeTag::Num => Value::Num(0),
        TypeTag::Truth => Value::Truth(false),
    }
}

pub fn default_of(t: &TypeTag) -> (v: Value)
    ensures
        v == spec_default_of(*t),
{
    match t {
        TypeTag::Unit => Value::Unit,
        TypeTag::Num => Value::Num(0i64),
        TypeTag::Truth => Value::Truth(false),
    }
}

/// Left fold of the inputs under wrapping addition, starting from zero.
pub open spec fn spec_sum_fold(vals: Seq<Value>) -> i64
    decreases vals.len(),
{
    if vals.len() == 0 {
        0i64
    } else {
        vstd::wrapping::i64_specs::wrapping_add(
            vals.last().spec_as_num(),
            spec_sum_fold(vals.drop_last()),
        )
    }
}

/// Left fold of the inputs under wrapping subtraction, starting from zero:
/// each input is taken minus the accumulator so far.
pub open spec fn spec_sub_fold(vals: Seq<Value>) -> i64
    decreases vals.len(),
{
    if vals.len() == 0 {
        0i64
    } else {
        vstd::wrapping::i64_specs::wrapping_sub(
            vals.last().spec_as_num(),
            spec_sub_fold(vals.drop_last()),
        )
    }
}

/// Wrapping product of the inputs; the empty product is one.
pub open spec fn spec_mul_fold(vals: Seq<Value>) -> i64
    decreases vals.len(),
{
    if vals.len() == 0 {
        1i64
    } else {
        vstd::wrapping::i64_specs::wrapping_mul(
            vals.last().spec_as_num(),
            spec_mul_fold(vals.drop_last()),
        )
    }
}

/// A pure source producing a fixed value; it takes no explicit inputs.
#[derive(Clone, Copy, Debug, PartialEq, Eq, Structural)]
pub struct Constant(pub Value);

impl Compute for Constant {
    open spec fn in_tag(&self) -> TypeTag {
        TypeTag::Unit
    }

    open spec fn out_tag(&self) -> TypeTag {
        self.0.spec_tag()
    }

    open spec fn init_value(&self) -> Value {
        spec_default_of(self.0.spec_tag())
    }

    open spec fn value_of(&self, inputs: Seq<Value>) -> Value {
        self.0
    }

    fn input_type(&self) -> (t: TypeTag) {
        TypeTag::Unit
    }

    fn output_type(&self) -> (t: TypeTag) {
        self.0.tag()
    }

    fn init_output(&self) -> (v: Value) {
        let t = self.0.tag();
        default_of(&t)
    }

    fn compute(&self, inputs: &Vec<Value>) -> (out: Value) {
        self.0
    }

    fn duplicate(&self) -> (c: Self) {
        *self
    }
}

/// Sums all numeric inputs under wrapping addition.
#[derive(Clone, Copy, Debug, PartialEq, Eq, Structural)]
pub struct AddInputs {}

impl AddInputs {
    pub fn new() -> (r: Self)
        ensures
            r == (AddInputs {}),
    {
        AddInputs {}
    }
}

impl Compute for AddInputs {
    open spec fn in_tag(&self) -> TypeTag {
        TypeTag::Num
    }

    open spec fn out_tag(&self) -> TypeTag {
        TypeTag::Num
    }

    open spec fn init_value(&self) -> Value {
        Value::Num(0)
    }

    open spec fn value_of(&self, inputs: Seq<Value>) -> Value {
        Value::Num(spec_sum_fold(inputs))
    }

    fn input_type(&self) -> (t: TypeTag) {
        TypeTag::Num
    }

    fn output_type(&self) -> (t: TypeTag) {
        TypeTag::Num
    }

    fn init_output(&self) -> (v: Value) {
        Value::Num(0i64)
    }

    fn compute(&self, inputs: &Vec<Value>) -> (out: Value) {
        let mut acc: i64 = 0;
        let mut i: usize = 0;
        while i < inputs.len()
            invariant
                i <= inputs@.len(),
                acc == spec_sum_fold(inputs@.take(i as int)),
            decreases inputs@.len() - i,
        {
            proof {
                assert(inputs@.take(i + 1).drop_last() =~= inputs@.take(i as int));
                assert(inputs@.take(i + 1).last() == inputs@[i as int]);
            }
            acc = inputs[i].as_num().wrapping_add(acc);
            i = i + 1;
        }
        proof {
            assert(inputs@.take(inputs@.len() as int) =~= inputs@);
        }
        Value::Num(acc)
    }

    fn duplicate(&self) -> (c: Self) {
        *self
    }
}

/// Folds the numeric inputs under wrapping subtraction: each input is taken
/// minus the fold of the inputs before it.
#[derive(Clone, Copy, Debug, PartialEq, Eq, Structural)]
pub struct SubInputs {}

impl SubInputs {
    pub fn new() -> (r: Self)
        ensures
            r == (SubInputs {}),
    {
        SubInputs {}
    }
}

impl Compute for SubInputs {
    open spec fn in_tag(&self) -> TypeTag {
        TypeTag::Num
    }

    open spec fn out_tag(&self) -> TypeTag {
        TypeTag::Num
    }

    open spec fn init_value(&self) -> Value {
        Value::Num(0)
    }

    open spec fn value_of(&self, inputs: Seq<Value>) -> Value {
        Value::Num(spec_sub_fold(inputs))
    }

    fn input_type(&self) -> (t: TypeTag) {
        TypeTag::Num
    }

    fn output_type(&self) -> (t: TypeTag) {
        TypeTag::Num
    }

    fn init_output(&self) -> (v: Value) {
        Value::Num(0i64)
    }

    fn compute(&self, inputs: &Vec<Value>) -> (out: Value) {
        let mut acc: i64 = 0;
        let mut i: usize = 0;
        while i < inputs.len()
            invariant
                i <= inputs@.len(),
                acc == spec_sub_fold(inputs@.take(i as int)),
            decreases inputs@.len() - i,
        {
            proof {
                assert(inputs@.take(i + 1).drop_last() =~= inputs@.take(i as int));
                assert(inputs@.take(i + 1).last() == inputs@[i as int]);
            }
            acc = inputs[i].as_num().wrapping_sub(acc);
            i = i + 1;
        }
        proof {
            assert(inputs@.take(inputs@.len() as int) =~= inputs@);
        }
        Value::Num(acc)
    }

    fn duplicate(&self) -> (c: Self) {
        *self
    }
}

/// Multiplies all numeric inputs under wrapping multiplication.
#[derive(Clone, Copy, Debug, PartialEq, Eq, Structural)]
pub struct MulInputs {}

impl MulInputs {
    pub fn new() -> (r: Self)
        ensures
            r == (MulInputs {}),
    {
        MulInputs {}
    }
}

impl Compute for MulInputs {
    open spec fn in_tag(&self) -> TypeTag {
        TypeTag::Num
    }

    open spec fn out_tag(&self) -> TypeTag {
        TypeTag::Num
    }

    open spec fn init_value(&self) -> Value {
        Value::Num(0)
    }

    open spec fn value_of(&self, inputs: Seq<Value>) -> Value {
        Value::Num(spec_mul_fold(inputs))
    }

    fn input_type(&self) -> (t: TypeTag) {
        TypeTag::Num
    }

    fn output_type(&self) -> (t: TypeTag) {
        TypeTag::Num
    }

    fn init_output(&self) -> (v: Value) {
        Value::Num(0i64)
    }

    fn compute(&self, inputs: &Vec<Value>) -> (out: Value) {
        let mut acc: i64 = 1;
        let mut i: usize = 0;
        while i < inputs.len()
            invariant
                i <= inputs@.len(),
                acc == spec_mul_fold(inputs@.take(i as int)),
            decreases inputs@.len() - i,
        {
            proof {
                assert(inputs@.take(i + 1).drop_last() =~= inputs@.take(i as int));
                assert(inputs@.take(i + 1).last() == inputs@[i as int]);
            }
            acc = inputs[i].as_num().wrapping_mul(acc);
            i = i + 1;
        }
        proof {
            assert(inputs@.take(inputs@.len() as int) =~= inputs@);
        }
        Value::Num(acc)
    }

    fn duplicate(&self) -> (c: Self) {
        *self
    }
}

/// A closed sum of the capability kinds this crate ships, letting one graph
/// mix heterogeneous node kinds under a single capability type.
#[derive(Clone, Copy, Debug, PartialEq, Eq, Structural)]
pub enum Op {
    Constant(Constant),
    Add(AddInputs),
    Sub(SubInputs),
    Mul(MulInputs),
}

impl Compute for Op {
    open spec fn in_tag(&self) -> TypeTag {
        match self {
            Op::Constant(c) => c.in_tag(),
            Op::Add(c) => c.in_tag(),
            Op::Sub(c) => c.in_tag(),
            Op::Mul(c) => c.in_tag(),
        }
    }

    open spec fn out_tag(&self) -> TypeTag {
        match self {
            Op::Constant(c) => c.out_tag(),
            Op::Add(c) => c.out_tag(),
            Op::Sub(c) => c.out_tag(),
            Op::Mul(c) => c.out_tag(),
        }
    }

    open spec fn init_value(&self) -> Value {
        match self {
            Op::Constant(c) => c.init_value(),
            Op::Add(c) => c.init_value(),
            Op::Sub(c) => c.init_value(),
            Op::Mul(c) => c.init_value(),
        }
    }

    open spec fn value_of(&self, inputs: Seq<Value>) -> Value {
        match self {
            Op::Constant(c) => c.value_of(inputs),
            Op::Add(c) => c.value_of(inputs),
            Op::Sub(c) => c.value_of(inputs),
            Op::Mul(c) => c.value_of(inputs),
        }
    }

    fn input_type(&self) -> (t: TypeTag) {
        match self {
            Op::Constant(c) => c.input_type(),
            Op::Add(c) => c.input_type(),
            Op::Sub(c) => c.input_type(),
            Op::Mul(c) => c.input_type(),
        }
    }

    fn output_type(&self) -> (t: TypeTag) {
        match self {
            Op::Constant(c) => c.output_type(),
            Op::Add(c) => c.output_type(),
            Op::Sub(c) => c.output_type(),
            Op::Mul(c) => c.output_type(),
        }
    }

    fn init_output(&self) -> (v: Value) {
        match self {
            Op::Constant(c) => c.init_output(),
            Op::Add(c) => c.init_output(),
            Op::Sub(c) => c.init_output(),
            Op::Mul(c) => c.init_output(),
        }
    }

    fn compute(&self, inputs: &Vec<Value>) -> (out: Value) {
        match self {
            Op::Constant(c) => c.compute(inputs),
            Op::Add(c) => c.compute(inputs),
            Op::Sub(c) => c.compute(inputs),
            Op::Mul(c) => c.compute(inputs),
        }
    }

    fn duplicate(&self) -> (c: Self) {
        *self
    }
}

} // verus!

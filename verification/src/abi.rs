//! The outside crate's description of a contract's interface: how its operations are made.
use vstd::prelude::*;

use fuel_ethabi::operation::Operation;
use fuel_ethabi::{Constructor, Function, Param, StateMutability};

verus! {

/// `fuel_ethabi::operation::Operation`, one entry of a contract's interface.
#[verifier::external_type_specification]
#[verifier::external_body]
pub struct ExOperation(fuel_ethabi::operation::Operation);

/// `fuel_ethabi::Param`, a parameter of such an entry.
#[verifier::external_type_specification]
#[verifier::external_body]
pub struct ExParam(fuel_ethabi::Param);

/// `fuel_ethabi::StateMutability`, with its variants.
#[verifier::external_type_specification]
pub struct ExStateMutability(fuel_ethabi::StateMutability);

/// The entry for a constructor with these parameters.
pub uninterp spec fn constructor_operation(inputs: Seq<Param>) -> Operation;

/// The entry for a function of that name, with these parameters and attributes.
pub uninterp spec fn function_operation(
    name: Seq<char>,
    inputs: Seq<Param>,
    outputs: Seq<Param>,
    constant: Option<bool>,
    state_mutability: StateMutability,
) -> Operation;

/// Makes the variant `fuel_ethabi::operation::Operation::Constructor`. The entry depends on the
/// parameters alone.
#[verifier::external_body]
pub(crate) fn make_constructor_operation(inputs: Vec<Param>) -> (res: Operation)
    ensures
        res == constructor_operation(inputs@),
{
    Operation::Constructor(Constructor { inputs })
}

/// Makes the variant `fuel_ethabi::operation::Operation::Function`. The entry depends on the
/// fields that are given alone.
#[allow(deprecated)]
#[verifier::external_body]
pub(crate) fn make_function_operation(
    name: String,
    inputs: Vec<Param>,
    outputs: Vec<Param>,
    constant: Option<bool>,
    state_mutability: StateMutability,
) -> (res: Operation)
    ensures
        res == function_operation(name@, inputs@, outputs@, constant, state_mutability),
{
    Operation::Function(Function { name, inputs, outputs, constant, state_mutability })
}

/// The clone of a `fuel_ethabi::operation::Operation`, which its crate derives, is that operation.
pub assume_specification[ <fuel_ethabi::operation::Operation as Clone>::clone ](
    operation: &Operation,
) -> (res: Operation)
    ensures
        res == *operation,
;

} // verus!

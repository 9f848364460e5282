//! The `qauc` types and the borrow operation.
use vstd::prelude::*;

use crate::ir::{Body, Op, SOp, Ty, with_op, with_value};

verus! {

/// The qubit type, `!qauc.qbit`.
pub fn qbit_type() -> (t: Ty)
    ensures
        t == Ty::Qbit,
{
    Ty::Qbit
}

/// `!qauc.ref<!qduc.lt, value_type>`.
pub fn ref_type(value_type: Ty) -> (t: Ty)
    ensures
        t == Ty::Ref(Box::new(value_type)),
{
    Ty::Ref(Box::new(value_type))
}

/// `!qauc.unique<!qduc.lt, value_type>`.
pub fn unique_type(value_type: Ty) -> (t: Ty)
    ensures
        t == Ty::Unique(Box::new(value_type)),
{
    Ty::Unique(Box::new(value_type))
}

/// Appends `qauc.borrow` of `value` for `lifetime` to `block`; gives the
/// reference, whose type is a reference to the type of `value`.
pub fn borrow(body: &mut Body, block: usize, value: usize, lifetime: usize) -> (r: usize)
    requires
        (value as int) < old(body)@.types.len(),
    ensures
        r == old(body)@.types.len(),
        final(body)@ == with_op(
            with_value(old(body)@, Ty::Ref(Box::new(old(body)@.types[value as int]))),
            block,
            SOp::Borrow { source: value, lifetime, result: r },
        ),
{
    let ty = ref_type(body.types[value].copy());
    let r = body.new_value(ty);
    body.append(block, Op::Borrow { source: value, lifetime, result: r });
    r
}

} // verus!

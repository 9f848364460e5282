//! The `qduc` lifetime operations.
use vstd::prelude::*;

use crate::ir::{Body, Op, SOp, Ty, with_op, with_value};

verus! {

/// The type of lifetime tokens, `!qduc.lt`.
pub fn lifetime_type() -> (t: Ty)
    ensures
        t == Ty::Lifetime,
{
    Ty::Lifetime
}

/// Appends `qduc.newlft` to `block`; gives the new lifetime's token.
pub fn newlft(body: &mut Body, block: usize) -> (token: usize)
    ensures
        token == old(body)@.types.len(),
        final(body)@ == with_op(
            with_value(old(body)@, Ty::Lifetime),
            block,
            SOp::NewLft { result: token },
        ),
{
    let token = body.new_value(lifetime_type());
    body.append(block, Op::NewLft { result: token });
    token
}

/// Appends `qduc.end` of `lifetime` to `block`.
pub fn end(body: &mut Body, block: usize, lifetime: usize)
    ensures
        final(body)@ == with_op(old(body)@, block, SOp::End { lifetime }),
{
    body.append(block, Op::End { lifetime });
}

} // verus!

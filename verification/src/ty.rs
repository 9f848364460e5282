//! Lowering of source types: their structural shape, and their flattened
//! lowered types.
use vstd::prelude::*;
use vstd::string::StringExecFns;

use crate::error::{LowerError, SLowerError, err_view};
use crate::grammar::Rule;
use crate::ir::Ty;
use crate::tree::{Pair, SPair, pair_view, text_of, lemma_pair_view_children};
use crate::value::{SShape, Shape, shape_view};

verus! {

/// Structural shape of a `ty` node, independent of the lowering of its types
/// (used to un-flatten multi-value call results).
pub open spec fn spec_shape_of_ty(n: SPair) -> SShape
    decreases n,
{
    if n.children.len() == 0 {
        SShape::Single
    } else {
        let inner = n.children[0];
        if inner.rule == Rule::unit_ty {
            SShape::Unit
        } else if inner.rule == Rule::product_ty && inner.children.len() >= 2 {
            SShape::Tuple(
                seq![spec_shape_of_ty(inner.children[0]), spec_shape_of_ty(inner.children[1])],
            )
        } else {
            SShape::Single
        }
    }
}

/// The message for a reference or unique type around a type that does not
/// lower to exactly one type.
pub open spec fn not_single_message(text: Seq<char>) -> Seq<char> {
    "reference/unique wrapping a non-single-valued type is not yet supported: "@ + text
}

/// The flattened lowered types of a `ty` node: none for the unit type, one for
/// a single type, the types of both sides for a pair. A reference or unique
/// type must wrap a type that lowers to exactly one type.
pub open spec fn spec_lower_ty(s: Seq<char>, n: SPair) -> Result<Seq<Ty>, SLowerError>
    decreases n, 1int,
{
    if n.children.len() == 0 {
        Err(SLowerError::UnsupportedType(text_of(s, n)))
    } else {
        let inner = n.children[0];
        if inner.rule == Rule::bool_ty {
            Ok(seq![Ty::I1])
        } else if inner.rule == Rule::unit_ty {
            Ok(Seq::empty())
        } else if inner.rule == Rule::qbit_ty {
            Ok(seq![Ty::Qbit])
        } else if inner.rule == Rule::product_ty && inner.children.len() >= 2 {
            match spec_lower_ty(s, inner.children[0]) {
                Err(e) => Err(e),
                Ok(l) => match spec_lower_ty(s, inner.children[1]) {
                    Err(e) => Err(e),
                    Ok(r) => Ok(l + r),
                },
            }
        } else if (inner.rule == Rule::ref_ty || inner.rule == Rule::unique_ty)
            && inner.children.len() >= 2 {
            match spec_require_single(s, inner.children[1]) {
                Err(e) => Err(e),
                Ok(t) => Ok(
                    seq![
                        if inner.rule == Rule::ref_ty {
                            Ty::Ref(Box::new(t))
                        } else {
                            Ty::Unique(Box::new(t))
                        },
                    ],
                ),
            }
        } else {
            Err(SLowerError::UnsupportedType(text_of(s, inner)))
        }
    }
}

/// The one lowered type of a `ty` node.
pub open spec fn spec_require_single(s: Seq<char>, n: SPair) -> Result<Ty, SLowerError>
    decreases n, 2int,
{
    match spec_lower_ty(s, n) {
        Err(e) => Err(e),
        Ok(ts) => if ts.len() == 1 {
            Ok(ts[0])
        } else {
            Err(SLowerError::UnsupportedType(not_single_message(text_of(s, n))))
        },
    }
}

pub open spec fn tys_result_view(r: Result<Vec<Ty>, LowerError>) -> Result<Seq<Ty>, SLowerError> {
    match r {
        Ok(v) => Ok(v@),
        Err(e) => Err(err_view(e)),
    }
}

/// Structural shape of a `ty` node.
pub fn shape_of_ty(pair: &Pair) -> (r: Shape)
    ensures
        shape_view(r) == spec_shape_of_ty(pair_view(*pair)),
    decreases pair_view(*pair),
{
    proof {
        lemma_pair_view_children(*pair);
    }
    if pair.children.len() == 0 {
        return Shape::Single;
    }
    let inner = &pair.children[0];
    proof {
        lemma_pair_view_children(*inner);
    }
    if inner.rule == Rule::unit_ty {
        Shape::Unit
    } else if inner.rule == Rule::product_ty && inner.children.len() >= 2 {
        let lhs = shape_of_ty(&inner.children[0]);
        let rhs = shape_of_ty(&inner.children[1]);
        let v = vec![lhs, rhs];
        let r = Shape::Tuple(v);
        proof {
            let expect = seq![
                spec_shape_of_ty(pair_view(inner.children@[0])),
                spec_shape_of_ty(pair_view(inner.children@[1])),
            ];
            assert(match shape_view(r) {
                SShape::Tuple(x) => x =~= expect,
                _ => false,
            });
        }
        r
    } else {
        Shape::Single
    }
}

/// Flattened lowered types of a `ty` node: none (unit), one (single), or one
/// per component (tuple).
pub fn lower_ty(pair: &Pair, input: &str) -> (r: Result<Vec<Ty>, LowerError>)
    ensures
        tys_result_view(r) == spec_lower_ty(input@, pair_view(*pair)),
    decreases pair_view(*pair), 1int,
{
    proof {
        lemma_pair_view_children(*pair);
    }
    if pair.children.len() == 0 {
        return Err(LowerError::UnsupportedType(pair.text(input)));
    }
    let inner = &pair.children[0];
    proof {
        lemma_pair_view_children(*inner);
    }
    if inner.rule == Rule::bool_ty {
        let v = vec![Ty::I1];
        assert(v@ =~= seq![Ty::I1]);
        Ok(v)
    } else if inner.rule == Rule::unit_ty {
        let v: Vec<Ty> = Vec::new();
        assert(v@ =~= Seq::<Ty>::empty());
        Ok(v)
    } else if inner.rule == Rule::qbit_ty {
        let v = vec![Ty::Qbit];
        assert(v@ =~= seq![Ty::Qbit]);
        Ok(v)
    } else if inner.rule == Rule::product_ty && inner.children.len() >= 2 {
        let mut lhs = match lower_ty(&inner.children[0], input) {
            Ok(t) => t,
            Err(e) => return Err(e),
        };
        let mut rhs = match lower_ty(&inner.children[1], input) {
            Ok(t) => t,
            Err(e) => return Err(e),
        };
        lhs.append(&mut rhs);
        Ok(lhs)
    } else if (inner.rule == Rule::ref_ty || inner.rule == Rule::unique_ty)
        && inner.children.len() >= 2 {
        let value_ty = match require_single(&inner.children[1], input) {
            Ok(t) => t,
            Err(e) => return Err(e),
        };
        let ty = if inner.rule == Rule::ref_ty {
            Ty::Ref(Box::new(value_ty))
        } else {
            Ty::Unique(Box::new(value_ty))
        };
        let ghost gt = ty;
        let v = vec![ty];
        assert(v@ =~= seq![gt]);
        Ok(v)
    } else {
        Err(LowerError::UnsupportedType(inner.text(input)))
    }
}

/// The one lowered type of a `ty` node.
fn require_single(pair: &Pair, input: &str) -> (r: Result<Ty, LowerError>)
    ensures
        match r {
            Ok(t) => spec_require_single(input@, pair_view(*pair)) == Ok::<Ty, SLowerError>(t),
            Err(e) => spec_require_single(input@, pair_view(*pair)) == Err::<Ty, SLowerError>(
                err_view(e),
            ),
        },
    decreases pair_view(*pair), 2int,
{
    let text = pair.text(input);
    let mut tys = match lower_ty(pair, input) {
        Ok(t) => t,
        Err(e) => return Err(e),
    };
    if tys.len() == 1 {
        Ok(tys.pop().unwrap())
    } else {
        let mut msg = String::from_str(
            "reference/unique wrapping a non-single-valued type is not yet supported: ",
        );
        msg.append(text.as_str());
        Err(LowerError::UnsupportedType(msg))
    }
}

} // verus!

//! The signature of a function, collected before any body is lowered.
use vstd::prelude::*;

use crate::ir::Ty;
use crate::value::{SShape, Shape, shape_len, shape_view, shapes_len};

verus! {

/// A function's parameters and results, as the lowering of calls and bodies needs them.
#[derive(Debug)]
pub struct FunctionSignature {
    pub param_names: Vec<String>,
    pub param_shapes: Vec<Shape>,
    pub param_types: Vec<Ty>,
    pub result_types: Vec<Ty>,
    pub result_shape: Shape,
}

/// Model of a [`FunctionSignature`].
pub struct SSig {
    pub param_names: Seq<Seq<char>>,
    pub param_shapes: Seq<SShape>,
    pub param_types: Seq<Ty>,
    pub result_types: Seq<Ty>,
    pub result_shape: SShape,
}

pub open spec fn sig_view(f: FunctionSignature) -> SSig {
    SSig {
        param_names: f.param_names@.map_values(|n: String| n@),
        param_shapes: f.param_shapes@.map_values(|sh: Shape| shape_view(sh)),
        param_types: f.param_types@,
        result_types: f.result_types@,
        result_shape: shape_view(f.result_shape),
    }
}

/// Models of a table of signatures, by function name.
pub open spec fn sigs_view(v: Seq<(String, FunctionSignature)>) -> Seq<(Seq<char>, SSig)> {
    v.map_values(|e: (String, FunctionSignature)| (e.0@, sig_view(e.1)))
}

/// The signature recorded last for `name`.
pub open spec fn sig_lookup(sigs: Seq<(Seq<char>, SSig)>, name: Seq<char>) -> Option<SSig>
    decreases sigs.len(),
{
    if sigs.len() == 0 {
        None
    } else if sigs.last().0 == name {
        Some(sigs.last().1)
    } else {
        sig_lookup(sigs.drop_last(), name)
    }
}

/// A signature whose shapes agree with its types: each shape has as many
/// values as its types, and there is one shape and one name per parameter.
pub open spec fn sig_ok(f: SSig) -> bool {
    &&& shape_len(f.result_shape) == f.result_types.len()
    &&& f.param_names.len() == f.param_shapes.len()
    &&& shapes_len(f.param_shapes) == f.param_types.len()
}

pub open spec fn sigs_ok(sigs: Seq<(Seq<char>, SSig)>) -> bool {
    forall|i: int| 0 <= i < sigs.len() ==> #[trigger] sig_ok(sigs[i].1)
}

pub proof fn lemma_sig_lookup_ok(sigs: Seq<(Seq<char>, SSig)>, name: Seq<char>)
    requires
        sigs_ok(sigs),
    ensures
        sig_lookup(sigs, name) matches Some(f) ==> sig_ok(f),
    decreases sigs.len(),
{
    if sigs.len() > 0 {
        assert(sig_ok(sigs[sigs.len() - 1].1));
        if sigs.last().0 != name {
            assert forall|i: int| 0 <= i < sigs.drop_last().len() implies #[trigger] sig_ok(
                sigs.drop_last()[i].1,
            ) by {
                assert(sig_ok(sigs[i].1));
            }
            lemma_sig_lookup_ok(sigs.drop_last(), name);
        }
    }
}

/// The signature recorded last for `name`.
pub fn lookup_signature<'s>(sigs: &'s Vec<(String, FunctionSignature)>, name: &String) -> (r: Option<
    &'s FunctionSignature,
>)
    ensures
        match r {
            Some(f) => sig_lookup(sigs_view(sigs@), name@) == Some(sig_view(*f)),
            None => sig_lookup(sigs_view(sigs@), name@) is None,
        },
{
    let ghost sv = sigs_view(sigs@);
    let mut i = sigs.len();
    proof {
        assert(sv.take(i as int) =~= sv);
    }
    while i > 0
        invariant
            i <= sigs@.len(),
            sv == sigs_view(sigs@),
            sig_lookup(sv, name@) == sig_lookup(sv.take(i as int), name@),
        decreases i,
    {
        proof {
            assert(sv.take(i as int).drop_last() =~= sv.take(i - 1));
            assert(sv.take(i as int).last() == sv[i - 1]);
        }
        if sigs[i - 1].0 == *name {
            return Some(&sigs[i - 1].1);
        }
        i = i - 1;
    }
    None
}

} // verus!

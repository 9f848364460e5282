//! The lowered form of a function: operations over numbered values, grouped
//! into numbered blocks. It mirrors the plain MLIR (`func`/`arith`/`scf`, plus
//! the `qduc`/`qauc` lifetime and borrow operations) that a program lowers to;
//! turning it into MLIR objects is left to the caller.
use vstd::prelude::*;
use vstd::string::StringExecFns;

verus! {

/// A lowered type.
#[derive(Debug)]
pub enum Ty {
    /// `i1`, the type of booleans.
    I1,
    /// `!qauc.qbit`.
    Qbit,
    /// `!qduc.lt`, the type of lifetime tokens.
    Lifetime,
    /// `!qauc.ref<!qduc.lt, T>`.
    Ref(Box<Ty>),
    /// `!qauc.unique<!qduc.lt, T>`.
    Unique(Box<Ty>),
}

/// The MLIR spelling of a type.
pub open spec fn ty_text(t: Ty) -> Seq<char>
    decreases t,
{
    match t {
        Ty::I1 => "i1"@,
        Ty::Qbit => "!qauc.qbit"@,
        Ty::Lifetime => "!qduc.lt"@,
        Ty::Ref(inner) => "!qauc.ref<!qduc.lt, "@ + ty_text(*inner) + ">"@,
        Ty::Unique(inner) => "!qauc.unique<!qduc.lt, "@ + ty_text(*inner) + ">"@,
    }
}

impl Ty {
    /// The MLIR spelling of this type, as `Type::parse` reads it.
    pub fn mlir_text(&self) -> (r: String)
        ensures
            r@ == ty_text(*self),
        decreases self,
    {
        match self {
            Ty::I1 => String::from_str("i1"),
            Ty::Qbit => String::from_str("!qauc.qbit"),
            Ty::Lifetime => String::from_str("!qduc.lt"),
            Ty::Ref(inner) => {
                let mut r = String::from_str("!qauc.ref<!qduc.lt, ");
                let t = inner.mlir_text();
                r.append(t.as_str());
                r.append(">");
                r
            },
            Ty::Unique(inner) => {
                let mut r = String::from_str("!qauc.unique<!qduc.lt, ");
                let t = inner.mlir_text();
                r.append(t.as_str());
                r.append(">");
                r
            },
        }
    }

    /// An equal copy of this type.
    pub fn copy(&self) -> (r: Ty)
        ensures
            r == *self,
        decreases self,
    {
        match self {
            Ty::I1 => Ty::I1,
            Ty::Qbit => Ty::Qbit,
            Ty::Lifetime => Ty::Lifetime,
            Ty::Ref(t) => Ty::Ref(Box::new(t.copy())),
            Ty::Unique(t) => Ty::Unique(Box::new(t.copy())),
        }
    }
}

/// Copies of a list of types.
pub fn copy_tys(v: &Vec<Ty>) -> (r: Vec<Ty>)
    ensures
        r@ == v@,
{
    let mut r: Vec<Ty> = Vec::new();
    let mut i: usize = 0;
    while i < v.len()
        invariant
            i <= v@.len(),
            r@ == v@.take(i as int),
        decreases v@.len() - i,
    {
        r.push(v[i].copy());
        proof {
            assert(r@ =~= v@.take(i + 1));
        }
        i = i + 1;
    }
    proof {
        assert(v@.take(v@.len() as int) =~= v@);
    }
    r
}

/// Copies of a list of value numbers.
pub fn copy_values(v: &Vec<usize>) -> (r: Vec<usize>)
    ensures
        r@ == v@,
{
    let mut r: Vec<usize> = Vec::new();
    let mut i: usize = 0;
    while i < v.len()
        invariant
            i <= v@.len(),
            r@ == v@.take(i as int),
        decreases v@.len() - i,
    {
        r.push(v[i]);
        proof {
            assert(r@ =~= v@.take(i + 1));
        }
        i = i + 1;
    }
    proof {
        assert(v@.take(v@.len() as int) =~= v@);
    }
    r
}

/// An operation. Values are numbered within their function; blocks too.
pub enum Op {
    /// `arith.constant` of type `i1`.
    Constant { result: usize, value: bool },
    /// `func.call` of `callee`.
    Call { callee: String, operands: Vec<usize>, results: Vec<usize> },
    /// `scf.if`, whose regions are the blocks `then_block` and `else_block`.
    If { condition: usize, then_block: usize, else_block: usize, results: Vec<usize> },
    /// `scf.yield`, the end of a branch of an `scf.if`.
    Yield { values: Vec<usize> },
    /// `func.return`.
    Return { values: Vec<usize> },
    /// `qduc.newlft`, which opens a lifetime and gives its token.
    NewLft { result: usize },
    /// `qduc.end`, which closes the lifetime of a token.
    End { lifetime: usize },
    /// `qauc.borrow` of `source` for the lifetime `lifetime`.
    Borrow { source: usize, lifetime: usize, result: usize },
}

/// Model of an [`Op`].
pub enum SOp {
    Constant { result: usize, value: bool },
    Call { callee: Seq<char>, operands: Seq<usize>, results: Seq<usize> },
    If { condition: usize, then_block: usize, else_block: usize, results: Seq<usize> },
    Yield { values: Seq<usize> },
    Return { values: Seq<usize> },
    NewLft { result: usize },
    End { lifetime: usize },
    Borrow { source: usize, lifetime: usize, result: usize },
}

pub open spec fn op_view(o: Op) -> SOp {
    match o {
        Op::Constant { result, value } => SOp::Constant { result, value },
        Op::Call { callee, operands, results } => SOp::Call {
            callee: callee@,
            operands: operands@,
            results: results@,
        },
        Op::If { condition, then_block, else_block, results } => SOp::If {
            condition,
            then_block,
            else_block,
            results: results@,
        },
        Op::Yield { values } => SOp::Yield { values: values@ },
        Op::Return { values } => SOp::Return { values: values@ },
        Op::NewLft { result } => SOp::NewLft { result },
        Op::End { lifetime } => SOp::End { lifetime },
        Op::Borrow { source, lifetime, result } => SOp::Borrow { source, lifetime, result },
    }
}

/// Model of a [`Body`].
pub struct SBody {
    /// Each operation with the block it belongs to, in the order appended.
    pub ops: Seq<(usize, SOp)>,
    /// The type of each value, by number.
    pub types: Seq<Ty>,
    /// The arguments of each block, by number.
    pub blocks: Seq<Seq<usize>>,
}

/// The body of a function under construction: its values, its blocks and
/// their operations.
pub struct Body {
    pub ops: Vec<(usize, Op)>,
    pub types: Vec<Ty>,
    pub blocks: Vec<Vec<usize>>,
}

impl View for Body {
    type V = SBody;

    open spec fn view(&self) -> SBody {
        SBody {
            ops: Seq::new(self.ops@.len(), |i: int| (self.ops@[i].0, op_view(self.ops@[i].1))),
            types: self.types@,
            blocks: Seq::new(self.blocks@.len(), |i: int| self.blocks@[i]@),
        }
    }
}

/// The body with `op` appended to block `block`.
pub open spec fn with_op(b: SBody, block: usize, op: SOp) -> SBody {
    SBody { ops: b.ops.push((block, op)), ..b }
}

/// The body with a new value of type `ty`, numbered `b.types.len()`.
pub open spec fn with_value(b: SBody, ty: Ty) -> SBody {
    SBody { types: b.types.push(ty), ..b }
}

/// The body with new values of types `tys`, numbered from `b.types.len()` on.
pub open spec fn with_values(b: SBody, tys: Seq<Ty>) -> SBody {
    SBody { types: b.types + tys, ..b }
}

/// The numbers `from..from + n`.
pub open spec fn numbers(from: int, n: int) -> Seq<usize> {
    Seq::new(n as nat, |i: int| (from + i) as usize)
}

/// The body with a new block without arguments, numbered `b.blocks.len()`.
pub open spec fn with_block(b: SBody) -> SBody {
    SBody { blocks: b.blocks.push(Seq::empty()), ..b }
}

/// The types of the values `vs`.
pub open spec fn types_of(b: SBody, vs: Seq<usize>) -> Seq<Ty> {
    vs.map_values(|v: usize| b.types[v as int])
}

/// Every value in `vs` exists in the body.
pub open spec fn all_defined(b: SBody, vs: Seq<usize>) -> bool {
    forall|i: int| 0 <= i < vs.len() ==> (vs[i] as int) < b.types.len()
}

/// The values an operation reads.
pub open spec fn op_operands(o: SOp) -> Seq<usize> {
    match o {
        SOp::Constant { .. } => Seq::empty(),
        SOp::Call { operands, .. } => operands,
        SOp::If { condition, .. } => seq![condition],
        SOp::Yield { values } => values,
        SOp::Return { values } => values,
        SOp::NewLft { .. } => Seq::empty(),
        SOp::End { lifetime } => seq![lifetime],
        SOp::Borrow { source, lifetime, .. } => seq![source, lifetime],
    }
}

/// The values an operation defines.
pub open spec fn op_results(o: SOp) -> Seq<usize> {
    match o {
        SOp::Constant { result, .. } => seq![result],
        SOp::Call { results, .. } => results,
        SOp::If { results, .. } => results,
        SOp::NewLft { result } => seq![result],
        SOp::Borrow { result, .. } => seq![result],
        _ => Seq::empty(),
    }
}

/// The blocks an operation holds as its regions.
pub open spec fn op_regions(o: SOp) -> Seq<usize> {
    match o {
        SOp::If { then_block, else_block, .. } => seq![then_block, else_block],
        _ => Seq::empty(),
    }
}

/// Every number in `vs` is a block of the body.
pub open spec fn all_blocks(b: SBody, vs: Seq<usize>) -> bool {
    forall|i: int| 0 <= i < vs.len() ==> (vs[i] as int) < b.blocks.len()
}

/// An operation that refers only to what exists in the body: it stands in
/// a block of the body, reads and defines values of the body, and its
/// regions are blocks of the body.
pub open spec fn op_ok(b: SBody, entry: (usize, SOp)) -> bool {
    &&& (entry.0 as int) < b.blocks.len()
    &&& all_defined(b, op_operands(entry.1))
    &&& all_defined(b, op_results(entry.1))
    &&& all_blocks(b, op_regions(entry.1))
}

/// A body whose every operation refers only to what exists in it.
pub open spec fn refs_ok(b: SBody) -> bool {
    forall|i: int| 0 <= i < b.ops.len() ==> #[trigger] op_ok(b, b.ops[i])
}

/// A well-formed body: its operations refer only to what exists in it, and
/// use only lifetimes that are open where they stand.
pub open spec fn body_ok(b: SBody) -> bool {
    refs_ok(b) && lifetimes_ok(b.ops)
}

/// What is well formed stays so as values and blocks are added.
pub proof fn lemma_body_ok_grow(b1: SBody, b2: SBody)
    requires
        body_ok(b1),
        b2.ops == b1.ops,
        b1.types.len() <= b2.types.len(),
        b1.blocks.len() <= b2.blocks.len(),
    ensures
        body_ok(b2),
{
    assert forall|i: int| 0 <= i < b2.ops.len() implies #[trigger] op_ok(b2, b2.ops[i]) by {
        assert(op_ok(b1, b1.ops[i]));
    }
}

/// Appending an operation that refers only to what exists, and uses only
/// open lifetimes, keeps the body well formed.
pub proof fn lemma_body_ok_append(b: SBody, blk: usize, op: SOp)
    requires
        body_ok(b),
        op_ok(b, (blk, op)),
        op_lifetime_ok(b.ops.push((blk, op)), b.ops.len() as int),
    ensures
        body_ok(with_op(b, blk, op)),
{
    let b2 = with_op(b, blk, op);
    assert forall|i: int| 0 <= i < b2.ops.len() implies #[trigger] op_ok(b2, b2.ops[i]) by {
        if i < b.ops.len() {
            assert(op_ok(b, b.ops[i]));
        }
    }
    lemma_lifetimes_ok_push(b.ops, (blk, op));
}

/// Operation `j` of `ops` is a `qduc.newlft` giving the token `t`.
pub open spec fn opens_at(ops: Seq<(usize, SOp)>, j: int, t: usize) -> bool {
    0 <= j < ops.len() && ops[j].1 == (SOp::NewLft { result: t })
}

/// Operation `j` of `ops` is a `qduc.end` of the token `t`.
pub open spec fn ends_at(ops: Seq<(usize, SOp)>, j: int, t: usize) -> bool {
    0 <= j < ops.len() && ops[j].1 == (SOp::End { lifetime: t })
}

/// The lifetime of token `t` is open just before operation `i`: a
/// `qduc.newlft` before `i` gave it, and no `qduc.end` before `i` ended it.
pub open spec fn open_before(ops: Seq<(usize, SOp)>, t: usize, i: int) -> bool {
    &&& exists|j: int| 0 <= j < i && #[trigger] opens_at(ops, j, t)
    &&& forall|j: int| 0 <= j < i ==> !#[trigger] ends_at(ops, j, t)
}

/// Operation `i` uses only a lifetime that is open there: a `qduc.end`
/// ends an open lifetime, and a `qauc.borrow` borrows for an open one.
pub open spec fn op_lifetime_ok(ops: Seq<(usize, SOp)>, i: int) -> bool {
    match ops[i].1 {
        SOp::End { lifetime } => open_before(ops, lifetime, i),
        SOp::Borrow { lifetime, .. } => open_before(ops, lifetime, i),
        _ => true,
    }
}

/// Every operation of `ops` uses only lifetimes that are open where it stands.
pub open spec fn lifetimes_ok(ops: Seq<(usize, SOp)>) -> bool {
    forall|i: int| 0 <= i < ops.len() ==> #[trigger] op_lifetime_ok(ops, i)
}

/// Appending an operation leaves what is open before the existing ones as it was.
pub proof fn lemma_open_before_push(ops: Seq<(usize, SOp)>, x: (usize, SOp), t: usize, i: int)
    requires
        0 <= i <= ops.len(),
    ensures
        open_before(ops.push(x), t, i) == open_before(ops, t, i),
{
    let o2 = ops.push(x);
    assert forall|j: int| 0 <= j < i implies opens_at(o2, j, t) == opens_at(ops, j, t) && ends_at(o2, j, t)
        == ends_at(ops, j, t) by {
        assert(o2[j] == ops[j]);
    }
    if open_before(ops, t, i) {
        let j = choose|j: int| 0 <= j < i && #[trigger] opens_at(ops, j, t);
        assert(opens_at(o2, j, t));
    }
    if open_before(o2, t, i) {
        let j = choose|j: int| 0 <= j < i && #[trigger] opens_at(o2, j, t);
        assert(opens_at(ops, j, t));
    }
}

/// A lifetime open after `ops` stays open after one more operation that does
/// not end it.
pub proof fn lemma_open_after_push(ops: Seq<(usize, SOp)>, x: (usize, SOp), t: usize)
    requires
        open_before(ops, t, ops.len() as int),
        x.1 != (SOp::End { lifetime: t }),
    ensures
        open_before(ops.push(x), t, (ops.len() + 1) as int),
{
    let o2 = ops.push(x);
    let j = choose|j: int| 0 <= j < ops.len() && #[trigger] opens_at(ops, j, t);
    assert(o2[j] == ops[j]);
    assert(opens_at(o2, j, t));
    assert forall|j: int| 0 <= j < ops.len() + 1 implies !#[trigger] ends_at(o2, j, t) by {
        if j < ops.len() {
            assert(o2[j] == ops[j]);
            assert(!ends_at(ops, j, t));
        }
    }
}

/// Appending an operation that uses only open lifetimes keeps the lifetimes
/// of a body in order.
pub proof fn lemma_lifetimes_ok_push(ops: Seq<(usize, SOp)>, x: (usize, SOp))
    requires
        lifetimes_ok(ops),
        op_lifetime_ok(ops.push(x), ops.len() as int),
    ensures
        lifetimes_ok(ops.push(x)),
{
    let o2 = ops.push(x);
    assert forall|i: int| 0 <= i < o2.len() implies #[trigger] op_lifetime_ok(o2, i) by {
        if i < ops.len() {
            assert(op_lifetime_ok(ops, i));
            assert(o2[i] == ops[i]);
            match ops[i].1 {
                SOp::End { lifetime } => lemma_open_before_push(ops, x, lifetime, i),
                SOp::Borrow { lifetime, .. } => lemma_open_before_push(ops, x, lifetime, i),
                _ => {},
            }
        }
    }
}

impl Body {
    /// An empty body whose entry block (block 0) has one argument per type in `args`.
    pub fn new(args: &Vec<Ty>) -> (b: Body)
        ensures
            b@.ops.len() == 0,
            b@.types == args@,
            b@.blocks == seq![numbers(0, args@.len() as int)],
    {
        let types = copy_tys(args);
        let mut entry: Vec<usize> = Vec::new();
        let mut i: usize = 0;
        while i < args.len()
            invariant
                i <= args@.len(),
                entry@ == numbers(0, i as int),
            decreases args@.len() - i,
        {
            entry.push(i);
            proof {
                assert(entry@ =~= numbers(0, i + 1));
            }
            i = i + 1;
        }
        let mut blocks: Vec<Vec<usize>> = Vec::new();
        let ghost ge = entry@;
        blocks.push(entry);
        let b = Body { ops: Vec::new(), types, blocks };
        proof {
            assert(b@.ops =~= Seq::<(usize, SOp)>::empty());
            assert(b@.blocks =~= seq![ge]);
        }
        b
    }

    /// Appends `op` to block `block`.
    pub fn append(&mut self, block: usize, op: Op)
        ensures
            final(self)@ == with_op(old(self)@, block, op_view(op)),
    {
        let ghost before = self@;
        self.ops.push((block, op));
        proof {
            assert(self@.ops =~= before.ops.push((block, op_view(op))));
            assert(self@.blocks =~= before.blocks);
        }
    }

    /// A new value of type `ty`.
    pub fn new_value(&mut self, ty: Ty) -> (v: usize)
        ensures
            v == old(self)@.types.len(),
            final(self)@ == with_value(old(self)@, ty),
    {
        let ghost before = self@;
        let v = self.types.len();
        self.types.push(ty);
        proof {
            assert(self@.ops =~= before.ops);
            assert(self@.blocks =~= before.blocks);
        }
        v
    }

    /// New values of the types `tys`, in order.
    pub fn new_values(&mut self, tys: &Vec<Ty>) -> (vs: Vec<usize>)
        ensures
            vs@ == numbers(old(self)@.types.len() as int, tys@.len() as int),
            final(self)@ == with_values(old(self)@, tys@),
    {
        let ghost before = self@;
        let mut vs: Vec<usize> = Vec::new();
        let mut i: usize = 0;
        while i < tys.len()
            invariant
                i <= tys@.len(),
                self@ == with_values(before, tys@.take(i as int)),
                vs@ == numbers(before.types.len() as int, i as int),
            decreases tys@.len() - i,
        {
            let v = self.new_value(tys[i].copy());
            vs.push(v);
            proof {
                assert(tys@.take(i + 1) =~= tys@.take(i as int).push(tys@[i as int]));
                assert(self@.types =~= before.types + tys@.take(i + 1));
                assert(vs@ =~= numbers(before.types.len() as int, i + 1));
            }
            i = i + 1;
        }
        proof {
            assert(tys@.take(tys@.len() as int) =~= tys@);
        }
        vs
    }

    /// A new block without arguments.
    pub fn new_block(&mut self) -> (blk: usize)
        ensures
            blk == old(self)@.blocks.len(),
            final(self)@ == with_block(old(self)@),
    {
        let ghost before = self@;
        let blk = self.blocks.len();
        self.blocks.push(Vec::new());
        proof {
            assert(self@.ops =~= before.ops);
            assert(self@.blocks =~= before.blocks.push(Seq::empty()));
        }
        blk
    }

    /// The types of the values `vs`.
    pub fn types_of(&self, vs: &Vec<usize>) -> (r: Vec<Ty>)
        requires
            all_defined(self@, vs@),
        ensures
            r@ == types_of(self@, vs@),
    {
        let mut r: Vec<Ty> = Vec::new();
        let mut i: usize = 0;
        while i < vs.len()
            invariant
                i <= vs@.len(),
                all_defined(self@, vs@),
                r@ == types_of(self@, vs@.take(i as int)),
            decreases vs@.len() - i,
        {
            r.push(self.types[vs[i]].copy());
            proof {
                assert(types_of(self@, vs@.take(i + 1)) =~= types_of(self@, vs@.take(i as int)).push(
                    self@.types[vs@[i as int] as int],
                ));
            }
            i = i + 1;
        }
        proof {
            assert(vs@.take(vs@.len() as int) =~= vs@);
        }
        r
    }
}

} // verus!

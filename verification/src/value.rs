//! How source-level values map onto flat lists of IR values.
use vstd::prelude::*;

verus! {

/// Model of a [`Shape`].
pub enum SShape {
    Unit,
    Single,
    Tuple(Seq<SShape>),
}

/// Structural shape of a source-level type: how many IR values a value of the
/// type turns into, and how they nest back into tuples.
#[derive(Debug)]
pub enum Shape {
    Unit,
    Single,
    Tuple(Vec<Shape>),
}

pub open spec fn shape_view(s: Shape) -> SShape
    decreases s,
{
    match s {
        Shape::Unit => SShape::Unit,
        Shape::Single => SShape::Single,
        Shape::Tuple(v) => SShape::Tuple(
            Seq::new(
                v@.len(),
                |i: int|
                    if 0 <= i < v@.len() {
                        shape_view(v@[i])
                    } else {
                        SShape::Unit
                    },
            ),
        ),
    }
}

/// The number of IR values a value of the shape is made of.
pub open spec fn shape_len(s: SShape) -> nat
    decreases s,
{
    match s {
        SShape::Unit => 0,
        SShape::Single => 1,
        SShape::Tuple(ss) => shapes_len(ss),
    }
}

pub open spec fn shapes_len(ss: Seq<SShape>) -> nat
    decreases ss,
{
    if ss.len() == 0 {
        0
    } else {
        shapes_len(ss.drop_last()) + shape_len(ss.last())
    }
}

/// The number of IR values that a parameter of the shape takes.
#[verifier::loop_isolation(false)]
pub fn param_shape_len(shape: &Shape) -> (n: usize)
    requires
        shape_len(shape_view(*shape)) <= usize::MAX,
    ensures
        n == shape_len(shape_view(*shape)),
    decreases shape,
{
    match shape {
        Shape::Unit => 0,
        Shape::Single => 1,
        Shape::Tuple(shapes) => {
            let ghost ss = match shape_view(*shape) {
                SShape::Tuple(x) => x,
                _ => Seq::empty(),
            };
            let mut total: usize = 0;
            let mut i: usize = 0;
            while i < shapes.len()
                invariant
                    i <= shapes@.len(),
                    ss.len() == shapes@.len(),
                    forall|j: int| 0 <= j < shapes@.len() ==> ss[j] == shape_view(shapes@[j]),
                    shapes_len(ss) <= usize::MAX,
                    total == shapes_len(ss.take(i as int)),
                decreases shapes@.len() - i,
            {
                proof {
                    assert(ss.take(i + 1).drop_last() =~= ss.take(i as int));
                    lemma_shapes_len_prefix(ss, i + 1);
                }
                assert(decreases_to!(*shape => shapes@[i as int]));
                let k = param_shape_len(&shapes[i]);
                total = total + k;
                i = i + 1;
            }
            assert(ss.take(i as int) =~= ss);
            total
        },
    }
}

/// The values of a prefix of a list of shapes are no more than those of the list.
pub proof fn lemma_shapes_len_prefix(ss: Seq<SShape>, k: int)
    requires
        0 <= k <= ss.len(),
    ensures
        shapes_len(ss.take(k)) <= shapes_len(ss),
    decreases ss.len() - k,
{
    if k < ss.len() {
        lemma_shapes_len_prefix(ss, k + 1);
        assert(ss.take(k + 1).drop_last() =~= ss.take(k));
    } else {
        assert(ss.take(k) =~= ss);
    }
}


/// A value of the lowered program, held by its number.
#[derive(Debug, Clone, Copy)]
pub struct StoredValue {
    pub raw: usize,
}

impl StoredValue {
    pub fn new(value: usize) -> (r: StoredValue)
        ensures
            r.raw == value,
    {
        StoredValue { raw: value }
    }

    pub fn as_value(&self) -> (r: usize)
        ensures
            r == self.raw,
    {
        self.raw
    }
}

/// A source-level value once lowered: one IR value, or a tuple of lowered values.
#[derive(Debug)]
pub enum LoweredValue {
    Single(StoredValue),
    Tuple(Vec<LoweredValue>),
}

/// Model of a [`LoweredValue`].
pub enum SLV {
    Single(usize),
    Tuple(Seq<SLV>),
}

pub open spec fn lv_view(v: LoweredValue) -> SLV
    decreases v,
{
    match v {
        LoweredValue::Single(x) => SLV::Single(x.raw),
        LoweredValue::Tuple(vs) => SLV::Tuple(
            Seq::new(
                vs@.len(),
                |i: int|
                    if 0 <= i < vs@.len() {
                        lv_view(vs@[i])
                    } else {
                        SLV::Single(0)
                    },
            ),
        ),
    }
}

pub open spec fn lvs_view(vs: Seq<LoweredValue>) -> Seq<SLV> {
    Seq::new(vs.len(), |i: int| lv_view(vs[i]))
}

/// The IR values a lowered value is made of, in order.
pub open spec fn flat(v: SLV) -> Seq<usize>
    decreases v,
{
    match v {
        SLV::Single(x) => seq![x],
        SLV::Tuple(vs) => flats(vs),
    }
}

pub open spec fn flats(vs: Seq<SLV>) -> Seq<usize>
    decreases vs,
{
    if vs.len() == 0 {
        Seq::empty()
    } else {
        flats(vs.drop_last()) + flat(vs.last())
    }
}

/// The unit value.
pub open spec fn unit_lv() -> SLV {
    SLV::Tuple(Seq::empty())
}

/// Rebuilds a lowered value of shape `shape` from the IR values `vals`, taking
/// them from position `pos` on; gives the value and the position after it.
pub open spec fn unflatten(shape: SShape, vals: Seq<usize>, pos: int) -> (SLV, int)
    decreases shape,
{
    match shape {
        SShape::Unit => (unit_lv(), pos),
        SShape::Single => (SLV::Single(vals[pos]), pos + 1),
        SShape::Tuple(ss) => {
            let (vs, e) = unflattens(ss, vals, pos);
            (SLV::Tuple(vs), e)
        },
    }
}

pub open spec fn unflattens(ss: Seq<SShape>, vals: Seq<usize>, pos: int) -> (Seq<SLV>, int)
    decreases ss,
{
    if ss.len() == 0 {
        (Seq::empty(), pos)
    } else {
        let (vs, p1) = unflattens(ss.drop_last(), vals, pos);
        let (v, p2) = unflatten(ss.last(), vals, p1);
        (vs.push(v), p2)
    }
}

proof fn lemma_lv_tuple_view(v: LoweredValue)
    requires
        v is Tuple,
    ensures
        lv_view(v) == SLV::Tuple(lvs_view(v->Tuple_0@)),
{
    assert(lvs_view(v->Tuple_0@) =~= (match lv_view(v) {
        SLV::Tuple(x) => x,
        _ => Seq::empty(),
    }));
}

impl LoweredValue {
    /// One IR value.
    pub fn single(value: usize) -> (r: LoweredValue)
        ensures
            lv_view(r) == SLV::Single(value),
    {
        LoweredValue::Single(StoredValue::new(value))
    }

    /// A tuple of lowered values.
    pub fn tuple(values: Vec<LoweredValue>) -> (r: LoweredValue)
        ensures
            lv_view(r) == SLV::Tuple(lvs_view(values@)),
    {
        let r = LoweredValue::Tuple(values);
        proof {
            lemma_lv_tuple_view(r);
        }
        r
    }

    /// The unit value: the empty tuple.
    pub fn unit() -> (r: LoweredValue)
        ensures
            lv_view(r) == unit_lv(),
    {
        let r = LoweredValue::tuple(Vec::new());
        assert(lvs_view(Seq::<LoweredValue>::empty()) =~= Seq::<SLV>::empty());
        r
    }

    /// An equal copy of this value.
    #[verifier::loop_isolation(false)]
    pub fn duplicate(&self) -> (r: LoweredValue)
        ensures
            lv_view(r) == lv_view(*self),
        decreases self,
    {
        match self {
            LoweredValue::Single(x) => LoweredValue::Single(StoredValue::new(x.raw)),
            LoweredValue::Tuple(vs) => {
                proof {
                    lemma_lv_tuple_view(*self);
                }
                let mut out: Vec<LoweredValue> = Vec::new();
                let mut i: usize = 0;
                while i < vs.len()
                    invariant
                        i <= vs@.len(),
                        lvs_view(out@) == lvs_view(vs@).take(i as int),
                    decreases vs@.len() - i,
                {
                    assert(decreases_to!(*self => vs@[i as int]));
                    let c = vs[i].duplicate();
                    let ghost gc = c;
                    let ghost before = out@;
                    out.push(c);
                    proof {
                        assert(lvs_view(out@) =~= lvs_view(before).push(lv_view(gc)));
                        assert(lvs_view(vs@).take(i + 1) =~= lvs_view(vs@).take(i as int).push(
                            lv_view(vs@[i as int]),
                        ));
                    }
                    i = i + 1;
                }
                assert(lvs_view(vs@).take(vs@.len() as int) =~= lvs_view(vs@));
                LoweredValue::tuple(out)
            },
        }
    }

    /// The IR values this value is made of, in order.
    #[verifier::loop_isolation(false)]
    pub fn flatten(&self) -> (r: Vec<usize>)
        ensures
            r@ == flat(lv_view(*self)),
        decreases self,
    {
        match self {
            LoweredValue::Single(x) => vec![x.raw],
            LoweredValue::Tuple(vs) => {
                proof {
                    lemma_lv_tuple_view(*self);
                }
                let ghost svs = lvs_view(vs@);
                let mut out: Vec<usize> = Vec::new();
                let mut i: usize = 0;
                while i < vs.len()
                    invariant
                        i <= vs@.len(),
                        out@ == flats(svs.take(i as int)),
                    decreases vs@.len() - i,
                {
                    assert(decreases_to!(*self => vs@[i as int]));
                    let mut part = vs[i].flatten();
                    out.append(&mut part);
                    proof {
                        assert(svs.take(i + 1).drop_last() =~= svs.take(i as int));
                    }
                    i = i + 1;
                }
                assert(svs.take(vs@.len() as int) =~= svs);
                out
            },
        }
    }

    /// The IR value, when this is a single one.
    pub fn as_single(&self) -> (r: Option<usize>)
        ensures
            r == match lv_view(*self) {
                SLV::Single(x) => Some(x),
                SLV::Tuple(_) => None::<usize>,
            },
    {
        match self {
            LoweredValue::Single(x) => Some(x.raw),
            LoweredValue::Tuple(_) => None,
        }
    }
}

impl Shape {
    /// Rebuilds a value of this shape from `values`, taking them from
    /// `*pos` on and advancing `*pos` past them.
    #[verifier::loop_isolation(false)]
    pub fn unflatten(&self, values: &Vec<usize>, pos: &mut usize) -> (r: LoweredValue)
        requires
            *old(pos) + shape_len(shape_view(*self)) <= values@.len(),
        ensures
            (lv_view(r), *final(pos) as int) == unflatten(
                shape_view(*self),
                values@,
                *old(pos) as int,
            ),
        decreases self,
    {
        match self {
            Shape::Unit => LoweredValue::unit(),
            Shape::Single => {
                assert(shape_len(shape_view(*self)) == 1);
                let k = *pos;
                let n = values.len();
                assert(k < n);
                let v = values[k];
                *pos = k + 1;
                LoweredValue::single(v)
            },
            Shape::Tuple(shapes) => {
                let ghost ss = match shape_view(*self) {
                    SShape::Tuple(x) => x,
                    _ => Seq::empty(),
                };
                let ghost start = *pos as int;
                assert(ss.skip(0) =~= ss);
                let mut out: Vec<LoweredValue> = Vec::new();
                assert(lvs_view(out@) =~= Seq::<SLV>::empty());
                let mut i: usize = 0;
                while i < shapes.len()
                    invariant
                        i <= shapes@.len(),
                        ss.len() == shapes@.len(),
                        forall|j: int| 0 <= j < shapes@.len() ==> ss[j] == shape_view(shapes@[j]),
                        (lvs_view(out@), *pos as int) == unflattens(ss.take(i as int), values@, start),
                        *pos + shapes_len(ss.skip(i as int)) <= values@.len(),
                    decreases shapes@.len() - i,
                {
                    proof {
                        assert(ss.take(i + 1).drop_last() =~= ss.take(i as int));
                        lemma_shapes_len_split(ss.skip(i as int));
                        assert(ss.skip(i as int).drop_first() =~= ss.skip(i + 1));
                    }
                    assert(decreases_to!(*self => shapes@[i as int]));
                    proof {
                        lemma_unflatten_len(ss[i as int], values@, *pos as int);
                    }
                    let c = shapes[i].unflatten(values, pos);
                    let ghost gc = c;
                    let ghost before = out@;
                    out.push(c);
                    proof {
                        assert(lvs_view(out@) =~= lvs_view(before).push(lv_view(gc)));
                    }
                    i = i + 1;
                }
                proof {
                    assert(ss.take(shapes@.len() as int) =~= ss);
                }
                LoweredValue::tuple(out)
            },
        }
    }
}

/// The values of a list of shapes: those of its first shape, then the rest.
/// The values of a tuple of shapes laid end to end are those of its two
/// parts together; a tuple of one shape takes the values of that shape.
pub proof fn law_tuple_shape_len_adds(a: Seq<SShape>, b: Seq<SShape>, s: SShape)
    ensures
        shape_len(SShape::Tuple(a + b)) == shape_len(SShape::Tuple(a)) + shape_len(SShape::Tuple(b)),
        shape_len(SShape::Tuple(seq![s])) == shape_len(s),
    decreases b.len(),
{
    if b.len() > 0 {
        law_tuple_shape_len_adds(a, b.drop_last(), s);
        assert((a + b).drop_last() =~= a + b.drop_last());
        assert((a + b).last() == b.last());
    } else {
        assert(a + b =~= a);
    }
    assert(seq![s].drop_last() =~= Seq::<SShape>::empty());
    assert(seq![s].last() == s);
    assert(shapes_len(seq![s]) == shapes_len(seq![s].drop_last()) + shape_len(seq![s].last()));
}

pub proof fn lemma_shapes_len_split(ss: Seq<SShape>)
    requires
        ss.len() > 0,
    ensures
        shapes_len(ss) == shape_len(ss[0]) + shapes_len(ss.drop_first()),
    decreases ss.len(),
{
    if ss.len() > 1 {
        lemma_shapes_len_split(ss.drop_last());
        assert(ss.drop_last().drop_first() =~= ss.drop_first().drop_last());
        assert(ss.drop_first().last() == ss.last());
        assert(ss.drop_last()[0] == ss[0]);
        assert(shapes_len(ss.drop_first()) == shapes_len(ss.drop_first().drop_last()) + shape_len(
            ss.drop_first().last(),
        ));
    } else {
        assert(ss.drop_first().len() == 0);
        assert(ss.drop_last().len() == 0);
        assert(shapes_len(ss.drop_last()) == 0);
        assert(shapes_len(ss.drop_first()) == 0);
    }
}


/// Rebuilding a value of a shape takes as many IR values as the shape has.
pub proof fn lemma_unflatten_len(shape: SShape, vals: Seq<usize>, pos: int)
    ensures
        unflatten(shape, vals, pos).1 == pos + shape_len(shape),
    decreases shape,
{
    match shape {
        SShape::Tuple(ss) => lemma_unflattens_len(ss, vals, pos),
        _ => {},
    }
}

pub proof fn lemma_unflattens_len(ss: Seq<SShape>, vals: Seq<usize>, pos: int)
    ensures
        unflattens(ss, vals, pos).1 == pos + shapes_len(ss),
        unflattens(ss, vals, pos).0.len() == ss.len(),
    decreases ss,
{
    if ss.len() > 0 {
        lemma_unflattens_len(ss.drop_last(), vals, pos);
        let p1 = unflattens(ss.drop_last(), vals, pos).1;
        lemma_unflatten_len(ss.last(), vals, p1);
    }
}

} // verus!

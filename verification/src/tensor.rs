use vstd::prelude::*;
use crate::errors::CacheError;

verus! {

/// A per-dimension start/end/step descriptor selecting a sub-extent of a
/// buffer. `start` is inclusive, `end` exclusive; `step` must be at least
/// one. The selected indices are `start`, `start + step`, ... below `end`.
#[derive(Clone, Copy, Debug, PartialEq, Eq, Structural)]
pub struct RegionElem {
    pub start: usize,
    pub end: usize,
    pub step: usize,
}

/// How many indices a single descriptor selects.
pub open spec fn slice_count(r: RegionElem) -> int {
    if r.end <= r.start {
        0
    } else {
        (r.end - r.start - 1) / (r.step as int) + 1
    }
}

/// A region is in bounds for a shape when it has one descriptor per
/// dimension and each descriptor stays inside that dimension, with a step
/// of at least one (and, a machine limit, a step that fits in `isize`).
pub open spec fn region_in_bounds(region: Seq<RegionElem>, shape: Seq<usize>) -> bool {
    &&& region.len() == shape.len()
    &&& forall|i: int|
        0 <= i < region.len() ==> (1 <= (#[trigger] region[i]).step && region[i].step <= (
        isize::MAX as usize) && region[i].start <= region[i].end && region[i].end <= shape[i])
}

/// The shape of the sub-extent a region selects.
pub open spec fn region_dims(region: Seq<RegionElem>) -> Seq<usize> {
    Seq::new(region.len(), |i: int| slice_count(region[i]) as usize)
}

/// Whether a region selects the whole of a buffer of the given shape.
pub open spec fn region_is_full(region: Seq<RegionElem>, shape: Seq<usize>) -> bool {
    &&& region.len() == shape.len()
    &&& forall|i: int|
        0 <= i < region.len() ==> ((#[trigger] region[i]).start == 0 && region[i].end == shape[i]
            && region[i].step == 1)
}

/// The element count of a dense buffer of the given shape.
pub open spec fn shape_product(shape: Seq<usize>) -> int
    decreases shape.len(),
{
    if shape.len() == 0 {
        1
    } else {
        shape_product(shape.drop_last()) * (shape.last() as int)
    }
}

/// The product of the non-zero dimension sizes: what bounds the allocation
/// ndarray makes for a shape.
pub open spec fn shape_nonzero_product(shape: Seq<usize>) -> int
    decreases shape.len(),
{
    if shape.len() == 0 {
        1
    } else {
        shape_nonzero_product(shape.drop_last()) * (if shape.last() == 0 {
            1
        } else {
            shape.last() as int
        })
    }
}

/// Whether `c` is a coordinate of a buffer of shape `shape`: one index
/// per dimension, each within its dimension.
pub open spec fn in_shape(shape: Seq<usize>, c: Seq<int>) -> bool {
    &&& c.len() == shape.len()
    &&& forall|i: int| 0 <= i < c.len() ==> 0 <= #[trigger] c[i] < shape[i]
}

/// The row-major flat position of coordinate `c` in a buffer of shape
/// `shape`: the rightmost index varies fastest.
pub open spec fn flat_index(shape: Seq<usize>, c: Seq<int>) -> int
    recommends
        in_shape(shape, c),
    decreases shape.len(),
{
    if shape.len() == 0 {
        0
    } else {
        c[0] * shape_product(shape.drop_first()) + flat_index(shape.drop_first(), c.drop_first())
    }
}

/// Whether buffer coordinate `c` is selected by `region`: in every
/// dimension it lies on the descriptor's stride within its window.
pub open spec fn region_selects(region: Seq<RegionElem>, c: Seq<int>) -> bool {
    &&& c.len() == region.len()
    &&& forall|i: int|
        0 <= i < c.len() ==> (region[i].start <= #[trigger] c[i] < region[i].end && (c[i]
            - region[i].start) % (region[i].step as int) == 0)
}

/// The buffer coordinate that region coordinate `q` (an index into the
/// region's selected sub-extent) refers to.
pub open spec fn region_coord(region: Seq<RegionElem>, q: Seq<int>) -> Seq<int>
    recommends
        q.len() == region.len(),
{
    Seq::new(q.len(), |i: int| region[i].start + q[i] * (region[i].step as int))
}

/// A shape is valid when a dense buffer of it can be allocated: the
/// product of its non-zero dimension sizes fits in `isize` (ndarray's own
/// size check), and the byte count of the allocation — the element count
/// times the eight bytes of an element — fits in `isize` too (the backing
/// vector's limit).
pub open spec fn valid_shape(shape: Seq<usize>) -> bool {
    &&& shape_nonzero_product(shape) <= isize::MAX as int
    &&& shape_product(shape) * 8 <= isize::MAX as int
}

/// A dense multi-dimensional buffer of numeric elements, owned by the
/// ndarray collaborator. The type is opaque to the verifier; its contents
/// are reached through `tensor_shape` and `tensor_elems` and the trusted
/// operations below.
#[derive(Debug)]
#[verifier::external_body]
pub struct Tensor {
    data: ndarray::ArrayD<i64>,
}

/// The dimension sizes of a tensor, outermost axis first.
pub uninterp spec fn tensor_shape(t: Tensor) -> Seq<usize>;

/// The elements of a tensor, flattened in row-major (logical index) order.
pub uninterp spec fn tensor_elems(t: Tensor) -> Seq<i64>;

impl Tensor {
    /// Relies on ndarray's `from_shape_vec` with a row-major shape: an
    /// array of the given shape holding exactly the given elements in
    /// logical order, or an error when the element count does not match
    /// the shape or the shape is too large.
    #[verifier::external_body]
    pub fn from_parts(shape: &Vec<usize>, values: &Vec<i64>) -> (r: Result<Tensor, CacheError>)
        ensures
            match r {
                Ok(t) => tensor_shape(t) == shape@ && tensor_elems(t) == values@,
                Err(e) => e == CacheError::InvalidShape,
            },
            (valid_shape(shape@) && values@.len() == shape_product(shape@)) ==> r is Ok,
    {
        match ndarray::ArrayD::from_shape_vec(ndarray::IxDyn(shape.as_slice()), values.clone()) {
            Ok(data) => Ok(Tensor { data }),
            Err(_) => Err(CacheError::InvalidShape),
        }
    }

    /// Relies on ndarray's `ArrayBase::shape`: the dimension sizes of the
    /// array, one per axis.
    #[verifier::external_body]
    pub fn shape(&self) -> (r: Vec<usize>)
        ensures
            r@ == tensor_shape(*self),
    {
        self.data.shape().to_vec()
    }

    /// Relies on ndarray's `iter`, which visits elements in logical
    /// (row-major) order: the elements of the array, flattened.
    #[verifier::external_body]
    pub fn to_vec(&self) -> (r: Vec<i64>)
        ensures
            r@ == tensor_elems(*self),
    {
        self.data.iter().copied().collect()
    }

    /// Relies on ndarray's `ArrayBase::zeros`: a zero-filled array of the
    /// given shape. `zeros` panics when the product of the non-zero
    /// dimension sizes overflows `isize`, and the backing `vec!`
    /// allocation panics when the byte count overflows `isize`;
    /// `valid_shape` excludes both.
    #[verifier::external_body]
    pub(crate) fn zeros(shape: &Vec<usize>) -> (r: Tensor)
        requires
            valid_shape(shape@),
        ensures
            tensor_shape(r) == shape@,
            tensor_elems(r) == Seq::new(shape_product(shape@) as nat, |i: int| 0i64),
    {
        Tensor { data: ndarray::ArrayD::zeros(ndarray::IxDyn(shape.as_slice())) }
    }

    /// Relies on ndarray's `slice_mut` + `assign`: writes `values` into
    /// the sub-region of this array described by `region`, one slice
    /// descriptor per axis. `region_in_bounds` keeps every descriptor
    /// inside the array and inside `isize` (ndarray guarantees each
    /// dimension of a real array fits in `isize`), so `slice_mut` cannot
    /// panic; the region's dimensions equal `values`' shape, so `assign`
    /// copies element-for-element by logical index: the buffer position
    /// of region coordinate `q` takes `values`' element at `q`, every
    /// position the region does not select keeps its element, and a
    /// full-extent region replaces the whole logical contents with those
    /// of `values`.
    #[verifier::external_body]
    pub(crate) fn slice_assign(&mut self, region: &Vec<RegionElem>, values: &Tensor)
        requires
            region_in_bounds(region@, tensor_shape(*old(self))),
            region_dims(region@) == tensor_shape(*values),
        ensures
            tensor_shape(*final(self)) == tensor_shape(*old(self)),
            tensor_elems(*final(self)).len() == tensor_elems(*old(self)).len(),
            forall|q: Seq<int>|
                in_shape(region_dims(region@), q) ==> tensor_elems(*final(self))[flat_index(
                    tensor_shape(*old(self)),
                    region_coord(region@, q),
                )] == tensor_elems(*values)[#[trigger] flat_index(region_dims(region@), q)],
            forall|c: Seq<int>|
                in_shape(tensor_shape(*old(self)), c) && !region_selects(region@, c)
                    ==> tensor_elems(*final(self))[#[trigger] flat_index(
                    tensor_shape(*old(self)),
                    c,
                )] == tensor_elems(*old(self))[flat_index(tensor_shape(*old(self)), c)],
            region_is_full(region@, tensor_shape(*old(self))) ==> tensor_elems(*final(self))
                == tensor_elems(*values),
    {
        let infos: Vec<ndarray::SliceInfoElem> = region
            .iter()
            .map(|e| ndarray::SliceInfoElem::Slice {
                start: e.start as isize,
                end: Some(e.end as isize),
                step: e.step as isize,
            })
            .collect();
        self.data.slice_mut(infos.as_slice()).assign(&values.data);
    }

    /// Relies on ndarray's `slice` + `to_owned`: an owned copy of the
    /// sub-region of this array described by `region`, one slice
    /// descriptor per axis. `region_in_bounds` keeps every descriptor
    /// inside the array and inside `isize`, so `slice` cannot panic. The
    /// copy's element at region coordinate `q` is this array's element at
    /// the buffer position `q` refers to; a full-extent region copies the
    /// whole array.
    #[verifier::external_body]
    pub(crate) fn slice_read(&self, region: &Vec<RegionElem>) -> (r: Tensor)
        requires
            region_in_bounds(region@, tensor_shape(*self)),
        ensures
            tensor_shape(r) == region_dims(region@),
            tensor_elems(r).len() == shape_product(region_dims(region@)),
            forall|q: Seq<int>|
                in_shape(region_dims(region@), q) ==> tensor_elems(r)[#[trigger] flat_index(
                    region_dims(region@),
                    q,
                )] == tensor_elems(*self)[flat_index(
                    tensor_shape(*self),
                    region_coord(region@, q),
                )],
            region_is_full(region@, tensor_shape(*self)) ==> tensor_elems(r) == tensor_elems(
                *self,
            ),
    {
        let infos: Vec<ndarray::SliceInfoElem> = region
            .iter()
            .map(|e| ndarray::SliceInfoElem::Slice {
                start: e.start as isize,
                end: Some(e.end as isize),
                step: e.step as isize,
            })
            .collect();
        Tensor { data: self.data.slice(infos.as_slice()).to_owned() }
    }
}

} // verus!

use vstd::prelude::*;
use crate::errors::CacheError;
use crate::tensor::{RegionElem, Tensor, flat_index, in_shape, region_coord, region_dims,
    region_in_bounds, region_is_full, region_selects, shape_nonzero_product, shape_product,
    slice_count, tensor_elems, tensor_shape, valid_shape};

verus! {

/// Both shape products are at least zero, the non-zero product is at least
/// one, and it dominates the plain product.
proof fn lemma_product_bounds(s: Seq<usize>)
    ensures
        shape_nonzero_product(s) >= 1,
        0 <= shape_product(s) <= shape_nonzero_product(s),
    decreases s.len(),
{
    if s.len() > 0 {
        lemma_product_bounds(s.drop_last());
        let p = shape_product(s.drop_last());
        let q = shape_nonzero_product(s.drop_last());
        let d = s.last() as int;
        if d == 0 {
            assert(shape_product(s) == p * 0);
        } else {
            assert(p * d <= q * d && q * d >= 1 && p * d >= 0) by (nonlinear_arith)
                requires
                    0 <= p <= q,
                    q >= 1,
                    d >= 1,
            ;
        }
    }
}

/// Extending a prefix of a shape can only grow the non-zero product.
proof fn lemma_nonzero_product_extends(s: Seq<usize>, i: int)
    requires
        0 <= i <= s.len(),
    ensures
        shape_nonzero_product(s) >= shape_nonzero_product(s.subrange(0, i)),
    decreases s.len() - i,
{
    if i == s.len() {
        assert(s.subrange(0, i) =~= s);
    } else {
        lemma_nonzero_product_extends(s, i + 1);
        let a = s.subrange(0, i);
        let b = s.subrange(0, i + 1);
        assert(b.drop_last() =~= a);
        lemma_product_bounds(a);
        let q = shape_nonzero_product(a);
        let f: int = if s[i] == 0 {
            1
        } else {
            s[i] as int
        };
        assert(shape_nonzero_product(b) == q * f);
        assert(q * f >= q) by (nonlinear_arith)
            requires
                q >= 1,
                f >= 1,
        ;
    }
}

/// A shape's element count is zero when some dimension is zero, and
/// equals the non-zero product when none is.
proof fn lemma_product_zero_or_equal(s: Seq<usize>)
    ensures
        (exists|j: int| 0 <= j < s.len() && s[j] == 0) ==> shape_product(s) == 0,
        !(exists|j: int| 0 <= j < s.len() && s[j] == 0) ==> shape_product(s)
            == shape_nonzero_product(s),
    decreases s.len(),
{
    if s.len() > 0 {
        lemma_product_zero_or_equal(s.drop_last());
        if s.last() == 0 {
            assert(shape_product(s) == shape_product(s.drop_last()) * 0);
        } else if exists|j: int| 0 <= j < s.len() && s[j] == 0 {
            let j = choose|j: int| 0 <= j < s.len() && s[j] == 0;
            assert(s.drop_last()[j] == 0);
            assert(shape_product(s) == 0 * (s.last() as int));
        } else {
            assert(forall|j: int|
                0 <= j < s.drop_last().len() ==> #[trigger] s.drop_last()[j] == s[j]);
        }
    }
}

/// Decides `valid_shape` for a shape.
pub fn check_shape(shape: &Vec<usize>) -> (r: bool)
    ensures
        r == valid_shape(shape@),
{
    let limit: usize = isize::MAX as usize;
    let mut acc: usize = 1;
    let mut has_zero: bool = false;
    let mut i: usize = 0;
    proof {
        assert(shape@.subrange(0, 0) =~= Seq::<usize>::empty());
    }
    while i < shape.len()
        invariant
            i <= shape@.len(),
            acc == shape_nonzero_product(shape@.subrange(0, i as int)),
            acc <= limit,
            limit == isize::MAX as int,
            has_zero == (exists|j: int| 0 <= j < i && shape@[j] == 0),
        decreases shape@.len() - i,
    {
        let d = shape[i];
        proof {
            assert(shape@.subrange(0, i + 1).drop_last() =~= shape@.subrange(0, i as int));
            assert(shape@.subrange(0, i + 1).last() == shape@[i as int]);
        }
        if d == 0 {
            has_zero = true;
            proof {
                assert(shape@[i as int] == 0);
            }
        } else {
            match acc.checked_mul(d) {
                Some(next) => {
                    if next > limit {
                        proof {
                            lemma_nonzero_product_extends(shape@, i + 1);
                        }
                        return false;
                    }
                    acc = next;
                },
                None => {
                    proof {
                        lemma_nonzero_product_extends(shape@, i + 1);
                    }
                    return false;
                },
            }
            proof {
                assert forall|j: int| 0 <= j < i + 1 && shape@[j] == 0 implies j < i by {
                    assert(shape@[i as int] != 0);
                }
            }
        }
        i = i + 1;
    }
    proof {
        assert(shape@.subrange(0, shape@.len() as int) =~= shape@);
        lemma_product_zero_or_equal(shape@);
    }
    if has_zero {
        return true;
    }
    proof {
        assert(shape_product(shape@) == shape_nonzero_product(shape@));
        assert(acc * 8 <= isize::MAX as int <==> acc <= (isize::MAX as int) / 8);
    }
    acc <= limit / 8
}

/// Builds the region that selects the whole of a buffer of shape `shape`.
pub fn full_region(shape: &Vec<usize>) -> (r: Vec<RegionElem>)
    ensures
        region_is_full(r@, shape@),
        region_in_bounds(r@, shape@),
        region_dims(r@) == shape@,
{
    let mut r: Vec<RegionElem> = Vec::new();
    let mut i: usize = 0;
    while i < shape.len()
        invariant
            i <= shape@.len(),
            r@.len() == i,
            forall|j: int|
                0 <= j < i ==> ((#[trigger] r@[j]).start == 0 && r@[j].end == shape@[j]
                    && r@[j].step == 1),
        decreases shape@.len() - i,
    {
        r.push(RegionElem { start: 0, end: shape[i], step: 1 });
        i = i + 1;
    }
    proof {
        assert forall|j: int| 0 <= j < r@.len() implies slice_count(#[trigger] r@[j]) as usize
            == shape@[j] by {
            if r@[j].end > 0 {
                assert(slice_count(r@[j]) == (r@[j].end - 1) as int / 1int + 1);
            }
        }
        assert(region_dims(r@) =~= shape@);
    }
    r
}

/// How many indices a descriptor selects.
fn slice_count_exec(e: &RegionElem) -> (r: usize)
    requires
        e.step >= 1,
        e.start <= e.end,
    ensures
        r == slice_count(*e),
{
    if e.end <= e.start {
        0
    } else {
        proof {
            assert((e.end - e.start - 1) as int / (e.step as int) <= (e.end - e.start - 1) as int)
                by (nonlinear_arith)
                requires
                    e.step >= 1,
                    e.end - e.start - 1 >= 0,
            ;
        }
        (e.end - e.start - 1) / e.step + 1
    }
}

/// Decides `region_in_bounds` for a region and a shape.
pub fn region_within(region: &Vec<RegionElem>, shape: &Vec<usize>) -> (r: bool)
    ensures
        r == region_in_bounds(region@, shape@),
{
    if region.len() != shape.len() {
        return false;
    }
    let mut i: usize = 0;
    while i < region.len()
        invariant
            region@.len() == shape@.len(),
            i <= region@.len(),
            forall|j: int|
                0 <= j < i ==> (1 <= (#[trigger] region@[j]).step && region@[j].step <= (
                isize::MAX as usize) && region@[j].start <= region@[j].end && region@[j].end
                    <= shape@[j]),
        decreases region@.len() - i,
    {
        let e = region[i];
        if e.step < 1 || e.step > (isize::MAX as usize) || e.start > e.end || e.end > shape[i] {
            return false;
        }
        i = i + 1;
    }
    true
}

/// Decides whether a region's selected dimensions equal `dims`.
pub fn region_matches(region: &Vec<RegionElem>, dims: &Vec<usize>) -> (r: bool)
    requires
        forall|j: int|
            0 <= j < region@.len() ==> (1 <= (#[trigger] region@[j]).step && region@[j].start
                <= region@[j].end),
    ensures
        r == (region_dims(region@) == dims@),
{
    if region.len() != dims.len() {
        proof {
            assert(region_dims(region@).len() == region@.len());
        }
        return false;
    }
    let mut i: usize = 0;
    while i < region.len()
        invariant
            region@.len() == dims@.len(),
            i <= region@.len(),
            forall|j: int|
                0 <= j < region@.len() ==> (1 <= (#[trigger] region@[j]).step && region@[j].start
                    <= region@[j].end),
            forall|j: int| 0 <= j < i ==> slice_count(#[trigger] region@[j]) as usize == dims@[j],
        decreases region@.len() - i,
    {
        let e = region[i];
        let c = slice_count_exec(&e);
        if c != dims[i] {
            proof {
                assert(region_dims(region@)[i as int] != dims@[i as int]);
            }
            return false;
        }
        i = i + 1;
    }
    proof {
        assert(region_dims(region@) =~= dims@);
    }
    true
}

/// A model of a shaped buffer: its shape, and its elements flattened in
/// row-major order.
#[verifier::ext_equal]
pub struct BufferModel {
    pub shape: Seq<usize>,
    pub elems: Seq<i64>,
}

/// A zero-initialized dense multi-dimensional numeric buffer of fixed
/// shape, backed by the ndarray collaborator. Supports sub-region writes
/// and sub-region or full reads.
#[derive(Debug)]
pub struct Storage {
    data: Tensor,
}

impl View for Storage {
    type V = BufferModel;

    closed spec fn view(&self) -> BufferModel {
        BufferModel { shape: tensor_shape(self.data), elems: tensor_elems(self.data) }
    }
}

impl Storage {
    /// Allocates a zero-filled buffer of the given shape, rejecting a shape
    /// too large for its allocation to fit in `isize`.
    pub fn new(shape: &Vec<usize>) -> (r: Result<Storage, CacheError>)
        ensures
            valid_shape(shape@) ==> (r matches Ok(s) && s@.shape == shape@ && s@.elems == Seq::new(
                shape_product(shape@) as nat,
                |i: int| 0i64,
            )),
            !valid_shape(shape@) ==> r == Err::<Storage, CacheError>(CacheError::InvalidShape),
    {
        if !check_shape(shape) {
            return Err(CacheError::InvalidShape);
        }
        Ok(Storage { data: Tensor::zeros(shape) })
    }

    /// Copies `values` into the sub-region described by `region`. The
    /// region must lie within the buffer and select exactly the shape of
    /// `values`; otherwise nothing is written and an error is returned.
    /// On success, the buffer position of each region coordinate `q`
    /// takes `values`' element at `q`, every position the region does not
    /// select keeps its element, and a full-extent write replaces the
    /// buffer's whole contents.
    pub fn set_subarray(&mut self, region: &Vec<RegionElem>, values: &Tensor) -> (r: Result<
        (),
        CacheError,
    >)
        ensures
            final(self)@.shape == old(self)@.shape,
            r is Ok <==> (region_in_bounds(region@, old(self)@.shape) && region_dims(region@)
                == tensor_shape(*values)),
            r is Err ==> final(self)@ == old(self)@ && r == Err::<(), CacheError>(
                CacheError::InvalidShape,
            ),
            r is Ok ==> final(self)@.elems.len() == old(self)@.elems.len(),
            r is Ok ==> (forall|q: Seq<int>|
                in_shape(region_dims(region@), q) ==> final(self)@.elems[flat_index(
                    old(self)@.shape,
                    region_coord(region@, q),
                )] == tensor_elems(*values)[#[trigger] flat_index(region_dims(region@), q)]),
            r is Ok ==> (forall|c: Seq<int>|
                in_shape(old(self)@.shape, c) && !region_selects(region@, c)
                    ==> final(self)@.elems[#[trigger] flat_index(old(self)@.shape, c)] == old(
                    self,
                )@.elems[flat_index(old(self)@.shape, c)]),
            (r is Ok && region_is_full(region@, old(self)@.shape)) ==> final(self)@.elems
                == tensor_elems(*values),
    {
        let my_shape = self.data.shape();
        let val_shape = values.shape();
        if !region_within(region, &my_shape) {
            return Err(CacheError::InvalidShape);
        }
        if !region_matches(region, &val_shape) {
            return Err(CacheError::InvalidShape);
        }
        self.data.slice_assign(region, values);
        Ok(())
    }

    /// A read-only view of the entire buffer.
    pub fn get_data(&self) -> (r: &Tensor)
        ensures
            tensor_shape(*r) == self@.shape,
            tensor_elems(*r) == self@.elems,
    {
        &self.data
    }

    /// An owned copy of the sub-region described by `region`, or an error
    /// when the region does not lie within the buffer. The copy's element
    /// at each region coordinate `q` is the buffer's element at the
    /// position `q` refers to.
    pub fn get_subarray(&self, region: &Vec<RegionElem>) -> (r: Result<Tensor, CacheError>)
        ensures
            r is Ok <==> region_in_bounds(region@, self@.shape),
            r matches Ok(a) ==> tensor_shape(a) == region_dims(region@) && (region_is_full(
                region@,
                self@.shape,
            ) ==> tensor_elems(a) == self@.elems),
            r matches Ok(a) ==> (tensor_elems(a).len() == shape_product(region_dims(region@))
                && (forall|q: Seq<int>|
                in_shape(region_dims(region@), q) ==> tensor_elems(a)[#[trigger] flat_index(
                    region_dims(region@),
                    q,
                )] == self@.elems[flat_index(self@.shape, region_coord(region@, q))])),
            r is Err ==> r == Err::<Tensor, CacheError>(CacheError::InvalidShape),
    {
        let my_shape = self.data.shape();
        if !region_within(region, &my_shape) {
            return Err(CacheError::InvalidShape);
        }
        Ok(self.data.slice_read(region))
    }
}

} // verus!

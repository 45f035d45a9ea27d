//! Cache-aware tensor blocks: row-major multi-dimensional storage sized for a
//! level of the cache hierarchy, and the cache placement rules for allocations.
use vstd::prelude::*;
use std::sync::Arc;
use crate::morton::{MortonEncoding, interleaves_2d, interleaves_3d};
use crate::text::{decimal, push_decimal};

verus! {

/// Errors that can occur in tensor operations
#[derive(Debug)]
pub enum TensorError {
    InvalidDimensions(String),
    CacheAllocationError(String),
    MortonError(String),
    FoldingError(String),
    AlignmentError(String),
}

/// Result type of the tensor operations
pub type TensorResult<T> = Result<T, TensorError>;

/// Cache levels for memory hierarchy optimization
#[derive(Debug, Clone, Copy, PartialEq, Eq, Hash, Structural)]
pub enum CacheLevel {
    L1,
    L2,
    L3,
    Memory,
}

/// Capacity in bytes of a cache level (unbounded main memory counts as the whole
/// address space).
pub open spec fn cache_capacity(level: CacheLevel) -> usize {
    match level {
        CacheLevel::L1 => 32768usize,
        CacheLevel::L2 => 262144usize,
        CacheLevel::L3 => 8388608usize,
        CacheLevel::Memory => usize::MAX,
    }
}

/// Line size in bytes of a cache level (a page for main memory).
pub open spec fn line_bytes(level: CacheLevel) -> usize {
    if level == CacheLevel::Memory {
        4096usize
    } else {
        64usize
    }
}

impl CacheLevel {
    /// Get the typical cache size for this level
    pub fn typical_size(self) -> (r: usize)
        ensures
            r == cache_capacity(self),
    {
        match self {
            CacheLevel::L1 => 32 * 1024,
            CacheLevel::L2 => 256 * 1024,
            CacheLevel::L3 => 8 * 1024 * 1024,
            CacheLevel::Memory => usize::MAX,
        }
    }

    /// Get the cache line size for this level
    pub fn line_size(self) -> (r: usize)
        ensures
            r == line_bytes(self),
    {
        match self {
            CacheLevel::L1 | CacheLevel::L2 => 64,
            CacheLevel::L3 => 64,
            CacheLevel::Memory => 4096,
        }
    }
}

/// Number of elements of a tensor with the given dimensions.
pub open spec fn dims_product(dims: Seq<usize>) -> nat
    decreases dims.len(),
{
    if dims.len() == 0 {
        1
    } else {
        dims_product(dims.drop_last()) * (dims.last() as nat)
    }
}

/// Product of dims[i..].
pub open spec fn suffix_product(dims: Seq<usize>, i: int) -> nat
    decreases dims.len() - i,
{
    if i >= dims.len() {
        1
    } else {
        (dims[i] as nat) * suffix_product(dims, i + 1)
    }
}

/// Row-major offset contributed by indices[i..]: the sum over k >= i of
/// indices[k] times the product of the dimensions after k.
pub open spec fn offset_from(indices: Seq<usize>, dims: Seq<usize>, i: int) -> nat
    decreases dims.len() - i,
{
    if i >= dims.len() {
        0
    } else {
        (indices[i] as nat) * suffix_product(dims, i + 1) + offset_from(indices, dims, i + 1)
    }
}

/// Row-major linear offset of a multi-dimensional index.
pub open spec fn row_major_offset(indices: Seq<usize>, dims: Seq<usize>) -> nat {
    offset_from(indices, dims, 0)
}

/// Row-major layout numbers the elements without gaps or overlaps: an index within
/// the dimensions lands below the element count, and two such indices land on the
/// same element only when they are equal. In two dimensions element (i, j) of an
/// r x c tensor is element i * c + j.
pub proof fn law_row_major_layout(a: Seq<usize>, b: Seq<usize>, dims: Seq<usize>, i: usize, j: usize, r: usize, c: usize)
    ensures
        in_bounds(a, dims) ==> row_major_offset(a, dims) < dims_product(dims),
        in_bounds(a, dims) && in_bounds(b, dims) && row_major_offset(a, dims) == row_major_offset(b, dims)
            ==> a == b,
        row_major_offset(seq![i, j], seq![r, c]) == i * c + j,
{
    if in_bounds(a, dims) {
        lemma_offset_bound(a, dims, 0);
        lemma_dims_product_suffix(dims);
        if in_bounds(b, dims) && row_major_offset(a, dims) == row_major_offset(b, dims) {
            lemma_offset_injective(a, b, dims, 0);
            assert(a =~= b);
        }
    }
    let ix = seq![i, j];
    let ds = seq![r, c];
    assert(ds.len() == 2 && ds[1] == c && ix[0] == i && ix[1] == j);
    assert(suffix_product(ds, 2) == 1);
    assert(suffix_product(ds, 1) == (c as nat) * 1);
    assert(offset_from(ix, ds, 2) == 0);
    assert(offset_from(ix, ds, 1) == j);
    assert(offset_from(ix, ds, 0) == i * c + j);
}

/// Every index lies within its dimension.
pub open spec fn in_bounds(indices: Seq<usize>, dims: Seq<usize>) -> bool {
    &&& indices.len() == dims.len()
    &&& forall|i: int| 0 <= i < dims.len() ==> #[trigger] indices[i] < dims[i]
}

/// Message for an index list of the wrong length.
pub open spec fn arity_text(expected: usize, got: usize) -> Seq<char> {
    "Expected "@ + decimal(expected as nat) + " indices, got "@ + decimal(got as nat)
}

/// Message for an index beyond its dimension.
pub open spec fn bounds_text(index: usize, dim: usize, size: usize) -> Seq<char> {
    "Index "@ + decimal(index as nat) + " out of bounds for dimension "@ + decimal(dim as nat) + " (size "@
        + decimal(size as nat) + ")"@
}

/// Message for a tensor with no elements.
pub open spec fn empty_text() -> Seq<char> {
    "Cannot create tensor with zero elements"@
}

/// The error for `indices` on a tensor of dimensions `dims`: an index list of the wrong
/// length, or else the last index beyond its dimension.
pub open spec fn index_error(e: TensorError, indices: Seq<usize>, dims: Seq<usize>) -> bool {
    e matches TensorError::InvalidDimensions(m) && if indices.len() != dims.len() {
        m@ == arity_text(dims.len() as usize, indices.len() as usize)
    } else {
        exists|i: int|
            0 <= i < dims.len() && indices[i] >= dims[i] && (forall|j: int| i < j < dims.len() ==> #[trigger] indices[j]
                < dims[j]) && m@ == bounds_text(indices[i], i as usize, dims[i])
    }
}

fn arity_message(expected: usize, got: usize) -> (r: String)
    ensures
        r@ == arity_text(expected, got),
{
    let mut s = String::from_str("Expected ");
    push_decimal(&mut s, expected as u64);
    s.append(" indices, got ");
    push_decimal(&mut s, got as u64);
    s
}

fn bounds_message(index: usize, dim: usize, size: usize) -> (r: String)
    ensures
        r@ == bounds_text(index, dim, size),
{
    let mut s = String::from_str("Index ");
    push_decimal(&mut s, index as u64);
    s.append(" out of bounds for dimension ");
    push_decimal(&mut s, dim as u64);
    s.append(" (size ");
    push_decimal(&mut s, size as u64);
    s.append(")");
    s
}

proof fn lemma_suffix_product_pos(dims: Seq<usize>, i: int)
    requires
        0 <= i,
        forall|k: int| i <= k < dims.len() ==> #[trigger] dims[k] > 0,
    ensures
        suffix_product(dims, i) > 0,
    decreases dims.len() - i,
{
    if i < dims.len() {
        lemma_suffix_product_pos(dims, i + 1);
        vstd::arithmetic::mul::lemma_mul_strictly_positive(dims[i] as int, suffix_product(dims, i + 1) as int);
    }
}

proof fn lemma_dims_product_suffix(dims: Seq<usize>)
    ensures
        dims_product(dims) == suffix_product(dims, 0),
    decreases dims.len(),
{
    if dims.len() > 0 {
        lemma_dims_product_suffix(dims.drop_last());
        lemma_suffix_split(dims, 0);
    }
}

proof fn lemma_suffix_split(dims: Seq<usize>, i: int)
    requires
        0 <= i <= dims.len(),
        dims.len() > 0,
    ensures
        i < dims.len() ==> suffix_product(dims, i) == suffix_product(dims.drop_last(), i) * (dims.last() as nat),
    decreases dims.len() - i,
{
    if i < dims.len() - 1 {
        lemma_suffix_split(dims, i + 1);
        assert(dims.drop_last()[i] == dims[i]);
        assert(suffix_product(dims.drop_last(), i) == (dims[i] as nat) * suffix_product(dims.drop_last(), i + 1));
        vstd::arithmetic::mul::lemma_mul_is_associative(
            dims[i] as int,
            suffix_product(dims.drop_last(), i + 1) as int,
            dims.last() as int,
        );
    } else if i == dims.len() - 1 {
        assert(suffix_product(dims, i + 1) == 1);
        assert(suffix_product(dims.drop_last(), i) == 1);
        assert(suffix_product(dims, i) == (dims[i] as nat) * 1);
        assert((dims[i] as nat) * 1 == 1 * (dims.last() as nat));
    }
}

proof fn lemma_offset_bound(indices: Seq<usize>, dims: Seq<usize>, i: int)
    requires
        0 <= i <= dims.len(),
        indices.len() == dims.len(),
        forall|k: int| i <= k < dims.len() ==> #[trigger] indices[k] < dims[k],
    ensures
        offset_from(indices, dims, i) < suffix_product(dims, i),
    decreases dims.len() - i,
{
    if i < dims.len() {
        lemma_offset_bound(indices, dims, i + 1);
        let s = suffix_product(dims, i + 1) as int;
        let o = offset_from(indices, dims, i + 1) as int;
        let x = indices[i] as int;
        let d = dims[i] as int;
        assert(x * s + o < d * s) by (nonlinear_arith)
            requires
                o < s,
                x < d,
                x >= 0,
                o >= 0,
        ;
    }
}

/// Ceiling of a / b.
pub open spec fn ceil_div(a: int, b: int) -> int {
    (a + b - 1) / b
}

/// `s` is the integer square root of `n`: s * s <= n < (s + 1) * (s + 1).
pub open spec fn is_floor_sqrt(s: nat, n: nat) -> bool {
    s * s <= n && n < (s + 1) * (s + 1)
}

/// The integer square root: the largest s with s * s <= n.
pub open spec fn floor_sqrt(n: nat) -> nat {
    choose|s: nat| #[trigger] is_floor_sqrt(s, n)
}

proof fn lemma_floor_sqrt_unique(n: nat, s: nat)
    requires
        s * s <= n,
        n < (s + 1) * (s + 1),
    ensures
        floor_sqrt(n) == s,
{
    assert(is_floor_sqrt(s, n));
    let t = floor_sqrt(n);
    assert(is_floor_sqrt(t, n));
    if t < s {
        assert((t + 1) * (t + 1) <= s * s) by (nonlinear_arith)
            requires
                t < s,
        ;
    } else if t > s {
        assert((s + 1) * (s + 1) <= t * t) by (nonlinear_arith)
            requires
                t > s,
        ;
    }
}

/// The largest s with s * s <= n.
pub fn integer_sqrt(n: usize) -> (s: usize)
    ensures
        s == floor_sqrt(n as nat),
        is_floor_sqrt(s as nat, n as nat),
{
    let x = n as u64;
    let mut lo: u64 = 0;
    let mut hi: u64 = 0x1_0000_0000;
    assert(x < hi * hi) by (nonlinear_arith)
        requires
            hi == 0x1_0000_0000,
            x <= u64::MAX,
    ;
    while hi - lo > 1
        invariant
            x == n,
            lo < hi <= 0x1_0000_0000,
            lo * lo <= x,
            x < hi * hi,
        decreases hi - lo,
    {
        let mid = lo + (hi - lo) / 2;
        assert(mid * mid <= 0xffff_ffffu64 * 0xffff_ffffu64) by (nonlinear_arith)
            requires
                mid < 0x1_0000_0000,
        ;
        if mid * mid <= x {
            lo = mid;
        } else {
            hi = mid;
        }
    }
    proof {
        assert(hi == lo + 1);
        lemma_floor_sqrt_unique(n as nat, lo as nat);
        assert(lo <= n) by (nonlinear_arith)
            requires
                lo * lo <= n,
        ;
    }
    lo as usize
}

/// The same block: equal data, dimensions and placement.
pub open spec fn same_block<T>(a: TensorBlock<T>, b: TensorBlock<T>) -> bool {
    &&& a.data@ == b.data@
    &&& a.dimensions@ == b.dimensions@
    &&& a.morton_index == b.morton_index
    &&& a.cache_level == b.cache_level
    &&& a.alignment == b.alignment
}

/// `b` is the h x w tile of the 2-D block `src` whose top-left element is at row r0,
/// column c0, placed at `level`: its element k is the element of `src` at row
/// r0 + k / w and column c0 + k % w.
pub open spec fn is_tile<T>(b: TensorBlock<T>, src: TensorBlock<T>, r0: int, c0: int, h: int, w: int, level: CacheLevel) -> bool {
    &&& b.dimensions@ == seq![h as usize, w as usize]
    &&& b.data.len() == h * w
    &&& b.cache_level == level
    &&& b.alignment == line_bytes(level)
    &&& interleaves_2d(b.morton_index, h as u32, w as u32)
    &&& forall|k: int|
        0 <= k < h * w ==> #[trigger] b.data[k] == src.data[(r0 + k / w) * src.dimensions[1] + (c0 + k % w)]
}

/// `b` is tile t of the grid of tiles of side ps over the 2-D block `src`, with nc
/// tiles per row of the grid: the tile at grid row t / nc and column t % nc, cut
/// short at the last row and column of `src`.
pub open spec fn tile_at<T>(b: TensorBlock<T>, src: TensorBlock<T>, level: CacheLevel, ps: int, nc: int, t: int) -> bool {
    let rows = src.dimensions[0] as int;
    let cols = src.dimensions[1] as int;
    let r0 = (t / nc) * ps;
    let c0 = (t % nc) * ps;
    is_tile(
        b,
        src,
        r0,
        c0,
        if rows - r0 < ps {
            rows - r0
        } else {
            ps
        },
        if cols - c0 < ps {
            cols - c0
        } else {
            ps
        },
        level,
    )
}

/// The elements per block when a block that is not 2-D is cut into runs: those that
/// fit in the level, and at least one.
pub open spec fn run_len(max: nat) -> nat {
    if max == 0 {
        1
    } else {
        max
    }
}

/// `b` is the 1-D block at `level` that holds the `n` elements of `src` from element
/// `start` on, in order.
pub open spec fn is_run<T>(b: TensorBlock<T>, src: TensorBlock<T>, start: int, n: int, level: CacheLevel) -> bool {
    &&& b.dimensions@ == seq![n as usize]
    &&& b.data.len() == n
    &&& b.cache_level == level
    &&& b.alignment == line_bytes(level)
    &&& b.morton_index == 0
    &&& forall|k: int| 0 <= k < n ==> #[trigger] b.data[k] == src.data[start + k]
}

/// What `fold` cuts `src` into for `level`, with elements of `size` bytes: the block
/// itself when it fits in the level; else, for a 2-D block, its tiles of side
/// floor_sqrt(elements that fit), in row-major order of the grid of tiles; else its
/// elements in row-major order, cut into 1-D runs of `run_len` elements (the last one
/// shorter where they do not divide evenly).
pub open spec fn folded<T>(src: TensorBlock<T>, level: CacheLevel, size: nat, blocks: Seq<TensorBlock<T>>) -> bool {
    let max = cache_capacity(level) as nat / size;
    if src.data.len() <= max {
        blocks.len() == 1 && same_block(blocks[0], src)
    } else if src.dimensions.len() != 2 {
        let c = run_len(max) as int;
        let n = src.data.len() as int;
        &&& blocks.len() == ceil_div(n, c)
        &&& forall|t: int|
            0 <= t < blocks.len() ==> is_run(
                #[trigger] blocks[t],
                src,
                t * c,
                if n - t * c < c {
                    n - t * c
                } else {
                    c
                },
                level,
            )
    } else {
        let ps = floor_sqrt(max) as int;
        let nc = ceil_div(src.dimensions[1] as int, ps);
        &&& blocks.len() == ceil_div(src.dimensions[0] as int, ps) * nc
        &&& forall|t: int| 0 <= t < blocks.len() ==> tile_at(#[trigger] blocks[t], src, level, ps, nc, t)
    }
}

/// Facts on the grid of tiles of side ps over n cells.
proof fn lemma_ceil_div(n: int, ps: int)
    requires
        n > 0,
        ps > 0,
    ensures
        ceil_div(n, ps) >= 1,
        ceil_div(n, ps) * ps >= n,
        forall|b: int| 0 <= b < ceil_div(n, ps) ==> #[trigger] (b * ps) < n,
{
    let q = ceil_div(n, ps);
    vstd::arithmetic::div_mod::lemma_fundamental_div_mod(n + ps - 1, ps);
    let r = (n + ps - 1) % ps;
    assert(n + ps - 1 == ps * q + r);
    assert(0 <= r < ps);
    assert(q >= 1) by (nonlinear_arith)
        requires
            n + ps - 1 == ps * q + r,
            0 <= r < ps,
            n > 0,
    ;
    assert(q * ps >= n) by (nonlinear_arith)
        requires
            n + ps - 1 == ps * q + r,
            0 <= r < ps,
    ;
    assert forall|b: int| 0 <= b < q implies #[trigger] (b * ps) < n by {
        assert(b * ps <= (q - 1) * ps) by (nonlinear_arith)
            requires
                b <= q - 1,
                ps > 0,
        ;
        assert((q - 1) * ps < n) by (nonlinear_arith)
            requires
                n + ps - 1 == ps * q + r,
                0 <= r,
        ;
    }
}

/// Index arithmetic of a tile: element k of an h x w tile lies inside the source.
proof fn lemma_tile_index(r0: int, c0: int, h: int, w: int, rows: int, cols: int, i: int, j: int)
    requires
        0 <= r0,
        0 <= c0,
        0 <= i < h,
        0 <= j < w,
        r0 + h <= rows,
        c0 + w <= cols,
    ensures
        0 <= (r0 + i) * cols + (c0 + j) < rows * cols,
        (i * w + j) / w == i,
        (i * w + j) % w == j,
        0 <= i * w + j < h * w,
{
    assert(0 <= (r0 + i) * cols + (c0 + j) < rows * cols) by (nonlinear_arith)
        requires
            0 <= r0,
            0 <= c0,
            0 <= i < h,
            0 <= j < w,
            r0 + h <= rows,
            c0 + w <= cols,
    ;
    vstd::arithmetic::div_mod::lemma_fundamental_div_mod_converse(i * w + j, w, i, j);
    assert(0 <= i * w + j < h * w) by (nonlinear_arith)
        requires
            0 <= i < h,
            0 <= j < w,
    ;
}

/// Cache-aware tensor block for optimal memory layout
#[derive(Debug)]
pub struct TensorBlock<T> {
    /// The data, in row-major order
    pub data: Vec<T>,
    /// Dimensions of the tensor block
    pub dimensions: Vec<usize>,
    /// Morton encoding index for spatial locality
    pub morton_index: u64,
    /// Target cache level for this block
    pub cache_level: CacheLevel,
    /// Memory alignment (in bytes)
    pub alignment: usize,
}

impl<T: Copy + Default> TensorBlock<T> {
    /// The data holds one element per index of the dimensions.
    pub open spec fn wf(&self) -> bool {
        &&& self.data.len() == dims_product(self.dimensions@)
        &&& self.data.len() > 0
    }

    /// Create a new tensor block with specified dimensions
    pub fn new(dimensions: Vec<usize>, cache_level: CacheLevel) -> (r: TensorResult<Self>)
        requires
            forall|i: int| 0 <= i <= dimensions.len() ==> dims_product(#[trigger] dimensions@.take(i)) <= usize::MAX,
        ensures
            (r is Ok) == (dims_product(dimensions@) != 0),
            r matches Err(e) ==> (e matches TensorError::InvalidDimensions(m) && m@ == empty_text()),
            r matches Ok(b) ==> {
                &&& b.wf()
                &&& b.dimensions@ == dimensions@
                &&& b.cache_level == cache_level
                &&& b.alignment == line_bytes(cache_level)
                &&& forall|i: int, j: int| 0 <= i < b.data.len() && 0 <= j < b.data.len() ==> b.data[i] == b.data[j]
                &&& forall|i: int| 0 <= i < b.data.len() ==> call_ensures(T::default, (), #[trigger] b.data[i])
                &&& dimensions.len() == 2 ==> interleaves_2d(b.morton_index, dimensions[0] as u32, dimensions[1] as u32)
                &&& dimensions.len() == 3 ==> interleaves_3d(
                    b.morton_index,
                    dimensions[0] as u32,
                    dimensions[1] as u32,
                    dimensions[2] as u32,
                )
                &&& dimensions.len() != 2 && dimensions.len() != 3 ==> b.morton_index == 0
            },
    {
        let mut total_elements: usize = 1;
        let mut i: usize = 0;
        while i < dimensions.len()
            invariant
                0 <= i <= dimensions.len(),
                forall|i: int| 0 <= i <= dimensions.len() ==> dims_product(#[trigger] dimensions@.take(i)) <= usize::MAX,
                total_elements == dims_product(dimensions@.take(i as int)),
            decreases dimensions.len() - i,
        {
            proof {
                assert(dimensions@.take(i + 1).drop_last() == dimensions@.take(i as int));
                assert(dims_product(dimensions@.take(i + 1)) <= usize::MAX);
            }
            total_elements = total_elements * dimensions[i];
            i += 1;
        }
        proof {
            assert(dimensions@.take(dimensions.len() as int) == dimensions@);
        }
        if total_elements == 0 {
            return Err(TensorError::InvalidDimensions(String::from_str("Cannot create tensor with zero elements")));
        }
        let zero = T::default();
        assert(call_ensures(T::default, (), zero));
        let mut data: Vec<T> = Vec::new();
        let mut k: usize = 0;
        while k < total_elements
            invariant
                0 <= k <= total_elements,
                data.len() == k,
                forall|j: int| 0 <= j < k ==> data[j] == zero,
            decreases total_elements - k,
        {
            data.push(zero);
            k += 1;
        }
        let morton_index = if dimensions.len() == 2 {
            MortonEncoding::encode_2d(dimensions[0] as u32, dimensions[1] as u32)
        } else if dimensions.len() == 3 {
            MortonEncoding::encode_3d(dimensions[0] as u32, dimensions[1] as u32, dimensions[2] as u32)
        } else {
            0
        };
        let r = Self { data, dimensions, morton_index, cache_level, alignment: cache_level.line_size() };
        Ok(r)
    }

    /// Get element at multi-dimensional index
    pub fn get(&self, indices: &[usize]) -> (r: TensorResult<&T>)
        requires
            self.wf(),
        ensures
            (r is Ok) == in_bounds(indices@, self.dimensions@),
            r matches Err(e) ==> index_error(e, indices@, self.dimensions@),
            r matches Ok(v) ==> *v == self.data[row_major_offset(indices@, self.dimensions@) as int],
    {
        let linear_index = match self.compute_linear_index(indices) {
            Ok(l) => l,
            Err(e) => {
                return Err(e);
            },
        };
        Ok(&self.data[linear_index])
    }

    /// Set element at multi-dimensional index
    pub fn set(&mut self, indices: &[usize], value: T) -> (r: TensorResult<()>)
        requires
            old(self).wf(),
        ensures
            (r is Ok) == in_bounds(indices@, old(self).dimensions@),
            r matches Err(e) ==> index_error(e, indices@, old(self).dimensions@),
            final(self).wf(),
            final(self).dimensions == old(self).dimensions,
            final(self).morton_index == old(self).morton_index,
            final(self).cache_level == old(self).cache_level,
            final(self).alignment == old(self).alignment,
            r is Ok ==> final(self).data@ == old(self).data@.update(
                row_major_offset(indices@, old(self).dimensions@) as int,
                value,
            ),
            r is Err ==> final(self).data@ == old(self).data@,
    {
        let linear_index = match self.compute_linear_index(indices) {
            Ok(l) => l,
            Err(e) => {
                return Err(e);
            },
        };
        self.data.set(linear_index, value);
        Ok(())
    }

    /// Compute linear index from multi-dimensional indices
    fn compute_linear_index(&self, indices: &[usize]) -> (r: TensorResult<usize>)
        requires
            self.wf(),
        ensures
            (r is Ok) == in_bounds(indices@, self.dimensions@),
            r matches Err(e) ==> index_error(e, indices@, self.dimensions@),
            r matches Ok(l) ==> l == row_major_offset(indices@, self.dimensions@) && l < self.data.len(),
    {
        let n = self.dimensions.len();
        if indices.len() != n {
            return Err(TensorError::InvalidDimensions(arity_message(n, indices.len())));
        }
        let mut linear_index: usize = 0;
        let mut stride: usize = 1;
        let mut i: usize = n;
        proof {
            lemma_dims_product_suffix(self.dimensions@);
        }
        while i > 0
            invariant
                n == self.dimensions.len(),
                indices.len() == n,
                self.wf(),
                suffix_product(self.dimensions@, 0) == self.data.len(),
                0 <= i <= n,
                forall|k: int| i <= k < n ==> #[trigger] indices[k] < self.dimensions[k],
                stride == suffix_product(self.dimensions@, i as int),
                linear_index == offset_from(indices@, self.dimensions@, i as int),
            decreases i,
        {
            i -= 1;
            let index = indices[i];
            if index >= self.dimensions[i] {
                return Err(TensorError::InvalidDimensions(bounds_message(index, i, self.dimensions[i])));
            }
            proof {
                lemma_offset_bound(indices@, self.dimensions@, i as int);
                lemma_suffix_prefix_bound(self.dimensions@, i as int);
                vstd::arithmetic::mul::lemma_mul_is_commutative(stride as int, self.dimensions[i as int] as int);
                assert(suffix_product(self.dimensions@, i as int) == self.dimensions[i as int] * suffix_product(self.dimensions@, i + 1));
            }
            linear_index += index * stride;
            stride *= self.dimensions[i];
        }
        proof {
            lemma_offset_bound(indices@, self.dimensions@, 0);
        }
        Ok(linear_index)
    }
}

impl<T: Copy> Clone for TensorBlock<T> {
    fn clone(&self) -> (r: Self)
        ensures
            same_block(r, *self),
    {
        TensorBlock {
            data: vstd::slice::slice_to_vec(self.data.as_slice()),
            dimensions: vstd::slice::slice_to_vec(self.dimensions.as_slice()),
            morton_index: self.morton_index,
            cache_level: self.cache_level,
            alignment: self.alignment,
        }
    }
}

impl<T: Copy + Default> TensorBlock<T> {
    /// Fold the tensor into smaller cache-friendly blocks
    pub fn fold(&self, target_cache_level: CacheLevel) -> (r: TensorResult<Vec<TensorBlock<T>>>)
        requires
            self.wf(),
            vstd::layout::size_of::<T>() > 0,
            self.data.len() * vstd::layout::size_of::<T>() <= usize::MAX,
            self.dimensions.len() == 2 ==> vstd::layout::size_of::<T>() <= cache_capacity(target_cache_level),
        ensures
            r matches Ok(blocks) && folded(*self, target_cache_level, vstd::layout::size_of::<T>(), blocks@),
    {
        let target_size = target_cache_level.typical_size();
        let element_size = core::mem::size_of::<T>();
        let max_elements = target_size / element_size;
        if self.data.len() <= max_elements {
            let mut single: Vec<TensorBlock<T>> = Vec::new();
            single.push(self.clone());
            return Ok(single);
        }
        let mut blocks: Vec<TensorBlock<T>> = Vec::new();
        let partition_size = integer_sqrt(max_elements);
        if self.dimensions.len() == 2 {
            let rows = self.dimensions[0];
            let cols = self.dimensions[1];
            let ghost ps = partition_size as int;
            let ghost nr = ceil_div(rows as int, ps);
            let ghost nc = ceil_div(cols as int, ps);
            proof {
                reveal_with_fuel(dims_product, 3);
                assert(self.data.len() == rows * cols);
                assert(rows > 0 && cols > 0) by (nonlinear_arith)
                    requires
                        rows * cols > 0,
                ;
                assert(max_elements >= 1) by (nonlinear_arith)
                    requires
                        max_elements == target_size / element_size,
                        element_size <= target_size,
                        element_size > 0,
                ;
                assert(is_floor_sqrt(partition_size as nat, max_elements as nat));
                assert(partition_size > 0) by (nonlinear_arith)
                    requires
                        max_elements < (partition_size + 1) * (partition_size + 1),
                        max_elements >= 1,
                ;
                lemma_ceil_div(rows as int, ps);
                lemma_ceil_div(cols as int, ps);
            }
            let mut row_start: usize = 0;
            let ghost mut br: int = 0;
            while row_start < rows
                invariant
                    self.wf(),
                    self.dimensions.len() == 2,
                    rows == self.dimensions[0],
                    cols == self.dimensions[1],
                    self.data.len() == rows * cols,
                    rows > 0,
                    cols > 0,
                    ps == partition_size,
                    ps > 0,
                    nr == ceil_div(rows as int, ps),
                    nc == ceil_div(cols as int, ps),
                    nr * ps >= rows,
                    nc * ps >= cols,
                    nc >= 1,
                    forall|b: int| 0 <= b < nr ==> #[trigger] (b * ps) < rows,
                    forall|b: int| 0 <= b < nc ==> #[trigger] (b * ps) < cols,
                    0 <= br <= nr,
                    row_start == if br < nr {
                        br * ps
                    } else {
                        rows as int
                    },
                    blocks.len() == br * nc,
                    forall|t: int| 0 <= t < blocks.len() ==> tile_at(#[trigger] blocks[t], *self, target_cache_level, ps, nc, t),
                decreases nr - br,
            {
                assert(br < nr);
                let row_end = if rows - row_start < partition_size {
                    rows
                } else {
                    row_start + partition_size
                };
                let mut col_start: usize = 0;
                let ghost mut bc: int = 0;
                while col_start < cols
                    invariant
                        self.wf(),
                        self.dimensions.len() == 2,
                        rows == self.dimensions[0],
                        cols == self.dimensions[1],
                        self.data.len() == rows * cols,
                        ps == partition_size,
                        ps > 0,
                        nc == ceil_div(cols as int, ps),
                        nc * ps >= cols,
                        nc >= 1,
                        forall|b: int| 0 <= b < nc ==> #[trigger] (b * ps) < cols,
                        0 <= br < nr,
                        row_start == br * ps,
                        row_start < row_end <= rows,
                        row_end == if rows - row_start < ps {
                            rows as int
                        } else {
                            row_start + ps
                        },
                        0 <= bc <= nc,
                        col_start == if bc < nc {
                            bc * ps
                        } else {
                            cols as int
                        },
                        blocks.len() == br * nc + bc,
                        forall|t: int| 0 <= t < blocks.len() ==> tile_at(#[trigger] blocks[t], *self, target_cache_level, ps, nc, t),
                    decreases nc - bc,
                {
                    assert(bc < nc);
                    let col_end = if cols - col_start < partition_size {
                        cols
                    } else {
                        col_start + partition_size
                    };
                    let h = row_end - row_start;
                    let w = col_end - col_start;
                    proof {
                        assert(h * w <= rows * cols) by (nonlinear_arith)
                            requires
                                0 < h <= rows,
                                0 < w <= cols,
                        ;
                        assert(h * w > 0) by (nonlinear_arith)
                            requires
                                h > 0,
                                w > 0,
                        ;
                    }
                    let mut dims: Vec<usize> = Vec::new();
                    dims.push(h);
                    dims.push(w);
                    proof {
                        reveal_with_fuel(dims_product, 3);
                        assert(dims@.take(0) == Seq::<usize>::empty());
                        assert(dims@.take(1) == seq![h]);
                        assert(dims@.take(2) == dims@);
                        assert(dims@ == seq![h, w]);
                    }
                    let mut block = match TensorBlock::new(dims, target_cache_level) {
                        Ok(b) => b,
                        Err(e) => {
                            return Err(e);
                        },
                    };
                    let mut data: Vec<T> = Vec::new();
                    let mut i: usize = 0;
                    while i < h
                        invariant
                            self.wf(),
                            self.dimensions.len() == 2,
                            cols == self.dimensions[1],
                            self.data.len() == rows * cols,
                            row_start + h <= rows,
                            col_start + w <= cols,
                            0 <= i <= h,
                            w > 0,
                            data.len() == i * w,
                            forall|k: int|
                                0 <= k < data.len() ==> #[trigger] data[k] == self.data[(row_start + k / (w as int)) * (cols as int) + (
                                col_start + k % (w as int))],
                        decreases h - i,
                    {
                        let mut j: usize = 0;
                        while j < w
                            invariant
                                self.wf(),
                                self.dimensions.len() == 2,
                                cols == self.dimensions[1],
                                self.data.len() == rows * cols,
                                row_start + h <= rows,
                                col_start + w <= cols,
                                0 <= i < h,
                                0 <= j <= w,
                                data.len() == i * w + j,
                                forall|k: int|
                                    0 <= k < data.len() ==> #[trigger] data[k] == self.data[(row_start + k / (w as int)) * (cols as int)
                                        + (col_start + k % (w as int))],
                            decreases w - j,
                        {
                            proof {
                                lemma_tile_index(
                                    row_start as int,
                                    col_start as int,
                                    h as int,
                                    w as int,
                                    rows as int,
                                    cols as int,
                                    i as int,
                                    j as int,
                                );
                            }
                            data.push(self.data[(row_start + i) * cols + (col_start + j)]);
                            j += 1;
                        }
                        assert(i * w + w == (i + 1) * w) by (nonlinear_arith);
                        i += 1;
                    }
                    block.data = data;
                    proof {
                        let t = br * nc + bc;
                        vstd::arithmetic::div_mod::lemma_fundamental_div_mod_converse(t, nc, br, bc);
                        assert(t / nc == br && t % nc == bc);
                        assert(tile_at(block, *self, target_cache_level, ps, nc, t));
                    }
                    blocks.push(block);
                    proof {
                        if bc + 1 < nc {
                            assert((bc + 1) * ps < cols);
                        }
                        assert((bc + 1) * ps == bc * ps + ps) by (nonlinear_arith);
                        bc = bc + 1;
                    }
                    col_start = col_end;
                }
                proof {
                    if br + 1 < nr {
                        assert((br + 1) * ps < rows);
                    }
                    assert((br + 1) * ps == br * ps + ps) by (nonlinear_arith);
                    assert(br * nc + nc == (br + 1) * nc) by (nonlinear_arith);
                    br = br + 1;
                }
                row_start = row_end;
            }
        } else {
            let c: usize = if max_elements == 0 {
                1
            } else {
                max_elements
            };
            let n = self.data.len();
            let mut start: usize = 0;
            let ghost mut t: int = 0;
            while start < n
                invariant
                    n == self.data.len(),
                    n > 0,
                    c == run_len((cache_capacity(target_cache_level) as nat / vstd::layout::size_of::<T>()) as nat),
                    c > 0,
                    t >= 0,
                    start == if t * c < n {
                        t * c
                    } else {
                        n as int
                    },
                    t > 0 ==> (t - 1) * c < n,
                    blocks.len() == t,
                    forall|u: int|
                        0 <= u < blocks.len() ==> is_run(
                            #[trigger] blocks[u],
                            *self,
                            u * c,
                            if n - u * c < c {
                                n - u * c
                            } else {
                                c as int
                            },
                            target_cache_level,
                        ),
                decreases n - start,
            {
                let end = if n - start < c {
                    n
                } else {
                    start + c
                };
                let mut data: Vec<T> = Vec::new();
                let mut k = start;
                while k < end
                    invariant
                        start <= k <= end <= n,
                        n == self.data.len(),
                        data.len() == k - start,
                        forall|q: int| 0 <= q < data.len() ==> #[trigger] data[q] == self.data[start + q],
                    decreases end - k,
                {
                    data.push(self.data[k]);
                    k += 1;
                }
                let mut dims: Vec<usize> = Vec::new();
                dims.push(end - start);
                let block = TensorBlock {
                    data,
                    dimensions: dims,
                    morton_index: 0,
                    cache_level: target_cache_level,
                    alignment: target_cache_level.line_size(),
                };
                proof {
                    assert(block.dimensions@ =~= seq![(end - start) as usize]);
                    assert(start == t * c);
                    assert(is_run(block, *self, t * c, if n - t * c < c { n - t * c } else { c as int }, target_cache_level));
                    assert((t + 1) * c == t * c + c) by (nonlinear_arith);
                }
                blocks.push(block);
                start = end;
                proof {
                    t = t + 1;
                }
            }
            proof {
                assert(t * c >= n);
                let r = n + c - 1 - c * t;
                assert(0 <= r < c) by (nonlinear_arith)
                    requires
                        r == n + c - 1 - c * t,
                        t * c >= n,
                        t > 0 ==> (t - 1) * c < n,
                        n > 0,
                        c > 0,
                        t >= 0,
                ;
                vstd::arithmetic::div_mod::lemma_fundamental_div_mod_converse(n + c - 1, c as int, t, r);
            }
        }
        Ok(blocks)
    }
}

/// Cache configuration parameters
#[derive(Debug, Clone, Copy, PartialEq, Eq, Structural)]
pub struct CacheConfig {
    pub l1_size: usize,
    pub l2_size: usize,
    pub l3_size: usize,
    pub line_size: usize,
    pub associativity: usize,
}

/// The default cache hierarchy: 32 KB L1, 256 KB L2, 8 MB L3, 64-byte lines, 8-way.
pub open spec fn default_cache_config() -> CacheConfig {
    CacheConfig { l1_size: 32768, l2_size: 262144, l3_size: 8388608, line_size: 64, associativity: 8 }
}

impl Default for CacheConfig {
    fn default() -> (r: Self)
        ensures
            r == default_cache_config(),
    {
        Self {
            l1_size: 32 * 1024,  // 32KB
            l2_size: 256 * 1024,  // 256KB
            l3_size: 8 * 1024 * 1024,  // 8MB
            line_size: 64,  // 64 bytes
            associativity: 8,  // 8-way associative
        }
    }
}

/// The cache level where an allocation of `total_size` bytes is placed: the first
/// level of L1, L2, L3 whose size in `config` holds it, and main memory otherwise.
pub open spec fn placement(config: CacheConfig, total_size: usize) -> CacheLevel {
    if total_size <= config.l1_size {
        CacheLevel::L1
    } else if total_size <= config.l2_size {
        CacheLevel::L2
    } else if total_size <= config.l3_size {
        CacheLevel::L3
    } else {
        CacheLevel::Memory
    }
}

/// An allocation goes to the first level whose configured size holds it: L1 up to
/// the L1 size, L2 above that up to the L2 size, L3 above both up to the L3 size, and
/// main memory beyond all three.
pub proof fn law_placement_by_size(config: CacheConfig, s: usize)
    ensures
        s <= config.l1_size ==> placement(config, s) == CacheLevel::L1,
        config.l1_size < s <= config.l2_size ==> placement(config, s) == CacheLevel::L2,
        config.l1_size < s && config.l2_size < s && s <= config.l3_size ==> placement(config, s)
            == CacheLevel::L3,
        config.l1_size < s && config.l2_size < s && config.l3_size < s ==> placement(config, s)
            == CacheLevel::Memory,
{
}

impl CacheConfig {
    /// The cache level where an allocation of `total_size` bytes is placed: the
    /// first level of L1, L2, L3 whose size holds it, and main memory otherwise.
    pub fn level_for(&self, total_size: usize) -> (r: CacheLevel)
        ensures
            r == placement(*self, total_size),
            total_size <= self.l1_size ==> r == CacheLevel::L1,
            self.l1_size < total_size <= self.l2_size ==> r == CacheLevel::L2,
            self.l1_size < total_size && self.l2_size < total_size && total_size <= self.l3_size ==> r
                == CacheLevel::L3,
            self.l1_size < total_size && self.l2_size < total_size && self.l3_size < total_size ==> r
                == CacheLevel::Memory,
    {
        if total_size <= self.l1_size {
            CacheLevel::L1
        } else if total_size <= self.l2_size {
            CacheLevel::L2
        } else if total_size <= self.l3_size {
            CacheLevel::L3
        } else {
            CacheLevel::Memory
        }
    }
}

/// Memory usage statistics
#[derive(Debug, Clone, Copy, PartialEq, Eq, Structural)]
pub struct MemoryStats {
    pub total_allocated: usize,
    pub l1_usage: usize,
    pub l2_usage: usize,
    pub l3_usage: usize,
    pub cache_hits: u64,
    pub cache_misses: u64,
}

/// Counters with nothing allocated.
pub open spec fn zero_stats() -> MemoryStats {
    MemoryStats { total_allocated: 0, l1_usage: 0, l2_usage: 0, l3_usage: 0, cache_hits: 0, cache_misses: 0 }
}

impl Default for MemoryStats {
    fn default() -> (r: Self)
        ensures
            r == zero_stats(),
    {
        MemoryStats {
            total_allocated: 0,
            l1_usage: 0,
            l2_usage: 0,
            l3_usage: 0,
            cache_hits: 0,
            cache_misses: 0,
        }
    }
}

/// The counters can take an allocation of `total_size` bytes at `level`.
pub open spec fn can_account(stats: MemoryStats, level: CacheLevel, total_size: usize) -> bool {
    &&& stats.total_allocated + total_size <= usize::MAX
    &&& level == CacheLevel::L1 ==> stats.l1_usage + total_size <= usize::MAX
    &&& level == CacheLevel::L2 ==> stats.l2_usage + total_size <= usize::MAX
    &&& level == CacheLevel::L3 ==> stats.l3_usage + total_size <= usize::MAX
}

/// The counters after an allocation of `total_size` bytes at `level`: the total
/// grows by the size, and so does the usage of that level (main memory has none).
pub open spec fn accounted(stats: MemoryStats, level: CacheLevel, total_size: usize) -> MemoryStats {
    MemoryStats {
        total_allocated: (stats.total_allocated + total_size) as usize,
        l1_usage: if level == CacheLevel::L1 {
            (stats.l1_usage + total_size) as usize
        } else {
            stats.l1_usage
        },
        l2_usage: if level == CacheLevel::L2 {
            (stats.l2_usage + total_size) as usize
        } else {
            stats.l2_usage
        },
        l3_usage: if level == CacheLevel::L3 {
            (stats.l3_usage + total_size) as usize
        } else {
            stats.l3_usage
        },
        ..stats
    }
}

impl MemoryStats {
    /// Account for an allocation of `total_size` bytes placed at `level`.
    pub fn record_allocation(&mut self, level: CacheLevel, total_size: usize)
        requires
            can_account(*old(self), level, total_size),
        ensures
            *final(self) == accounted(*old(self), level, total_size),
    {
        self.total_allocated += total_size;
        match level {
            CacheLevel::L1 => self.l1_usage += total_size,
            CacheLevel::L2 => self.l2_usage += total_size,
            CacheLevel::L3 => self.l3_usage += total_size,
            CacheLevel::Memory => {},
        }
    }
}

/// Main tensor folding engine: allocates tensor blocks at the cache level their size
/// calls for, keeps the blocks of each level, and counts the bytes allocated.
pub struct TensorFolder<T> {
    /// Cache hierarchy configuration
    cache_config: CacheConfig,
    /// Active tensor blocks of each cache level
    l1_blocks: Vec<Arc<TensorBlock<T>>>,
    l2_blocks: Vec<Arc<TensorBlock<T>>>,
    l3_blocks: Vec<Arc<TensorBlock<T>>>,
    memory_blocks: Vec<Arc<TensorBlock<T>>>,
    /// Memory usage statistics
    memory_stats: MemoryStats,
}

/// Bytes held by a list of blocks.
pub open spec fn block_bytes<T>(blocks: Seq<Arc<TensorBlock<T>>>) -> nat
    decreases blocks.len(),
{
    if blocks.len() == 0 {
        0
    } else {
        block_bytes(blocks.drop_last()) + (blocks.last().data.len() as nat) * vstd::layout::size_of::<T>()
    }
}

/// A copy of the pointer to a shared block.
#[verifier::external_body]
fn share<T>(block: &Arc<TensorBlock<T>>) -> (r: Arc<TensorBlock<T>>)
    ensures
        r == *block,
{
    Arc::clone(block)
}

impl<T: Copy + Default> TensorFolder<T> {
    /// The cache configuration.
    pub closed spec fn config(&self) -> CacheConfig {
        self.cache_config
    }

    /// The memory counters.
    pub closed spec fn stats(&self) -> MemoryStats {
        self.memory_stats
    }

    /// The blocks allocated at `level`, oldest first.
    pub closed spec fn blocks_at(&self, level: CacheLevel) -> Seq<Arc<TensorBlock<T>>> {
        match level {
            CacheLevel::L1 => self.l1_blocks@,
            CacheLevel::L2 => self.l2_blocks@,
            CacheLevel::L3 => self.l3_blocks@,
            CacheLevel::Memory => self.memory_blocks@,
        }
    }

    /// The counters account for exactly the blocks allocated: the usage of each
    /// cache level is the bytes of its blocks, and the total is the bytes of all.
    pub open spec fn accounts_for_blocks(&self) -> bool {
        &&& self.stats().l1_usage == block_bytes(self.blocks_at(CacheLevel::L1))
        &&& self.stats().l2_usage == block_bytes(self.blocks_at(CacheLevel::L2))
        &&& self.stats().l3_usage == block_bytes(self.blocks_at(CacheLevel::L3))
        &&& self.stats().total_allocated == block_bytes(self.blocks_at(CacheLevel::L1)) + block_bytes(
            self.blocks_at(CacheLevel::L2),
        ) + block_bytes(self.blocks_at(CacheLevel::L3)) + block_bytes(self.blocks_at(CacheLevel::Memory))
    }

    /// Create a new tensor folder with the given cache configuration
    pub fn new(cache_config: CacheConfig) -> (r: Self)
        ensures
            r.config() == cache_config,
            r.accounts_for_blocks(),
            r.stats() == zero_stats(),
            forall|level: CacheLevel| #[trigger] r.blocks_at(level).len() == 0,
    {
        Self {
            cache_config,
            l1_blocks: Vec::new(),
            l2_blocks: Vec::new(),
            l3_blocks: Vec::new(),
            memory_blocks: Vec::new(),
            memory_stats: MemoryStats::default(),
        }
    }

    /// Allocate a new tensor with optimal cache placement: the block goes to the
    /// level that its size in bytes calls for, and is counted there.
    pub fn allocate_tensor(&mut self, dimensions: Vec<usize>) -> (r: TensorResult<Arc<TensorBlock<T>>>)
        requires
            forall|i: int| 0 <= i <= dimensions.len() ==> dims_product(#[trigger] dimensions@.take(i)) <= usize::MAX,
            dims_product(dimensions@) * vstd::layout::size_of::<T>() <= usize::MAX,
            can_account(
                old(self).stats(),
                placement(old(self).config(), (dims_product(dimensions@) * vstd::layout::size_of::<T>()) as usize),
                (dims_product(dimensions@) * vstd::layout::size_of::<T>()) as usize,
            ),
        ensures
            (r is Ok) == (dims_product(dimensions@) != 0),
            final(self).config() == old(self).config(),
            old(self).accounts_for_blocks() ==> final(self).accounts_for_blocks(),
            ({
                let size = (dims_product(dimensions@) * vstd::layout::size_of::<T>()) as usize;
                let level = placement(old(self).config(), size);
                match r {
                    Ok(b) => {
                        &&& b.wf()
                        &&& b.dimensions@ == dimensions@
                        &&& b.cache_level == level
                        &&& b.alignment == line_bytes(level)
                        &&& forall|i: int, j: int| 0 <= i < b.data.len() && 0 <= j < b.data.len() ==> b.data[i] == b.data[j]
                        &&& forall|i: int| 0 <= i < b.data.len() ==> call_ensures(T::default, (), #[trigger] b.data[i])
                        &&& final(self).stats() == accounted(old(self).stats(), level, size)
                        &&& final(self).blocks_at(level) == old(self).blocks_at(level).push(b)
                        &&& forall|other: CacheLevel| other != level ==> #[trigger] final(self).blocks_at(other) == old(self).blocks_at(other)
                    },
                    Err(e) => {
                        &&& e matches TensorError::InvalidDimensions(m) && m@ == empty_text()
                        &&& final(self).stats() == old(self).stats()
                        &&& forall|other: CacheLevel| #[trigger] final(self).blocks_at(other) == old(self).blocks_at(other)
                    },
                }
            }),
    {
        let mut total_elements: usize = 1;
        let mut i: usize = 0;
        while i < dimensions.len()
            invariant
                0 <= i <= dimensions.len(),
                forall|i: int| 0 <= i <= dimensions.len() ==> dims_product(#[trigger] dimensions@.take(i)) <= usize::MAX,
                total_elements == dims_product(dimensions@.take(i as int)),
            decreases dimensions.len() - i,
        {
            proof {
                assert(dimensions@.take(i + 1).drop_last() == dimensions@.take(i as int));
                assert(dims_product(dimensions@.take(i + 1)) <= usize::MAX);
            }
            total_elements = total_elements * dimensions[i];
            i += 1;
        }
        proof {
            assert(dimensions@.take(dimensions.len() as int) == dimensions@);
        }
        let element_size = core::mem::size_of::<T>();
        let total_size = total_elements * element_size;
        let cache_level = self.cache_config.level_for(total_size);
        let tensor_block = match TensorBlock::new(dimensions, cache_level) {
            Ok(b) => Arc::new(b),
            Err(e) => {
                return Err(e);
            },
        };
        match cache_level {
            CacheLevel::L1 => self.l1_blocks.push(share(&tensor_block)),
            CacheLevel::L2 => self.l2_blocks.push(share(&tensor_block)),
            CacheLevel::L3 => self.l3_blocks.push(share(&tensor_block)),
            CacheLevel::Memory => self.memory_blocks.push(share(&tensor_block)),
        }
        self.memory_stats.record_allocation(cache_level, total_size);
        proof {
            let b = tensor_block;
            assert(old(self).blocks_at(cache_level).push(b).drop_last() == old(self).blocks_at(cache_level));
            assert(b.data.len() == total_elements);
        }
        Ok(tensor_block)
    }

    /// Get current memory usage statistics
    pub fn get_memory_stats(&self) -> (r: MemoryStats)
        ensures
            r == self.stats(),
    {
        self.memory_stats
    }

    /// Optimize memory layout by refolding tensors; the layout is kept as it is.
    pub fn optimize_layout(&self) -> (r: TensorResult<()>)
        ensures
            r is Ok,
    {
        Ok(())
    }
}

/// Initialize the tensor folding engine, with an L3 cache of `cache_size` bytes and
/// the default sizes otherwise.
pub fn initialize_tensor_engine<T: Copy + Default>(cache_size: usize) -> (r: TensorResult<TensorFolder<T>>)
    ensures
        r matches Ok(f) && f.config() == (CacheConfig { l3_size: cache_size, ..default_cache_config() }) && f.stats()
            == zero_stats() && forall|level: CacheLevel| #[trigger] f.blocks_at(level).len() == 0,
{
    let cache_config = CacheConfig { l3_size: cache_size, ..CacheConfig::default() };
    Ok(TensorFolder::new(cache_config))
}

proof fn lemma_suffix_prefix_bound(dims: Seq<usize>, i: int)
    requires
        0 <= i < dims.len(),
    ensures
        suffix_product(dims, 0) != 0 ==> suffix_product(dims, i) != 0 && suffix_product(dims, i) <= suffix_product(dims, 0),
    decreases i,
{
    if i > 0 {
        lemma_suffix_prefix_bound(dims, i - 1);
        let s = suffix_product(dims, i);
        let d = dims[i - 1] as nat;
        assert(suffix_product(dims, i - 1) == d * s);
        if d * s != 0 && suffix_product(dims, 0) != 0 {
            assert(s <= d * s && s != 0) by (nonlinear_arith)
                requires
                    d * s != 0,
            ;
        }
    }
}

proof fn lemma_floor_sqrt_exists(n: nat)
    ensures
        is_floor_sqrt(floor_sqrt(n), n),
    decreases n,
{
    if n == 0 {
        assert(is_floor_sqrt(0, 0)) by (nonlinear_arith);
    } else {
        lemma_floor_sqrt_exists((n - 1) as nat);
        let s = floor_sqrt((n - 1) as nat);
        if n < (s + 1) * (s + 1) {
            assert(is_floor_sqrt(s, n));
        } else {
            assert(n == (s + 1) * (s + 1)) by (nonlinear_arith)
                requires
                    n - 1 < (s + 1) * (s + 1),
                    n >= (s + 1) * (s + 1),
            ;
            assert(n < (s + 2) * (s + 2)) by (nonlinear_arith)
                requires
                    n == (s + 1) * (s + 1),
            ;
            assert(is_floor_sqrt(s + 1, n));
        }
    }
}

/// The grid that `fold` tiles a 2-D block with, when the block does not fit.
proof fn lemma_grid<T: Copy + Default>(src: TensorBlock<T>, level: CacheLevel, size: nat)
    requires
        size > 0,
        size <= cache_capacity(level),
        src.wf(),
        src.dimensions.len() == 2,
    ensures
        ({
            let max = cache_capacity(level) as nat / size;
            let ps = floor_sqrt(max) as int;
            let rows = src.dimensions[0] as int;
            let cols = src.dimensions[1] as int;
            &&& max * size <= cache_capacity(level)
            &&& ps > 0
            &&& ps * ps <= max
            &&& rows > 0
            &&& cols > 0
            &&& src.data.len() == rows * cols
            &&& ceil_div(rows, ps) >= 1
            &&& ceil_div(rows, ps) * ps >= rows
            &&& forall|b: int| 0 <= b < ceil_div(rows, ps) ==> #[trigger] (b * ps) < rows
            &&& ceil_div(cols, ps) >= 1
            &&& ceil_div(cols, ps) * ps >= cols
            &&& forall|b: int| 0 <= b < ceil_div(cols, ps) ==> #[trigger] (b * ps) < cols
        }),
{
    let cap = cache_capacity(level) as nat;
    let max = cap / size;
    vstd::arithmetic::div_mod::lemma_fundamental_div_mod(cap as int, size as int);
    assert(max * size <= cap && max >= 1) by (nonlinear_arith)
        requires
            cap == size * max + cap % size,
            0 <= cap % size < size,
            size <= cap,
    ;
    lemma_floor_sqrt_exists(max);
    let ps = floor_sqrt(max) as int;
    assert(ps > 0) by (nonlinear_arith)
        requires
            max < (ps + 1) * (ps + 1),
            ps >= 0,
            max >= 1,
    ;
    let rows = src.dimensions[0] as int;
    let cols = src.dimensions[1] as int;
    reveal_with_fuel(dims_product, 3);
    assert(rows > 0 && cols > 0) by (nonlinear_arith)
        requires
            src.data.len() == rows * cols,
            src.data.len() > 0,
            rows >= 0,
            cols >= 0,
    ;
    lemma_ceil_div(rows, ps);
    lemma_ceil_div(cols, ps);
}

/// Folding makes cache-sized blocks: every block that `fold` returns holds no more
/// bytes than the target cache level.
pub proof fn law_fold_blocks_fit<T: Copy + Default>(
    src: TensorBlock<T>,
    level: CacheLevel,
    size: nat,
    blocks: Seq<TensorBlock<T>>,
    t: int,
)
    requires
        src.wf(),
        size > 0,
        size <= cache_capacity(level),
        folded(src, level, size, blocks),
        0 <= t < blocks.len(),
    ensures
        blocks[t].data.len() * size <= cache_capacity(level),
{
    let cap = cache_capacity(level) as nat;
    let max = cap / size;
    vstd::arithmetic::div_mod::lemma_fundamental_div_mod(cap as int, size as int);
    assert(max * size <= cap) by (nonlinear_arith)
        requires
            cap == size * max + cap % size,
            cap % size >= 0,
    ;
    vstd::arithmetic::div_mod::lemma_mod_pos_bound(cap as int, size as int);
    if max == 0 {
        assert((cap as int) / (size as int) == 0);
        let d = (cap as int) / (size as int);
        assert(size as int * d == 0) by (nonlinear_arith)
            requires
                d == 0,
        ;
        assert(false);
    }
    if src.data.len() <= max {
        assert(blocks[t].data.len() * size <= max * size) by (nonlinear_arith)
            requires
                blocks[t].data.len() <= max,
        ;
    } else if src.dimensions.len() != 2 {
        assert(blocks[t].data.len() <= max);
        assert(blocks[t].data.len() * size <= max * size) by (nonlinear_arith)
            requires
                blocks[t].data.len() <= max,
        ;
    } else if src.dimensions.len() == 2 {
        lemma_grid(src, level, size);
        let ps = floor_sqrt(max) as int;
        let rows = src.dimensions[0] as int;
        let cols = src.dimensions[1] as int;
        let nr = ceil_div(rows, ps);
        let nc = ceil_div(cols, ps);
        assert(tile_at(blocks[t], src, level, ps, nc, t));
        let br = t / nc;
        let bc = t % nc;
        vstd::arithmetic::div_mod::lemma_fundamental_div_mod(t, nc);
        assert(0 <= br < nr) by (nonlinear_arith)
            requires
                t == nc * br + bc,
                0 <= bc < nc,
                0 <= t < nr * nc,
                nc >= 1,
        ;
        assert(br * ps < rows && bc * ps < cols);
        let r0 = br * ps;
        let c0 = bc * ps;
        let h = if rows - r0 < ps { rows - r0 } else { ps };
        let w = if cols - c0 < ps { cols - c0 } else { ps };
        let len = blocks[t].data.len() as int;
        assert(len == h * w);
        assert(len * size <= max * size) by (nonlinear_arith)
            requires
                len == h * w,
                0 <= h <= ps,
                0 <= w <= ps,
                ps * ps <= max,
        ;
    }
}

/// Folding loses no element: in the tiling of a 2-D block, the element at row r and
/// column c is element (r % ps) * w + c % ps of tile (r / ps) * nc + c / ps, where ps
/// is the tile side, nc the number of tiles per grid row and w that tile's width.
pub proof fn law_fold_keeps_elements<T: Copy + Default>(
    src: TensorBlock<T>,
    level: CacheLevel,
    size: nat,
    blocks: Seq<TensorBlock<T>>,
    r: int,
    c: int,
)
    requires
        src.wf(),
        src.dimensions.len() == 2,
        size > 0,
        size <= cache_capacity(level),
        src.data.len() > cache_capacity(level) as nat / size,
        folded(src, level, size, blocks),
        0 <= r < src.dimensions[0],
        0 <= c < src.dimensions[1],
    ensures
        ({
            let ps = floor_sqrt(cache_capacity(level) as nat / size) as int;
            let nc = ceil_div(src.dimensions[1] as int, ps);
            let t = (r / ps) * nc + c / ps;
            let w = if src.dimensions[1] - (c / ps) * ps < ps {
                src.dimensions[1] - (c / ps) * ps
            } else {
                ps
            };
            &&& 0 <= t < blocks.len()
            &&& 0 <= (r % ps) * w + c % ps < blocks[t].data.len()
            &&& blocks[t].data[(r % ps) * w + c % ps] == src.data[r * src.dimensions[1] + c]
        }),
{
    lemma_grid(src, level, size);
    let max = cache_capacity(level) as nat / size;
    let ps = floor_sqrt(max) as int;
    let rows = src.dimensions[0] as int;
    let cols = src.dimensions[1] as int;
    let nr = ceil_div(rows, ps);
    let nc = ceil_div(cols, ps);
    let br = r / ps;
    let bc = c / ps;
    vstd::arithmetic::div_mod::lemma_fundamental_div_mod(r, ps);
    vstd::arithmetic::div_mod::lemma_fundamental_div_mod(c, ps);
    assert(0 <= br < nr) by (nonlinear_arith)
        requires
            r == ps * br + r % ps,
            0 <= r % ps < ps,
            0 <= r < rows,
            nr * ps >= rows,
            ps > 0,
    ;
    assert(0 <= bc < nc) by (nonlinear_arith)
        requires
            c == ps * bc + c % ps,
            0 <= c % ps < ps,
            0 <= c < cols,
            nc * ps >= cols,
            ps > 0,
    ;
    let t = br * nc + bc;
    assert(0 <= t < nr * nc) by (nonlinear_arith)
        requires
            t == br * nc + bc,
            0 <= br < nr,
            0 <= bc < nc,
    ;
    vstd::arithmetic::div_mod::lemma_fundamental_div_mod_converse(t, nc, br, bc);
    assert(tile_at(blocks[t], src, level, ps, nc, t));
    let r0 = br * ps;
    let c0 = bc * ps;
    let h = if rows - r0 < ps { rows - r0 } else { ps };
    let w = if cols - c0 < ps { cols - c0 } else { ps };
    let i = r % ps;
    let j = c % ps;
    assert(r == r0 + i) by (nonlinear_arith)
        requires
            r == ps * br + i,
            r0 == br * ps,
    ;
    assert(c == c0 + j) by (nonlinear_arith)
        requires
            c == ps * bc + j,
            c0 == bc * ps,
    ;
    lemma_tile_index(r0, c0, h, w, rows, cols, i, j);
    let k = i * w + j;
    assert(blocks[t].data[k] == src.data[(r0 + k / w) * cols + (c0 + k % w)]);
}

/// Folding a block that is not 2-D loses no element: when it does not fit in the
/// level, its element i is element i % c of block i / c, where c is the run length.
pub proof fn law_fold_runs_keep_elements<T: Copy + Default>(
    src: TensorBlock<T>,
    level: CacheLevel,
    size: nat,
    blocks: Seq<TensorBlock<T>>,
    i: int,
)
    requires
        src.wf(),
        src.dimensions.len() != 2,
        size > 0,
        src.data.len() > cache_capacity(level) as nat / size,
        folded(src, level, size, blocks),
        0 <= i < src.data.len(),
    ensures
        ({
            let c = run_len(cache_capacity(level) as nat / size) as int;
            &&& 0 <= i / c < blocks.len()
            &&& 0 <= i % c < blocks[i / c].data.len()
            &&& blocks[i / c].data[i % c] == src.data[i]
        }),
{
    let c = run_len(cache_capacity(level) as nat / size) as int;
    let n = src.data.len() as int;
    let t = i / c;
    let j = i % c;
    vstd::arithmetic::div_mod::lemma_fundamental_div_mod(i, c);
    vstd::arithmetic::div_mod::lemma_fundamental_div_mod(n + c - 1, c);
    assert(0 <= t && t * c <= i && i == t * c + j && 0 <= j < c) by (nonlinear_arith)
        requires
            i == c * t + j,
            0 <= j < c,
            i >= 0,
            c > 0,
    ;
    assert(t < ceil_div(n, c)) by (nonlinear_arith)
        requires
            t * c <= i,
            i < n,
            n + c - 1 == c * ceil_div(n, c) + (n + c - 1) % c,
            0 <= (n + c - 1) % c < c,
            c > 0,
    ;
    assert(is_run(blocks[t], src, t * c, if n - t * c < c { n - t * c } else { c }, level));
    assert(blocks[t].data[j] == src.data[t * c + j]);
}

proof fn lemma_offset_injective(a: Seq<usize>, b: Seq<usize>, dims: Seq<usize>, i: int)
    requires
        0 <= i <= dims.len(),
        a.len() == dims.len(),
        b.len() == dims.len(),
        forall|k: int| i <= k < dims.len() ==> #[trigger] a[k] < dims[k],
        forall|k: int| i <= k < dims.len() ==> #[trigger] b[k] < dims[k],
        offset_from(a, dims, i) == offset_from(b, dims, i),
    ensures
        forall|k: int| i <= k < dims.len() ==> #[trigger] a[k] == b[k],
    decreases dims.len() - i,
{
    if i < dims.len() {
        lemma_offset_bound(a, dims, i + 1);
        lemma_offset_bound(b, dims, i + 1);
        let s = suffix_product(dims, i + 1) as int;
        let oa = offset_from(a, dims, i + 1) as int;
        let ob = offset_from(b, dims, i + 1) as int;
        let x = a[i] as int;
        let y = b[i] as int;
        assert(x == y && oa == ob) by (nonlinear_arith)
            requires
                x * s + oa == y * s + ob,
                0 <= oa < s,
                0 <= ob < s,
                x >= 0,
                y >= 0,
        ;
        lemma_offset_injective(a, b, dims, i + 1);
    }
}

/// What a read gives back of a write: after `set` stores `value` at an index, `get`
/// at that index returns `value`, and at any other index returns what was there.
pub proof fn law_tensor_get_after_set<T: Copy + Default>(
    before: TensorBlock<T>,
    after: TensorBlock<T>,
    written: Seq<usize>,
    read: Seq<usize>,
    value: T,
)
    requires
        before.wf(),
        in_bounds(written, before.dimensions@),
        in_bounds(read, before.dimensions@),
        after.dimensions == before.dimensions,
        after.data@ == before.data@.update(row_major_offset(written, before.dimensions@) as int, value),
    ensures
        after.data[row_major_offset(read, after.dimensions@) as int] == if read == written {
            value
        } else {
            before.data[row_major_offset(read, before.dimensions@) as int]
        },
{
    let dims = before.dimensions@;
    lemma_offset_bound(written, dims, 0);
    lemma_offset_bound(read, dims, 0);
    lemma_dims_product_suffix(dims);
    if read != written && row_major_offset(read, dims) == row_major_offset(written, dims) {
        lemma_offset_injective(read, written, dims, 0);
        assert(read =~= written);
    }
}

} // verus!

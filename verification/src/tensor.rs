//! Dense tensors as plain values, and the operations on them that only move elements.
//!
//! An element is held as the bits of its storage type, so that moving it never changes it.
//! Arithmetic on the elements is left to the numeric runtime.

use vstd::prelude::*;

verus! {

/// Storage type of the elements.
#[derive(Clone, Copy, Debug, PartialEq, Eq, Structural)]
pub enum DType {
    Float32,
    Float16,
    BFloat16,
    Int64,
}

/// Where the numeric runtime keeps a tensor.
#[derive(Clone, Copy, Debug, PartialEq, Eq, Structural)]
pub enum Device {
    Cpu,
    Gpu(usize),
}

/// A dense tensor in row-major order.
#[derive(Debug)]
pub struct Tensor {
    /// Extent of each dimension.
    pub shape: Vec<usize>,
    /// The elements: an integer itself, or the bits of a floating-point number.
    pub data: Vec<i64>,
    pub kind: DType,
    pub device: Device,
}

/// The number of elements of a tensor of this shape.
pub open spec fn numel(shape: Seq<usize>) -> nat
    decreases shape.len(),
{
    if shape.len() == 0 {
        1
    } else {
        numel(shape.drop_last()) * shape.last() as nat
    }
}

/// The number of elements in one step of a dimension.
pub open spec fn inner(shape: Seq<usize>, dim: int) -> nat {
    numel(shape.skip(dim + 1))
}

/// How often a dimension is run through.
pub open spec fn outer(shape: Seq<usize>, dim: int) -> nat {
    numel(shape.take(dim))
}

/// Index of the element `i` of the step `a` of the run `o`, where a run has `n` steps of `w`
/// elements each.
pub open spec fn cell(n: int, w: int, o: int, a: int, i: int) -> int {
    (o * n + a) * w + i
}

impl Tensor {
    /// There is one element for each position of the shape.
    pub open spec fn wf(&self) -> bool {
        self.data.len() == numel(self.shape@)
    }

    /// The tensor as a sequence of slices along a dimension: item `a` holds, in order, the
    /// elements whose index in that dimension is `a`.
    pub open spec fn along(&self, dim: int) -> Seq<Seq<i64>> {
        slices(self.shape@, self.data@, dim)
    }

    /// The element in row `r` and column `c`, counting the rows through all leading dimensions.
    pub open spec fn row_major(&self, r: int, c: int) -> i64 {
        self.data[r * self.shape@.last() + c]
    }

    /// The row `r`: the elements that differ in the last index only.
    pub open spec fn row(&self, r: int) -> Seq<i64> {
        let w = self.shape@.last() as int;
        self.data@.subrange(r * w, r * w + w)
    }

    /// The rows of a tensor whose leading dimensions, but for the last two, have extent one.
    pub open spec fn rows(&self) -> Seq<Seq<i64>> {
        self.along(self.rank() - 2)
    }

    pub open spec fn rank(&self) -> nat {
        self.shape@.len()
    }

    /// Shape and elements, as plain values.
    pub open spec fn same_as(&self, other: &Tensor) -> bool {
        &&& self.shape@ == other.shape@
        &&& self.data@ == other.data@
        &&& self.kind == other.kind
        &&& self.device == other.device
    }

    /// Whether two tensors fit together along a dimension: all other extents agree.
    pub open spec fn fits(&self, other: &Tensor, dim: int) -> bool {
        &&& self.kind == other.kind
        &&& 0 <= dim < self.rank() == other.rank()
        &&& self.shape@.update(dim, 0) == other.shape@.update(dim, 0)
    }
}

pub open spec fn slices(shape: Seq<usize>, data: Seq<i64>, dim: int) -> Seq<Seq<i64>> {
    let w = inner(shape, dim) as int;
    let n = shape[dim] as int;
    Seq::new(
        shape[dim] as nat,
        |a: int|
            Seq::new(
                outer(shape, dim) * inner(shape, dim),
                |x: int| data[cell(n, w, x / w, a, x % w)],
            ),
    )
}

// ---------------------------------------------------------------------------
// Index arithmetic
// ---------------------------------------------------------------------------

pub proof fn lemma_numel_concat(a: Seq<usize>, b: Seq<usize>)
    ensures
        numel(a + b) == numel(a) * numel(b),
    decreases b.len(),
{
    if b.len() == 0 {
        assert(a + b == a);
        assert(numel(a) * 1 == numel(a));
    } else {
        let c = a + b;
        assert(c.drop_last() == a + b.drop_last());
        assert(c.last() == b.last());
        lemma_numel_concat(a, b.drop_last());
        assert((numel(a) * numel(b.drop_last())) * (b.last() as nat) == numel(a) * (numel(
            b.drop_last(),
        ) * (b.last() as nat))) by (nonlinear_arith);
    }
}

pub proof fn lemma_numel_one(x: usize)
    ensures
        numel(seq![x]) == x,
{
    let s = seq![x];
    assert(s.drop_last() =~= Seq::<usize>::empty());
    assert(numel(s.drop_last()) == 1);
    assert(1 * (x as nat) == x);
}

/// The elements of a tensor, counted by runs of one dimension.
pub proof fn lemma_numel_split(shape: Seq<usize>, dim: int)
    requires
        0 <= dim < shape.len(),
    ensures
        numel(shape) == outer(shape, dim) * shape[dim] * inner(shape, dim),
{
    let head = shape.take(dim);
    let mid = seq![shape[dim]];
    let tail = shape.skip(dim + 1);
    assert(shape =~= head + mid + tail);
    lemma_numel_concat(head + mid, tail);
    lemma_numel_concat(head, mid);
    lemma_numel_one(shape[dim]);
}

/// Changing one extent leaves the runs of that dimension as they are.
pub proof fn lemma_numel_update(shape: Seq<usize>, dim: int, n: usize)
    requires
        0 <= dim < shape.len(),
    ensures
        outer(shape.update(dim, n), dim) == outer(shape, dim),
        inner(shape.update(dim, n), dim) == inner(shape, dim),
        numel(shape.update(dim, n)) == outer(shape, dim) * n * inner(shape, dim),
{
    let other = shape.update(dim, n);
    assert(other.take(dim) =~= shape.take(dim));
    assert(other.skip(dim + 1) =~= shape.skip(dim + 1));
    lemma_numel_split(other, dim);
}

/// A cell lies within the tensor and can be told from its index.
pub proof fn lemma_cell(runs: int, n: int, w: int, o: int, a: int, i: int)
    requires
        0 <= o < runs,
        0 <= a < n,
        0 <= i < w,
    ensures
        0 <= cell(n, w, o, a, i) < runs * n * w,
        cell(n, w, o, a, i) % w == i,
        (cell(n, w, o, a, i) / w) % n == a,
        (cell(n, w, o, a, i) / w) / n == o,
{
    let row = o * n + a;
    assert(0 <= row < runs * n) by (nonlinear_arith)
        requires
            0 <= o < runs,
            0 <= a < n,
            row == o * n + a,
    ;
    assert(0 <= row * w + i < (runs * n) * w) by (nonlinear_arith)
        requires
            0 <= row < runs * n,
            0 <= i < w,
    ;
    vstd::arithmetic::div_mod::lemma_fundamental_div_mod_converse(row * w + i, w, row, i);
    vstd::arithmetic::div_mod::lemma_fundamental_div_mod_converse(row, n, o, a);
}

/// Every index is that of a cell.
pub proof fn lemma_cell_cover(runs: int, n: int, w: int, f: int)
    requires
        0 <= f < runs * n * w,
        n > 0,
        w > 0,
    ensures
        0 <= (f / w) / n < runs,
        0 <= (f / w) % n < n,
        0 <= f % w < w,
        cell(n, w, (f / w) / n, (f / w) % n, f % w) == f,
{
    let row = f / w;
    vstd::arithmetic::div_mod::lemma_fundamental_div_mod(f, w);
    vstd::arithmetic::div_mod::lemma_fundamental_div_mod(row, n);
    assert(0 <= row < runs * n) by (nonlinear_arith)
        requires
            f == w * row + f % w,
            0 <= f % w < w,
            0 <= f < runs * n * w,
    ;
    assert(0 <= row / n < runs) by (nonlinear_arith)
        requires
            row == n * (row / n) + row % n,
            0 <= row % n < n,
            0 <= row < runs * n,
    ;
    assert((row / n) * n == n * (row / n)) by (nonlinear_arith);
    assert(row * w == w * row) by (nonlinear_arith);
}

/// A position of a slice tells its run and its place in the step.
pub proof fn lemma_slice_position(runs: int, w: int, x: int)
    requires
        runs >= 0,
        0 <= x < runs * w,
    ensures
        w > 0,
        0 <= x / w < runs,
        0 <= x % w < w,
{
    assert(w > 0) by (nonlinear_arith)
        requires
            0 <= x < runs * w,
            runs >= 0,
    ;
    vstd::arithmetic::div_mod::lemma_fundamental_div_mod(x, w);
    assert(0 <= x / w < runs) by (nonlinear_arith)
        requires
            x == w * (x / w) + x % w,
            0 <= x % w < w,
            0 <= x < runs * w,
    ;
}

/// Where there are elements, no extent is zero and no partial count exceeds the whole.
pub proof fn lemma_numel_parts(shape: Seq<usize>, dim: int)
    requires
        0 <= dim < shape.len(),
        numel(shape) > 0,
    ensures
        outer(shape, dim) > 0,
        shape[dim] > 0,
        inner(shape, dim) > 0,
        outer(shape, dim) <= numel(shape),
        inner(shape, dim) <= numel(shape),
        outer(shape, dim) * shape[dim] <= numel(shape),
{
    lemma_numel_split(shape, dim);
    let o = outer(shape, dim);
    let n = shape[dim] as nat;
    let w = inner(shape, dim);
    assert(o > 0 && n > 0 && w > 0 && o <= o * n * w && w <= o * n * w && o * n <= o * n * w)
        by (nonlinear_arith)
        requires
            o * n * w > 0,
            o >= 0,
            n >= 0,
            w >= 0,
    ;
}

/// What a tensor is along one dimension says all of it.
pub proof fn law_slices_determine_data(shape: Seq<usize>, d1: Seq<i64>, d2: Seq<i64>, dim: int)
    requires
        0 <= dim < shape.len(),
        d1.len() == numel(shape),
        d2.len() == numel(shape),
        slices(shape, d1, dim) == slices(shape, d2, dim),
    ensures
        d1 == d2,
{
    let runs = outer(shape, dim) as int;
    let n = shape[dim] as int;
    let w = inner(shape, dim) as int;
    lemma_numel_split(shape, dim);
    assert forall|f: int| 0 <= f < d1.len() implies d1[f] == d2[f] by {
        lemma_numel_parts(shape, dim);
        lemma_cell_cover(runs, n, w, f);
        let o = (f / w) / n;
        let a = (f / w) % n;
        let i = f % w;
        let x = o * w + i;
        assert(0 <= x < runs * w) by (nonlinear_arith)
            requires
                0 <= o < runs,
                0 <= i < w,
                x == o * w + i,
        ;
        vstd::arithmetic::div_mod::lemma_fundamental_div_mod_converse(x, w, o, i);
        assert(slices(shape, d1, dim)[a][x] == d1[f]);
        assert(slices(shape, d2, dim)[a][x] == d2[f]);
    }
    assert(d1 =~= d2);
}

/// Tensors that are the same have the same shape, elements, storage type and device.
pub proof fn law_same_in_all_respects(a: &Tensor, b: &Tensor)
    ensures
        a.same_as(b) <==> a.shape@ == b.shape@ && a.data@ == b.data@ && a.kind == b.kind && a.device
            == b.device,
{
}

/// Along its first dimension a matrix is its rows, and along its second one its columns.
pub proof fn law_slices_of_a_matrix(t: &Tensor, r: int, c: int)
    requires
        t.wf(),
        t.rank() == 2,
        0 <= r < t.shape[0],
        0 <= c < t.shape[1],
    ensures
        t.along(0).len() == t.shape[0],
        t.along(1).len() == t.shape[1],
        t.along(0)[r].len() == t.shape[1],
        t.along(1)[c].len() == t.shape[0],
        t.along(0)[r][c] == t.data[r * t.shape[1] + c],
        t.along(1)[c][r] == t.data[r * t.shape[1] + c],
        t.row_major(r, c) == t.data[r * t.shape[1] + c],
{
    let n = t.shape[0] as int;
    let m = t.shape[1] as int;
    let none = Seq::<usize>::empty();
    assert(t.shape@.take(0) =~= none);
    assert(t.shape@.skip(1) =~= seq![t.shape[1]]);
    assert(t.shape@.take(1) =~= seq![t.shape[0]]);
    assert(t.shape@.skip(2) =~= none);
    lemma_numel_one(t.shape[0]);
    lemma_numel_one(t.shape[1]);
    vstd::arithmetic::div_mod::lemma_fundamental_div_mod_converse(c, m, 0, c);
    vstd::arithmetic::div_mod::lemma_fundamental_div_mod_converse(r, 1, r, 0);
    assert(cell(n, m, 0, r, c) == r * m + c) by (nonlinear_arith);
    assert(cell(m, 1, r, c, 0) == r * m + c) by (nonlinear_arith);
    assert(1 * (m as nat) == m);
    assert((n as nat) * 1 == n);
}

/// Along its third dimension a tensor of four has, for each position, the elements of all heads of
/// all batches at that position, one head after the other.
pub proof fn law_slices_at_positions(t: &Tensor, b: int, h: int, p: int, d: int)
    requires
        t.wf(),
        t.rank() == 4,
        0 <= b < t.shape[0],
        0 <= h < t.shape[1],
        0 <= p < t.shape[2],
        0 <= d < t.shape[3],
    ensures
        ({
            let heads = t.shape[1] as int;
            let positions = t.shape[2] as int;
            let size = t.shape[3] as int;
            let x = (b * heads + h) * size + d;
            &&& t.along(2).len() == positions
            &&& t.along(2)[p].len() == t.shape[0] * heads * size
            &&& 0 <= x < t.along(2)[p].len()
            &&& t.along(2)[p][x] == t.data[((b * heads + h) * positions + p) * size + d]
        }),
{
    let batches = t.shape[0] as int;
    let heads = t.shape[1] as int;
    let size = t.shape[3] as int;
    assert(t.shape@.take(2) =~= seq![t.shape[0]] + seq![t.shape[1]]);
    assert(t.shape@.skip(3) =~= seq![t.shape[3]]);
    lemma_numel_concat(seq![t.shape[0]], seq![t.shape[1]]);
    lemma_numel_one(t.shape[0]);
    lemma_numel_one(t.shape[1]);
    lemma_numel_one(t.shape[3]);
    let row = b * heads + h;
    let x = row * size + d;
    assert(0 <= row < batches * heads) by (nonlinear_arith)
        requires
            0 <= b < batches,
            0 <= h < heads,
            row == b * heads + h,
    ;
    assert(0 <= x < (batches * heads) * size) by (nonlinear_arith)
        requires
            0 <= row < batches * heads,
            0 <= d < size,
            x == row * size + d,
    ;
    vstd::arithmetic::div_mod::lemma_fundamental_div_mod_converse(x, size, row, d);
}

// ---------------------------------------------------------------------------
// Operations
// ---------------------------------------------------------------------------

/// The product of some extents of a tensor that is not empty.
fn extent(shape: &Vec<usize>, from: usize, to: usize) -> (res: usize)
    requires
        from <= to <= shape.len(),
        0 < numel(shape@) <= usize::MAX,
    ensures
        res == numel(shape@.subrange(from as int, to as int)),
{
    let mut res: usize = 1;
    let mut i: usize = from;
    proof {
        assert(shape@.subrange(from as int, from as int) =~= Seq::<usize>::empty());
    }
    while i < to
        invariant
            from <= i <= to <= shape.len(),
            0 < numel(shape@) <= usize::MAX,
            res == numel(shape@.subrange(from as int, i as int)),
        decreases to - i,
    {
        proof {
            let part = shape@.subrange(from as int, i + 1);
            assert(part.drop_last() =~= shape@.subrange(from as int, i as int));
            let head = shape@.take(from as int);
            let tail = shape@.skip(i + 1);
            assert(shape@ =~= head + part + tail);
            lemma_numel_concat(head + part, tail);
            lemma_numel_concat(head, part);
            assert(numel(part) <= numel(shape@)) by (nonlinear_arith)
                requires
                    numel(shape@) == numel(head) * numel(part) * numel(tail),
                    numel(shape@) > 0,
            ;
        }
        res = res * shape[i];
        i = i + 1;
    }
    res
}

/// A copy of some extents with one of them changed.
fn shape_with(shape: &Vec<usize>, dim: usize, n: usize) -> (res: Vec<usize>)
    requires
        dim < shape.len(),
    ensures
        res@ == shape@.update(dim as int, n),
{
    let mut res: Vec<usize> = shape.clone();
    res.set(dim, n);
    res
}

impl Tensor {
    /// A tensor of one value throughout.
    pub fn full(shape: &[usize], value: i64, kind: DType, device: Device) -> (res: Tensor)
        requires
            numel(shape@) <= usize::MAX,
        ensures
            res.wf(),
            res.shape@ == shape@,
            forall|f: int| 0 <= f < res.data.len() ==> #[trigger] res.data[f] == value,
            res.kind == kind,
            res.device == device,
    {
        let mut dims: Vec<usize> = Vec::new();
        let mut count: usize = 1;
        let mut empty: bool = false;
        let mut i: usize = 0;
        while i < shape.len()
            invariant
                i <= shape.len(),
                dims@ == shape@.take(i as int),
                empty <==> exists|k: int| 0 <= k < i && shape[k] == 0,
            decreases shape.len() - i,
        {
            let d: usize = shape[i];
            dims.push(d);
            if d == 0 {
                empty = true;
            }
            proof {
                assert(shape@.take(i + 1) =~= shape@.take(i as int).push(d));
            }
            i = i + 1;
        }
        assert(dims@ =~= shape@);
        if empty {
            proof {
                let k = choose|k: int| 0 <= k < shape.len() && shape[k] == 0;
                lemma_numel_split(shape@, k);
                assert(outer(shape@, k) * 0 * inner(shape@, k) == 0) by (nonlinear_arith);
            }
            return Tensor { shape: dims, data: Vec::new(), kind, device };
        }
        proof {
            lemma_numel_positive(shape@);
        }
        count = extent(&dims, 0, dims.len());
        assert(dims@.subrange(0, dims.len() as int) =~= shape@);
        let mut data: Vec<i64> = Vec::new();
        let mut f: usize = 0;
        while f < count
            invariant
                f <= count,
                data.len() == f,
                forall|x: int| 0 <= x < f ==> #[trigger] data[x] == value,
            decreases count - f,
        {
            data.push(value);
            f = f + 1;
        }
        Tensor { shape: dims, data, kind, device }
    }

    /// A tensor of zeros; the bits of zero are all clear in every storage type.
    pub fn zeros(shape: &[usize], kind: DType, device: Device) -> (res: Tensor)
        requires
            numel(shape@) <= usize::MAX,
        ensures
            res.wf(),
            res.shape@ == shape@,
            forall|f: int| 0 <= f < res.data.len() ==> #[trigger] res.data[f] == 0,
            res.kind == kind,
            res.device == device,
    {
        Tensor::full(shape, 0, kind, device)
    }

    /// The steps `start..start + len` of a dimension.
    pub fn narrow(&self, dim: usize, start: usize, len: usize) -> (res: Tensor)
        requires
            self.wf(),
            dim < self.rank(),
            start + len <= self.shape[dim as int],
        ensures
            res.wf(),
            res.shape@ == self.shape@.update(dim as int, len),
            res.along(dim as int) == self.along(dim as int).subrange(
                start as int,
                start + len,
            ),
            res.kind == self.kind,
            res.device == self.device,
    {
        let shape: Vec<usize> = shape_with(&self.shape, dim, len);
        let ghost runs = outer(self.shape@, dim as int) as int;
        let ghost gw = inner(self.shape@, dim as int) as int;
        let ghost gn = self.shape[dim as int] as int;
        let ghost want = self.along(dim as int).subrange(start as int, start + len);
        proof {
            lemma_numel_update(self.shape@, dim as int, len);
            lemma_numel_split(self.shape@, dim as int);
        }
        if self.data.len() == 0 || len == 0 {
            let res = Tensor { shape, data: Vec::new(), kind: self.kind, device: self.device };
            proof {
                assert(runs * len * gw == 0) by (nonlinear_arith)
                    requires
                        runs * gn * gw == 0 || len == 0,
                        0 <= len <= gn,
                        runs >= 0,
                        gw >= 0,
                ;
                assert(runs * gw == 0 || len == 0) by (nonlinear_arith)
                    requires
                        runs * len * gw == 0,
                ;
                assert forall|a: int| 0 <= a < len implies #[trigger] res.along(dim as int)[a]
                    == want[a] by {
                    assert(res.along(dim as int)[a] =~= want[a]);
                }
                assert(res.along(dim as int) =~= want);
            }
            return res;
        }
        proof {
            lemma_numel_parts(self.shape@, dim as int);
            assert(self.shape@.subrange(0, dim as int) =~= self.shape@.take(dim as int));
            assert(self.shape@.subrange(dim + 1, self.rank() as int) =~= self.shape@.skip(dim + 1));
        }
        let rank: usize = self.shape.len();
        let n: usize = self.shape[dim];
        let o: usize = extent(&self.shape, 0, dim);
        let w: usize = extent(&self.shape, dim + 1, rank);
        let mut data: Vec<i64> = Vec::new();
        proof {
            assert(runs * len * gw <= runs * gn * gw && runs * len <= runs * len * gw) by (nonlinear_arith)
                requires
                    0 <= len <= gn,
                    runs >= 0,
                    gw >= 1,
            ;
            assert(runs * len >= 0) by (nonlinear_arith)
                requires
                    runs >= 0,
                    len >= 0,
            ;
        }
        let count: usize = o * len * w;
        let mut f: usize = 0;
        while f < count
            invariant
                f <= count,
                data.len() == f,
                self.wf(),
                count == runs * len * w,
                n == gn,
                w > 0,
                len > 0,
                start + len <= n,
                runs >= 0,
                self.data.len() == runs * n * w,
                forall|x: int|
                    0 <= x < f ==> #[trigger] data[x] == self.data[cell(
                        n as int,
                        w as int,
                        (x / w as int) / len as int,
                        start + (x / w as int) % len as int,
                        x % w as int,
                    )],
            decreases count - f,
        {
            let row: usize = f / w;
            let i: usize = f % w;
            let a: usize = row % len;
            let r: usize = row / len;
            proof {
                lemma_cell_cover(runs, len as int, w as int, f as int);
                lemma_cell(runs, n as int, w as int, r as int, start + a, i as int);
                assert(0 <= r * n && r * n + start + a <= (r * n + start + a) * w) by (nonlinear_arith)
                    requires
                        r >= 0,
                        n >= 0,
                        w >= 1,
                        start + a >= 0,
                ;
            }
            data.push(self.data[(r * n + start + a) * w + i]);
            f = f + 1;
        }
        let res = Tensor { shape, data, kind: self.kind, device: self.device };
        proof {
            assert forall|a: int| 0 <= a < len implies #[trigger] res.along(dim as int)[a]
                == want[a] by {
                assert forall|x: int| 0 <= x < runs * w implies res.along(dim as int)[a][x]
                    == want[a][x] by {
                    lemma_slice_position(runs, w as int, x);
                    lemma_cell(runs, len as int, w as int, x / w as int, a, x % w as int);
                }
                assert(res.along(dim as int)[a] =~= want[a]);
            }
            assert(res.along(dim as int) =~= want);
        }
        res
    }
}

/// Tensors that fit together along a dimension have the same runs in it.
pub proof fn lemma_fits(a: &Tensor, b: &Tensor, dim: int)
    requires
        a.fits(b, dim),
    ensures
        b.rank() == a.rank(),
        outer(a.shape@, dim) == outer(b.shape@, dim),
        inner(a.shape@, dim) == inner(b.shape@, dim),
        numel(a.shape@.update(dim, b.shape[dim])) == numel(b.shape@),
        a.shape@.update(dim, b.shape[dim]) == b.shape@,
{
    let za = a.shape@.update(dim, 0);
    let zb = b.shape@.update(dim, 0);
    assert(za.len() == zb.len());
    lemma_numel_update(a.shape@, dim, 0);
    lemma_numel_update(b.shape@, dim, 0);
    assert forall|k: int| 0 <= k < b.rank() && k != dim implies a.shape@[k] == b.shape@[k] by {
        assert(za[k] == zb[k]);
    }
    assert(a.shape@.update(dim, b.shape[dim]) =~= b.shape@);
}

impl Tensor {
    /// Joins two tensors along a dimension.
    pub fn join(&self, other: &Tensor, dim: usize) -> (res: Tensor)
        requires
            self.wf(),
            other.wf(),
            self.fits(other, dim as int),
            self.shape[dim as int] + other.shape[dim as int] <= usize::MAX,
            self.data.len() + other.data.len() <= usize::MAX,
        ensures
            res.wf(),
            res.shape@ == self.shape@.update(
                dim as int,
                (self.shape[dim as int] + other.shape[dim as int]) as usize,
            ),
            res.along(dim as int) == self.along(dim as int) + other.along(dim as int),
            res.kind == self.kind,
            res.device == self.device,
            res.data.len() == self.data.len() + other.data.len(),
    {
        let n1: usize = self.shape[dim];
        proof {
            lemma_fits(self, other, dim as int);
        }
        let n2: usize = other.shape[dim];
        let n: usize = n1 + n2;
        let shape: Vec<usize> = shape_with(&self.shape, dim, n);
        let ghost runs = outer(self.shape@, dim as int) as int;
        let ghost gw = inner(self.shape@, dim as int) as int;
        let ghost want = self.along(dim as int) + other.along(dim as int);
        proof {
            lemma_numel_update(self.shape@, dim as int, n);
            lemma_numel_split(self.shape@, dim as int);
            lemma_numel_split(other.shape@, dim as int);
            assert(runs * n * gw == runs * n1 * gw + runs * n2 * gw) by (nonlinear_arith)
                requires
                    n == n1 + n2,
            ;
        }
        let count: usize = self.data.len() + other.data.len();
        if count == 0 {
            let res = Tensor { shape, data: Vec::new(), kind: self.kind, device: self.device };
            proof {
                assert(runs * gw == 0 || n == 0) by (nonlinear_arith)
                    requires
                        runs * n * gw == 0,
                ;
                assert forall|a: int| 0 <= a < n implies #[trigger] res.along(dim as int)[a]
                    == want[a] by {
                    assert(res.along(dim as int)[a] =~= want[a]);
                }
                assert(res.along(dim as int) =~= want);
            }
            return res;
        }
        let rank: usize = self.shape.len();
        proof {
            assert(shape@.subrange(dim + 1, rank as int) =~= shape@.skip(dim + 1));
            lemma_numel_parts(shape@, dim as int);
        }
        let w: usize = extent(&shape, dim + 1, rank);
        let mut data: Vec<i64> = Vec::new();
        let mut f: usize = 0;
        while f < count
            invariant
                f <= count,
                data.len() == f,
                self.wf(),
                other.wf(),
                count == runs * n * w,
                n == n1 + n2,
                n > 0,
                w > 0,
                runs >= 0,
                self.data.len() == runs * n1 * w,
                other.data.len() == runs * n2 * w,
                forall|x: int|
                    0 <= x < f ==> #[trigger] data[x] == ({
                        let o = (x / w as int) / n as int;
                        let a = (x / w as int) % n as int;
                        if a < n1 {
                            self.data[cell(n1 as int, w as int, o, a, x % w as int)]
                        } else {
                            other.data[cell(n2 as int, w as int, o, a - n1, x % w as int)]
                        }
                    }),
            decreases count - f,
        {
            let row: usize = f / w;
            let i: usize = f % w;
            let a: usize = row % n;
            let r: usize = row / n;
            proof {
                lemma_cell_cover(runs, n as int, w as int, f as int);
            }
            if a < n1 {
                proof {
                    lemma_cell(runs, n1 as int, w as int, r as int, a as int, i as int);
                    lemma_cell_steps(n1 as int, w as int, r as int, a as int, i as int);
                }
                data.push(self.data[(r * n1 + a) * w + i]);
            } else {
                proof {
                    lemma_cell(runs, n2 as int, w as int, r as int, a - n1, i as int);
                    lemma_cell_steps(n2 as int, w as int, r as int, a - n1, i as int);
                }
                data.push(other.data[(r * n2 + (a - n1)) * w + i]);
            }
            f = f + 1;
        }
        let res = Tensor { shape, data, kind: self.kind, device: self.device };
        proof {
            assert forall|a: int| 0 <= a < n implies #[trigger] res.along(dim as int)[a]
                == want[a] by {
                assert forall|x: int| 0 <= x < runs * w implies res.along(dim as int)[a][x]
                    == want[a][x] by {
                    lemma_slice_position(runs, w as int, x);
                    lemma_cell(runs, n as int, w as int, x / w as int, a, x % w as int);
                }
                assert(res.along(dim as int)[a] =~= want[a]);
            }
            assert(res.along(dim as int) =~= want);
        }
        res
    }

    /// A copy with the steps `start..end` of a dimension taken from `src`.
    pub fn slice_scatter(&self, src: &Tensor, dim: usize, start: usize, end: usize) -> (res: Tensor)
        requires
            self.wf(),
            src.wf(),
            self.fits(src, dim as int),
            start <= end <= self.shape[dim as int],
            src.shape[dim as int] == end - start,
        ensures
            res.wf(),
            res.shape@ == self.shape@,
            res.along(dim as int) == self.along(dim as int).take(start as int) + src.along(
                dim as int,
            ) + self.along(dim as int).skip(end as int),
            res.kind == self.kind,
            res.device == self.device,
    {
        let n: usize = self.shape[dim];
        proof {
            lemma_fits(self, src, dim as int);
            lemma_numel_split(self.shape@, dim as int);
            lemma_numel_split(src.shape@, dim as int);
        }
        let m: usize = end - start;
        let ghost runs = outer(self.shape@, dim as int) as int;
        let ghost gw = inner(self.shape@, dim as int) as int;
        let ghost want = self.along(dim as int).take(start as int) + src.along(dim as int)
            + self.along(dim as int).skip(end as int);
        let shape: Vec<usize> = self.shape.clone();
        let count: usize = self.data.len();
        if count == 0 {
            let res = Tensor { shape, data: Vec::new(), kind: self.kind, device: self.device };
            proof {
                assert(runs * gw == 0 || n == 0) by (nonlinear_arith)
                    requires
                        runs * n * gw == 0,
                ;
                assert forall|a: int| 0 <= a < n implies #[trigger] res.along(dim as int)[a]
                    == want[a] by {
                    assert(res.along(dim as int)[a] =~= want[a]);
                }
                assert(res.along(dim as int) =~= want);
            }
            return res;
        }
        let rank: usize = self.shape.len();
        proof {
            assert(self.shape@.subrange(dim + 1, rank as int) =~= self.shape@.skip(dim + 1));
            lemma_numel_parts(self.shape@, dim as int);
        }
        let w: usize = extent(&self.shape, dim + 1, rank);
        let mut data: Vec<i64> = Vec::new();
        let mut f: usize = 0;
        while f < count
            invariant
                f <= count,
                data.len() == f,
                self.wf(),
                src.wf(),
                count == runs * n * w,
                n > 0,
                w > 0,
                runs >= 0,
                start <= end <= n,
                m == end - start,
                self.data.len() == runs * n * w,
                src.data.len() == runs * m * w,
                forall|x: int|
                    0 <= x < f ==> #[trigger] data[x] == ({
                        let o = (x / w as int) / n as int;
                        let a = (x / w as int) % n as int;
                        if start <= a < end {
                            src.data[cell(m as int, w as int, o, a - start, x % w as int)]
                        } else {
                            self.data[x]
                        }
                    }),
            decreases count - f,
        {
            let row: usize = f / w;
            let i: usize = f % w;
            let a: usize = row % n;
            let r: usize = row / n;
            proof {
                lemma_cell_cover(runs, n as int, w as int, f as int);
            }
            if start <= a && a < end {
                proof {
                    lemma_cell(runs, m as int, w as int, r as int, a - start, i as int);
                    lemma_cell_steps(m as int, w as int, r as int, a - start, i as int);
                }
                data.push(src.data[(r * m + (a - start)) * w + i]);
            } else {
                data.push(self.data[f]);
            }
            f = f + 1;
        }
        let res = Tensor { shape, data, kind: self.kind, device: self.device };
        proof {
            assert forall|a: int| 0 <= a < n implies #[trigger] res.along(dim as int)[a]
                == want[a] by {
                assert forall|x: int| 0 <= x < runs * w implies res.along(dim as int)[a][x]
                    == want[a][x] by {
                    lemma_slice_position(runs, w as int, x);
                    lemma_cell(runs, n as int, w as int, x / w as int, a, x % w as int);
                }
                assert(res.along(dim as int)[a] =~= want[a]);
            }
            assert(res.along(dim as int) =~= want);
        }
        res
    }

    /// A copy.
    pub fn duplicate(&self) -> (res: Tensor)
        ensures
            res.same_as(self),
    {
        Tensor {
            shape: self.shape.clone(),
            data: self.data.clone(),
            kind: self.kind,
            device: self.device,
        }
    }
}

/// Where there is one run only, a slice along the last but one dimension is a row.
pub proof fn lemma_rows(t: &Tensor, r: int)
    requires
        t.wf(),
        t.rank() >= 2,
        outer(t.shape@, t.rank() - 2) == 1,
        0 <= r < t.shape[t.rank() - 2],
    ensures
        t.rows()[r] == t.row(r),
        t.row(r).len() == t.shape@.last(),
        inner(t.shape@, t.rank() - 2) == t.shape@.last(),
{
    let dim = t.rank() - 2;
    let w = t.shape@.last() as int;
    let n = t.shape[dim] as int;
    assert(t.shape@.skip(dim + 1) =~= seq![t.shape@.last()]);
    lemma_numel_one(t.shape@.last());
    lemma_numel_split(t.shape@, dim);
    assert(r * w + w <= 1 * n * w) by (nonlinear_arith)
        requires
            0 <= r < n,
            w >= 0,
    ;
    assert(0 <= r * w) by (nonlinear_arith)
        requires
            0 <= r,
            w >= 0,
    ;
    assert forall|x: int| 0 <= x < w implies t.rows()[r][x] == t.row(r)[x] by {
        assert(x / w == 0 && x % w == x) by {
            vstd::arithmetic::div_mod::lemma_fundamental_div_mod_converse(x, w, 0, x);
        }
        assert(cell(n, w, 0, r, x) == r * w + x) by (nonlinear_arith);
    }
    assert(1 * (w as nat) == w);
    assert(t.rows()[r] =~= t.row(r));
}

/// A leading dimension of extent one changes nothing about the others.
pub proof fn lemma_unsqueezed(shape: Seq<usize>, data: Seq<i64>, dim: int)
    requires
        0 <= dim < shape.len(),
    ensures
        slices(seq![1usize] + shape, data, dim + 1) == slices(shape, data, dim),
        outer(seq![1usize] + shape, dim + 1) == outer(shape, dim),
        inner(seq![1usize] + shape, dim + 1) == inner(shape, dim),
{
    let lead = seq![1usize] + shape;
    assert(lead.take(dim + 1) =~= seq![1usize] + shape.take(dim));
    lemma_numel_concat(seq![1usize], shape.take(dim));
    lemma_numel_one(1);
    assert(1 * numel(shape.take(dim)) == numel(shape.take(dim)));
    assert(lead.skip(dim + 2) =~= shape.skip(dim + 1));
    assert(slices(lead, data, dim + 1) =~~= slices(shape, data, dim));
}

impl Tensor {
    /// A tensor of one dimension that holds integers.
    pub fn from_slice_i64(values: &[i64], device: Device) -> (res: Tensor)
        ensures
            res.wf(),
            res.shape@ == seq![values@.len() as usize],
            res.data@ == values@,
            res.kind == DType::Int64,
            res.device == device,
    {
        let mut data: Vec<i64> = Vec::new();
        let mut i: usize = 0;
        while i < values.len()
            invariant
                i <= values.len(),
                data@ == values@.take(i as int),
            decreases values.len() - i,
        {
            data.push(values[i]);
            assert(values@.take(i + 1) =~= values@.take(i as int).push(values@[i as int]));
            i = i + 1;
        }
        assert(values@.take(values@.len() as int) =~= values@);
        let shape: Vec<usize> = vec![values.len()];
        proof {
            lemma_numel_one(values@.len() as usize);
            assert(shape@ =~= seq![values@.len() as usize]);
        }
        Tensor { shape, data, kind: DType::Int64, device }
    }

    /// Adds a leading dimension of extent one.
    pub fn unsqueeze(self) -> (res: Tensor)
        requires
            self.wf(),
        ensures
            res.wf(),
            res.shape@ == seq![1usize] + self.shape@,
            res.data@ == self.data@,
            res.kind == self.kind,
            res.device == self.device,
            forall|dim: int|
                0 <= dim < self.rank() ==> res.along(dim + 1) == #[trigger] self.along(dim),
    {
        let mut shape: Vec<usize> = vec![1];
        let mut rest: Vec<usize> = self.shape;
        shape.append(&mut rest);
        proof {
            assert(shape@ =~= seq![1usize] + self.shape@);
            lemma_numel_concat(seq![1usize], self.shape@);
            lemma_numel_one(1);
            assert(1 * numel(self.shape@) == numel(self.shape@));
            assert forall|dim: int| 0 <= dim < self.rank() implies slices(
                shape@,
                self.data@,
                dim + 1,
            ) == #[trigger] self.along(dim) by {
                lemma_unsqueezed(self.shape@, self.data@, dim);
            }
        }
        Tensor { shape, data: self.data, kind: self.kind, device: self.device }
    }

    /// The rows of a table that the integers in `ids` name.
    pub fn embedding(table: &Tensor, ids: &Tensor) -> (res: Tensor)
        requires
            table.wf(),
            table.rank() == 2,
            ids.wf(),
            forall|i: int|
                0 <= i < ids.data.len() ==> 0 <= #[trigger] ids.data[i] < table.shape[0],
            ids.data.len() * table.shape[1] <= usize::MAX,
        ensures
            res.wf(),
            res.shape@ == ids.shape@.push(table.shape[1]),
            forall|i: int|
                0 <= i < ids.data.len() ==> #[trigger] res.row(i) == table.row(
                    ids.data[i] as int,
                ),
            res.kind == table.kind,
            res.device == table.device,
    {
        let w: usize = table.shape[1];
        let mut shape: Vec<usize> = ids.shape.clone();
        shape.push(w);
        proof {
            lemma_numel_concat(ids.shape@, seq![w]);
            lemma_numel_one(w);
            assert(ids.shape@ + seq![w] =~= ids.shape@.push(w));
            assert(table.shape@ =~= seq![table.shape[0]] + seq![w]);
            lemma_numel_concat(seq![table.shape[0]], seq![w]);
            lemma_numel_one(table.shape[0]);
        }
        let mut data: Vec<i64> = Vec::new();
        let mut i: usize = 0;
        while i < ids.data.len()
            invariant
                i <= ids.data.len(),
                table.wf(),
                table.rank() == 2,
                w == table.shape[1],
                table.data.len() == table.shape[0] * w,
                forall|x: int|
                    0 <= x < ids.data.len() ==> 0 <= #[trigger] ids.data[x] < table.shape[0],
                ids.data.len() * w <= usize::MAX,
                data.len() == i * w,
                forall|x: int|
                    0 <= x < i ==> data@.subrange(x * w, x * w + w) == #[trigger] table.row(
                        ids.data[x] as int,
                    ),
            decreases ids.data.len() - i,
        {
            let id: usize = ids.data[i] as usize;
            let ghost before = data@;
            proof {
                assert(id * w + w <= table.shape[0] * w) by (nonlinear_arith)
                    requires
                        0 <= id < table.shape[0],
                        w >= 0,
                ;
                assert(0 <= id * w) by (nonlinear_arith)
                    requires
                        0 <= id,
                        w >= 0,
                ;
            }
            let base: usize = id * w;
            let mut c: usize = 0;
            while c < w
                invariant
                    c <= w,
                    base + w <= table.data.len(),
                    data@ == before + table.data@.subrange(base as int, base + c),
                decreases w - c,
            {
                data.push(table.data[base + c]);
                assert(table.data@.subrange(base as int, base + c + 1) =~= table.data@.subrange(
                    base as int,
                    base + c,
                ).push(table.data@[base + c]));
                c = c + 1;
            }
            proof {
                assert((i + 1) * w == i * w + w) by (nonlinear_arith);
                assert forall|x: int| 0 <= x < i + 1 implies data@.subrange(x * w, x * w + w)
                    == #[trigger] table.row(ids.data[x] as int) by {
                    assert(0 <= x * w && x * w + w <= i * w + w) by (nonlinear_arith)
                        requires
                            0 <= x <= i,
                            w >= 0,
                    ;
                    if x < i {
                        assert(x * w + w <= i * w) by (nonlinear_arith)
                            requires
                                x + 1 <= i,
                                w >= 0,
                        ;
                        assert(data@.subrange(x * w, x * w + w) =~= before.subrange(
                            x * w,
                            x * w + w,
                        ));
                    } else {
                        assert(data@.subrange(x * w, x * w + w) =~= table.row(id as int));
                    }
                }
            }
            i = i + 1;
        }
        let res = Tensor { shape, data, kind: table.kind, device: table.device };
        proof {
            assert forall|x: int| 0 <= x < ids.data.len() implies #[trigger] res.row(x)
                == table.row(ids.data[x] as int) by {
                let t = table.row(ids.data[x] as int);
                assert(res.shape@.last() == w);
            }
        }
        res
    }

    /// The transpose of a matrix.
    pub fn tr(&self) -> (res: Tensor)
        requires
            self.wf(),
            self.rank() == 2,
        ensures
            res.wf(),
            res.shape@ == seq![self.shape[1], self.shape[0]],
            forall|r: int, c: int|
                0 <= r < self.shape[1] && 0 <= c < self.shape[0] ==> #[trigger] res.row_major(r, c)
                    == self.row_major(c, r),
            res.kind == self.kind,
            res.device == self.device,
    {
        let n: usize = self.shape[0];
        let m: usize = self.shape[1];
        proof {
            assert(self.shape@ =~= seq![n] + seq![m]);
            lemma_numel_concat(seq![n], seq![m]);
            lemma_numel_concat(seq![m], seq![n]);
            lemma_numel_one(n);
            lemma_numel_one(m);
            assert(m * n == n * m) by (nonlinear_arith);
            assert(m * 0 == 0);
            assert(seq![m] + seq![n] =~= seq![m, n]);
        }
        let count: usize = self.data.len();
        let mut data: Vec<i64> = Vec::new();
        let mut f: usize = 0;
        while f < count
            invariant
                f <= count,
                count == self.data.len(),
                count == m * n,
                data.len() == f,
                n > 0 || count == 0,
                forall|x: int|
                    0 <= x < f ==> #[trigger] data[x] == self.data[(x % n as int) * m + x / n as int],
            decreases count - f,
        {
            let r: usize = f / n;
            let c: usize = f % n;
            proof {
                lemma_slice_position(m as int, n as int, f as int);
                assert(0 <= c * m && c * m + r < n * m) by (nonlinear_arith)
                    requires
                        0 <= c < n,
                        0 <= r < m,
                ;
                assert(n * m == m * n) by (nonlinear_arith);
            }
            data.push(self.data[c * m + r]);
            f = f + 1;
        }
        let res = Tensor { shape: vec![m, n], data, kind: self.kind, device: self.device };
        proof {
            assert forall|r: int, c: int| 0 <= r < m && 0 <= c < n implies #[trigger] res.row_major(
                r,
                c,
            ) == self.row_major(c, r) by {
                let x = r * n + c;
                assert(0 <= x < m * n) by (nonlinear_arith)
                    requires
                        0 <= r < m,
                        0 <= c < n,
                        x == r * n + c,
                ;
                vstd::arithmetic::div_mod::lemma_fundamental_div_mod_converse(x, n as int, r, c);
            }
        }
        res
    }
}

/// The partial results on the way to a cell are no larger than its index.
proof fn lemma_cell_steps(n: int, w: int, o: int, a: int, i: int)
    requires
        n >= 0,
        w >= 1,
        o >= 0,
        a >= 0,
        i >= 0,
    ensures
        0 <= o * n <= o * n + a <= (o * n + a) * w <= cell(n, w, o, a, i),
{
    assert(0 <= o * n) by (nonlinear_arith)
        requires
            o >= 0,
            n >= 0,
    ;
    let row = o * n + a;
    assert(row <= row * w) by (nonlinear_arith)
        requires
            row >= 0,
            w >= 1,
    ;
}

proof fn lemma_numel_positive(shape: Seq<usize>)
    requires
        forall|k: int| 0 <= k < shape.len() ==> shape[k] > 0,
    ensures
        numel(shape) > 0,
    decreases shape.len(),
{
    if shape.len() > 0 {
        lemma_numel_positive(shape.drop_last());
        assert(numel(shape.drop_last()) * (shape.last() as nat) > 0) by (nonlinear_arith)
            requires
                numel(shape.drop_last()) > 0,
                shape.last() > 0,
        ;
    }
}

} // verus!

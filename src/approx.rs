//! The rank-k approximation engine. Factors are held in fixed point: the left
//! factor (left singular vectors scaled by the singular values) in whole
//! units, the right factor in units of 1/10000, so every product entry is in
//! units of 1/10000.
use vstd::prelude::*;

verus! {

/// Largest number of components an engine accepts (a rank fits sixteen bits).
pub const MAX_COMPONENTS: usize = 65535;

/// Rank below which a request is always recomputed from scratch.
pub const DELTA_THRESHOLD: usize = 100;

/// `m` has `rows` rows of `cols` entries each.
pub open spec fn shaped<T>(m: Seq<Seq<T>>, rows: nat, cols: nat) -> bool {
    m.len() == rows && forall|i: int| 0 <= i < rows ==> #[trigger] m[i].len() == cols
}

/// Sum over components `lo..hi` of `left[i][t] * right[t][j]`.
pub open spec fn dot(left: Seq<Seq<i16>>, right: Seq<Seq<i16>>, i: int, j: int, lo: nat, hi: nat) -> int
    decreases hi,
{
    if hi <= lo {
        0
    } else {
        dot(left, right, i, j, lo, (hi - 1) as nat) + left[i][hi - 1] as int * right[hi - 1][j] as int
    }
}

/// The product of components `lo..hi` of the two factors.
pub open spec fn partial_product(left: Seq<Seq<i16>>, right: Seq<Seq<i16>>, rows: nat, cols: nat, lo: nat, hi: nat) -> Seq<Seq<int>> {
    Seq::new(rows, |i: int| Seq::new(cols, |j: int| dot(left, right, i, j, lo, hi)))
}

/// The rank-`k` reconstruction computed directly.
pub open spec fn product(left: Seq<Seq<i16>>, right: Seq<Seq<i16>>, rows: nat, cols: nat, k: nat) -> Seq<Seq<int>> {
    partial_product(left, right, rows, cols, 0, k)
}

/// Entry-wise sum (`sign` true) or difference of two matrices.
pub open spec fn combine(a: Seq<Seq<int>>, b: Seq<Seq<int>>, sign: bool) -> Seq<Seq<int>> {
    Seq::new(a.len(), |i: int| Seq::new(a[i].len(), |j: int| if sign { a[i][j] + b[i][j] } else { a[i][j] - b[i][j] }))
}

/// Whether a move from `old_rank` to `rank` updates by a delta rather than
/// recomputing from scratch.
pub open spec fn uses_delta(old_rank: nat, rank: nat) -> bool {
    !(old_rank < DELTA_THRESHOLD || rank < DELTA_THRESHOLD || 2 * rank < old_rank)
}

/// Rank and cached reconstruction after a request for `req` components, from
/// rank `rank` with cache `recon`: the request is clamped to the number of
/// components, then the cache is either recomputed or shifted by the product
/// of the components between the two ranks.
pub open spec fn request(
    left: Seq<Seq<i16>>,
    right: Seq<Seq<i16>>,
    rows: nat,
    cols: nat,
    comps: nat,
    rank: nat,
    recon: Seq<Seq<int>>,
    req: nat,
) -> (nat, Seq<Seq<int>>) {
    let k = if req < comps { req } else { comps };
    if !uses_delta(rank, k) {
        (k, product(left, right, rows, cols, k))
    } else if k > rank {
        (k, combine(recon, partial_product(left, right, rows, cols, rank, k), true))
    } else {
        (k, combine(recon, partial_product(left, right, rows, cols, k, rank), false))
    }
}

/// Rank and cache after a sequence of requests.
pub open spec fn run(
    left: Seq<Seq<i16>>,
    right: Seq<Seq<i16>>,
    rows: nat,
    cols: nat,
    comps: nat,
    rank: nat,
    recon: Seq<Seq<int>>,
    reqs: Seq<nat>,
) -> (nat, Seq<Seq<int>>)
    decreases reqs.len(),
{
    if reqs.len() == 0 {
        (rank, recon)
    } else {
        let prev = run(left, right, rows, cols, comps, rank, recon, reqs.drop_last());
        request(left, right, rows, cols, comps, prev.0, prev.1, reqs.last())
    }
}

/// A sum over components splits at any point between its bounds.
pub proof fn lemma_dot_split(left: Seq<Seq<i16>>, right: Seq<Seq<i16>>, i: int, j: int, a: nat, b: nat, c: nat)
    requires
        a <= b <= c,
    ensures
        dot(left, right, i, j, a, c) == dot(left, right, i, j, a, b) + dot(left, right, i, j, b, c),
    decreases c,
{
    if c > b {
        lemma_dot_split(left, right, i, j, a, b, (c - 1) as nat);
    }
}

/// A sum over `hi - lo` products of 16-bit entries lies within
/// `(hi - lo) * 2^30` in size.
pub proof fn lemma_dot_bound(left: Seq<Seq<i16>>, right: Seq<Seq<i16>>, i: int, j: int, lo: nat, hi: nat)
    requires
        lo <= hi,
    ensures
        -(hi - lo) * 0x4000_0000 <= dot(left, right, i, j, lo, hi) <= (hi - lo) * 0x4000_0000,
    decreases hi,
{
    if hi > lo {
        lemma_dot_bound(left, right, i, j, lo, (hi - 1) as nat);
        let a = left[i][hi - 1] as int;
        let b = right[hi - 1][j] as int;
        assert(-0x4000_0000 <= a * b <= 0x4000_0000) by (nonlinear_arith)
            requires -32768 <= a <= 32767, -32768 <= b <= 32767;
    }
}

proof fn lemma_request_exact(
    left: Seq<Seq<i16>>,
    right: Seq<Seq<i16>>,
    rows: nat,
    cols: nat,
    comps: nat,
    rank: nat,
    recon: Seq<Seq<int>>,
    req: nat,
)
    requires
        recon == product(left, right, rows, cols, rank),
    ensures
        request(left, right, rows, cols, comps, rank, recon, req).1
            == product(left, right, rows, cols, request(left, right, rows, cols, comps, rank, recon, req).0),
{
    let r = request(left, right, rows, cols, comps, rank, recon, req);
    let k = r.0;
    if uses_delta(rank, k) {
        assert forall|i: int, j: int| 0 <= i < rows && 0 <= j < cols implies r.1[i][j] == dot(left, right, i, j, 0, k) by {
            if k > rank {
                lemma_dot_split(left, right, i, j, 0, rank, k);
            } else {
                lemma_dot_split(left, right, i, j, 0, k, rank);
            }
        }
        assert(r.1 =~~= product(left, right, rows, cols, k));
    }
}

/// Incremental updates never drift: whatever sequence of ranks is requested,
/// the cached reconstruction equals the one computed directly for the last
/// (clamped) rank.
pub proof fn lemma_reconstruction_equivalence(
    left: Seq<Seq<i16>>,
    right: Seq<Seq<i16>>,
    rows: nat,
    cols: nat,
    comps: nat,
    rank: nat,
    reqs: Seq<nat>,
)
    requires
        reqs.len() > 0,
    ensures
        run(left, right, rows, cols, comps, rank, product(left, right, rows, cols, rank), reqs).0
            == if reqs.last() < comps { reqs.last() } else { comps },
        run(left, right, rows, cols, comps, rank, product(left, right, rows, cols, rank), reqs).1
            == product(left, right, rows, cols, if reqs.last() < comps { reqs.last() } else { comps }),
    decreases reqs.len(),
{
    let start = product(left, right, rows, cols, rank);
    let prev = run(left, right, rows, cols, comps, rank, start, reqs.drop_last());
    if reqs.len() > 1 {
        lemma_reconstruction_equivalence(left, right, rows, cols, comps, rank, reqs.drop_last());
    }
    assert(prev.1 == product(left, right, rows, cols, prev.0));
    lemma_request_exact(left, right, rows, cols, comps, prev.0, prev.1, reqs.last());
}

/// Integer view of a matrix of `i64` rows.
pub open spec fn as_int(m: Seq<Vec<i64>>) -> Seq<Seq<int>> {
    Seq::new(m.len(), |i: int| Seq::new(m[i]@.len(), |j: int| m[i]@[j] as int))
}

/// Plain view of a matrix of `i16` rows.
pub open spec fn rows_of(m: Seq<Vec<i16>>) -> Seq<Seq<i16>> {
    Seq::new(m.len(), |i: int| m[i]@)
}

/// Computes `dot(left, right, i, j, lo, hi)`.
fn dot_range(left: &Vec<Vec<i16>>, right: &Vec<Vec<i16>>, i: usize, j: usize, lo: usize, hi: usize) -> (r: i64)
    requires
        i < left@.len(),
        lo <= hi <= MAX_COMPONENTS,
        left@[i as int]@.len() >= hi,
        right@.len() >= hi,
        forall|t: int| 0 <= t < hi ==> j < (#[trigger] right@[t])@.len(),
    ensures
        r as int == dot(rows_of(left@), rows_of(right@), i as int, j as int, lo as nat, hi as nat),
{
    let ghost l = rows_of(left@);
    let ghost rr = rows_of(right@);
    let mut acc: i64 = 0;
    let mut t: usize = lo;
    while t < hi
        invariant
            lo <= t <= hi,
            hi <= MAX_COMPONENTS,
            i < left@.len(),
            left@[i as int]@.len() >= hi,
            right@.len() >= hi,
            forall|u: int| 0 <= u < hi ==> j < (#[trigger] right@[u])@.len(),
            l == rows_of(left@),
            rr == rows_of(right@),
            acc as int == dot(l, rr, i as int, j as int, lo as nat, t as nat),
        decreases hi - t,
    {
        proof {
            lemma_dot_bound(l, rr, i as int, j as int, lo as nat, (t + 1) as nat);
            assert(l[i as int][t as int] == left@[i as int]@[t as int]);
            assert(rr[t as int][j as int] == right@[t as int]@[j as int]);
            let n = t + 1 - lo;
            assert(n * 0x4000_0000 <= 65535 * 0x4000_0000) by (nonlinear_arith)
                requires n <= 65535;
            assert(dot(l, rr, i as int, j as int, lo as nat, (t + 1) as nat)
                == acc as int + (left@[i as int]@[t as int] as int) * (right@[t as int]@[j as int] as int));
        }
        let a = left[i][t] as i64;
        let b = right[t][j] as i64;
        proof {
            assert(-0x4000_0000 <= a * b <= 0x4000_0000) by (nonlinear_arith)
                requires -32768 <= a <= 32767, -32768 <= b <= 32767;
        }
        acc = acc + a * b;
        t = t + 1;
    }
    acc
}

/// The rank-k approximation engine over fixed-point factors.
pub struct SvdResult {
    u_multiplied_with_singular_values: Vec<Vec<i16>>,
    v_t: Vec<Vec<i16>>,
    rows: usize,
    cols: usize,
    current_rank: usize,
    low_rank_approximation: Vec<Vec<i64>>,
}

impl SvdResult {
    /// Left factor: rows by components, in whole units.
    pub closed spec fn left(&self) -> Seq<Seq<i16>> {
        rows_of(self.u_multiplied_with_singular_values@)
    }

    /// Right factor: components by columns, in units of 1/10000.
    pub closed spec fn right(&self) -> Seq<Seq<i16>> {
        rows_of(self.v_t@)
    }

    /// Number of rows of the image.
    pub closed spec fn rows(&self) -> nat {
        self.rows as nat
    }

    /// Number of columns of the image.
    pub closed spec fn cols(&self) -> nat {
        self.cols as nat
    }

    /// Number of components available.
    pub closed spec fn comps(&self) -> nat {
        self.v_t@.len()
    }

    /// Rank of the cached reconstruction.
    pub closed spec fn rank(&self) -> nat {
        self.current_rank as nat
    }

    /// The cached reconstruction, in units of 1/10000.
    pub closed spec fn recon(&self) -> Seq<Seq<int>> {
        as_int(self.low_rank_approximation@)
    }

    /// Factors of matching shapes, and a cache that holds the product of the
    /// first `rank()` components.
    pub closed spec fn wf(&self) -> bool {
        &&& shaped(self.left(), self.rows as nat, self.comps())
        &&& shaped(self.right(), self.comps(), self.cols as nat)
        &&& self.comps() <= MAX_COMPONENTS
        &&& self.current_rank <= self.comps()
        &&& shaped(self.recon(), self.rows as nat, self.cols as nat)
        &&& self.recon() == product(self.left(), self.right(), self.rows as nat, self.cols as nat, self.current_rank as nat)
    }

    /// The invariant of an engine, as callers may use it: factors of
    /// matching shapes, and a cache equal to the direct product at the
    /// current rank.
    pub proof fn lemma_wf(&self)
        requires
            self.wf(),
        ensures
            shaped(self.left(), self.rows(), self.comps()),
            shaped(self.right(), self.comps(), self.cols()),
            self.comps() <= MAX_COMPONENTS,
            self.rank() <= self.comps(),
            shaped(self.recon(), self.rows(), self.cols()),
            self.recon() == product(self.left(), self.right(), self.rows(), self.cols(), self.rank()),
    {
    }

    /// Takes the fixed-point factors: `u` (rows by components) is the left
    /// factor, `v_t` (components by `cols`) the right one. Starts at rank 0,
    /// with an all-zero reconstruction.
    pub fn new(u: Vec<Vec<i16>>, v_t: Vec<Vec<i16>>, cols: usize) -> (r: Self)
        requires
            shaped(rows_of(u@), u@.len(), v_t@.len()),
            shaped(rows_of(v_t@), v_t@.len(), cols as nat),
            v_t@.len() <= MAX_COMPONENTS,
        ensures
            r.wf(),
            r.left() == rows_of(u@),
            r.right() == rows_of(v_t@),
            r.rows() == u@.len(),
            r.cols() == cols,
            r.comps() == v_t@.len(),
            r.rank() == 0,
            r.recon() == product(r.left(), r.right(), r.rows(), r.cols(), 0),
    {
        let rows = u.len();
        let mut r = SvdResult {
            u_multiplied_with_singular_values: u,
            v_t,
            rows,
            cols,
            current_rank: 0,
            low_rank_approximation: Vec::new(),
        };
        r.low_rank_approximation = r.product_matrix(0);
        r
    }

    /// Number of components available.
    pub fn components(&self) -> (r: usize)
        requires
            self.wf(),
        ensures
            r == self.comps(),
    {
        self.v_t.len()
    }

    /// Rank of the cached reconstruction.
    pub fn current_rank(&self) -> (r: usize)
        ensures
            r == self.rank(),
    {
        self.current_rank
    }

    fn compute_low_rank_approximation_from_scratch(&mut self, rank: usize)
        requires
            old(self).wf(),
            rank <= old(self).comps(),
        ensures
            final(self).wf(),
            final(self).left() == old(self).left(),
            final(self).right() == old(self).right(),
            final(self).rows() == old(self).rows(),
            final(self).cols() == old(self).cols(),
            final(self).rank() == rank,
    {
        self.low_rank_approximation = self.product_matrix(rank);
        self.current_rank = rank;
        proof {
            assert(shaped(self.recon(), self.rows as nat, self.cols as nat));
        }
    }

    fn update_low_rank_approximation(&mut self, new_rank: usize)
        requires
            old(self).wf(),
            new_rank <= old(self).comps(),
        ensures
            final(self).left() == old(self).left(),
            final(self).right() == old(self).right(),
            final(self).rows() == old(self).rows(),
            final(self).cols() == old(self).cols(),
            final(self).comps() == old(self).comps(),
            final(self).rank() == new_rank,
            shaped(final(self).left(), final(self).rows(), final(self).comps()),
            shaped(final(self).right(), final(self).comps(), final(self).cols()),
            final(self).comps() <= MAX_COMPONENTS,
            final(self).rank() <= final(self).comps(),
            new_rank > old(self).rank() ==> final(self).recon() == combine(
                old(self).recon(),
                partial_product(old(self).left(), old(self).right(), old(self).rows(), old(self).cols(), old(self).rank(), new_rank as nat),
                true,
            ),
            new_rank <= old(self).rank() ==> final(self).recon() == combine(
                old(self).recon(),
                partial_product(old(self).left(), old(self).right(), old(self).rows(), old(self).cols(), new_rank as nat, old(self).rank()),
                false,
            ),
    {
        let old_rank = self.current_rank;
        let grow = new_rank > old_rank;
        let lo = if grow { old_rank } else { new_rank };
        let hi = if grow { new_rank } else { old_rank };
        let ghost l = self.left();
        let ghost rr = self.right();
        let ghost rec = self.recon();
        let ghost delta = partial_product(l, rr, self.rows as nat, self.cols as nat, lo as nat, hi as nat);
        let ghost target = combine(rec, delta, grow);
        let mut out: Vec<Vec<i64>> = Vec::with_capacity(self.rows);
        let mut i: usize = 0;
        while i < self.rows
            invariant
                self.wf(),
                l == self.left(),
                rr == self.right(),
                rec == self.recon(),
                self.current_rank == old_rank,
                lo <= hi <= self.comps(),
                delta == partial_product(l, rr, self.rows as nat, self.cols as nat, lo as nat, hi as nat),
                target == combine(rec, delta, grow),
                0 <= i <= self.rows,
                out@.len() == i,
                forall|a: int| 0 <= a < i ==> (#[trigger] as_int(out@)[a]) == target[a],
            decreases self.rows - i,
        {
            let mut row: Vec<i64> = Vec::with_capacity(self.cols);
            let mut j: usize = 0;
            while j < self.cols
                invariant
                    self.wf(),
                    l == self.left(),
                    rr == self.right(),
                    rec == self.recon(),
                    self.current_rank == old_rank,
                    lo <= hi <= self.comps(),
                    delta == partial_product(l, rr, self.rows as nat, self.cols as nat, lo as nat, hi as nat),
                    target == combine(rec, delta, grow),
                    0 <= i < self.rows,
                    0 <= j <= self.cols,
                    row@.len() == j,
                    forall|b: int| 0 <= b < j ==> row@[b] as int == target[i as int][b],
                decreases self.cols - j,
            {
                proof {
                    assert(self.left()[i as int].len() == self.comps());
                    assert forall|t: int| 0 <= t < hi implies j < (#[trigger] self.v_t@[t])@.len() by {
                        assert(self.right()[t].len() == self.cols);
                    }
                    assert(rec[i as int].len() == self.cols);
                }
                let d = dot_range(&self.u_multiplied_with_singular_values, &self.v_t, i, j, lo, hi);
                let c = self.low_rank_approximation[i][j];
                proof {
                    assert(c as int == rec[i as int][j as int]);
                    lemma_dot_bound(l, rr, i as int, j as int, 0, old_rank as nat);
                    lemma_dot_bound(l, rr, i as int, j as int, lo as nat, hi as nat);
                    let n1 = old_rank as int;
                    let n2 = hi - lo;
                    assert(n1 * 0x4000_0000 <= 65535 * 0x4000_0000) by (nonlinear_arith)
                        requires n1 <= 65535;
                    assert(n2 * 0x4000_0000 <= 65535 * 0x4000_0000) by (nonlinear_arith)
                        requires n2 <= 65535;
                }
                let v = if grow { c + d } else { c - d };
                row.push(v);
                j = j + 1;
            }
            let ghost prev = out@;
            out.push(row);
            proof {
                assert forall|a: int| 0 <= a < i + 1 implies (#[trigger] as_int(out@)[a]) == target[a] by {
                    if a < i {
                        assert(out@[a] == prev[a]);
                        assert(as_int(out@)[a] =~= as_int(prev)[a]);
                    } else {
                        assert(rec[a].len() == self.cols);
                        assert(as_int(out@)[a] =~= target[a]);
                    }
                }
            }
            i = i + 1;
        }
        proof {
            assert(as_int(out@) =~= target);
        }
        self.low_rank_approximation = out;
        self.current_rank = new_rank;
    }

    /// A copy of the cached reconstruction.
    pub fn approximation(&self) -> (r: Vec<Vec<i64>>)
        requires
            self.wf(),
        ensures
            as_int(r@) == self.recon(),
    {
        let mut out: Vec<Vec<i64>> = Vec::with_capacity(self.rows);
        let mut i: usize = 0;
        while i < self.rows
            invariant
                self.wf(),
                0 <= i <= self.rows,
                out@.len() == i,
                forall|a: int| 0 <= a < i ==> (#[trigger] as_int(out@)[a]) == self.recon()[a],
            decreases self.rows - i,
        {
            let mut row: Vec<i64> = Vec::with_capacity(self.cols);
            let mut j: usize = 0;
            proof {
                assert(self.recon()[i as int].len() == self.cols);
            }
            while j < self.cols
                invariant
                    self.wf(),
                    0 <= i < self.rows,
                    0 <= j <= self.cols,
                    self.recon()[i as int].len() == self.cols,
                    row@.len() == j,
                    forall|b: int| 0 <= b < j ==> row@[b] as int == self.recon()[i as int][b],
                decreases self.cols - j,
            {
                row.push(self.low_rank_approximation[i][j]);
                j = j + 1;
            }
            let ghost prev = out@;
            out.push(row);
            proof {
                assert forall|a: int| 0 <= a < i + 1 implies (#[trigger] as_int(out@)[a]) == self.recon()[a] by {
                    if a < i {
                        assert(out@[a] == prev[a]);
                        assert(as_int(out@)[a] =~= as_int(prev)[a]);
                    } else {
                        assert(as_int(out@)[a] =~= self.recon()[a]);
                    }
                }
            }
            i = i + 1;
        }
        proof {
            assert(as_int(out@) =~= self.recon());
        }
        out
    }

    /// Moves the cached reconstruction to `req_rank` components (at most the
    /// number available) and returns a copy of it, in units of 1/10000. From a
    /// small rank, to a small rank, or to less than half the rank, it is
    /// recomputed from scratch; otherwise only the product of the components
    /// between the two ranks is added or taken away.
    pub fn compute_low_rank_approximation(&mut self, req_rank: usize) -> (r: Vec<Vec<i64>>)
        requires
            old(self).wf(),
        ensures
            final(self).wf(),
            final(self).left() == old(self).left(),
            final(self).right() == old(self).right(),
            final(self).rows() == old(self).rows(),
            final(self).cols() == old(self).cols(),
            final(self).comps() == old(self).comps(),
            (final(self).rank(), final(self).recon()) == request(
                old(self).left(),
                old(self).right(),
                old(self).rows(),
                old(self).cols(),
                old(self).comps(),
                old(self).rank(),
                old(self).recon(),
                req_rank as nat,
            ),
            final(self).rank() == if req_rank < old(self).comps() { req_rank as nat } else { old(self).comps() },
            final(self).recon() == product(old(self).left(), old(self).right(), old(self).rows(), old(self).cols(), final(self).rank()),
            as_int(r@) == final(self).recon(),
    {
        let comps = self.v_t.len();
        let rank = if req_rank < comps { req_rank } else { comps };
        let old_rank = self.current_rank;
        proof {
            lemma_request_exact(
                self.left(),
                self.right(),
                self.rows as nat,
                self.cols as nat,
                self.comps(),
                old_rank as nat,
                self.recon(),
                req_rank as nat,
            );
        }
        if old_rank < DELTA_THRESHOLD || rank < DELTA_THRESHOLD || 2 * rank < old_rank {
            self.compute_low_rank_approximation_from_scratch(rank);
        } else {
            self.update_low_rank_approximation(rank);
            proof {
                assert(shaped(self.recon(), self.rows as nat, self.cols as nat));
            }
        }
        self.approximation()
    }

    /// The first `rank()` columns of the left factor.
    pub fn get_lhs(&self) -> (r: Vec<Vec<i16>>)
        requires
            self.wf(),
        ensures
            r@.len() == self.rows(),
            forall|i: int| 0 <= i < self.rows() ==> (#[trigger] r@[i])@ == self.left()[i].take(self.rank() as int),
    {
        let mut out: Vec<Vec<i16>> = Vec::with_capacity(self.rows);
        let mut i: usize = 0;
        while i < self.rows
            invariant
                self.wf(),
                0 <= i <= self.rows,
                out@.len() == i,
                forall|a: int| 0 <= a < i ==> (#[trigger] out@[a])@ == self.left()[a].take(self.rank() as int),
            decreases self.rows - i,
        {
            let mut row: Vec<i16> = Vec::with_capacity(self.current_rank);
            let mut t: usize = 0;
            proof {
                assert(self.left()[i as int].len() == self.comps());
            }
            while t < self.current_rank
                invariant
                    self.wf(),
                    0 <= i < self.rows,
                    0 <= t <= self.current_rank,
                    self.left()[i as int].len() == self.comps(),
                    row@ == self.left()[i as int].take(t as int),
                decreases self.current_rank - t,
            {
                row.push(self.u_multiplied_with_singular_values[i][t]);
                proof {
                    assert(row@ =~= self.left()[i as int].take(t + 1));
                }
                t = t + 1;
            }
            out.push(row);
            i = i + 1;
        }
        out
    }

    /// The first `rank()` rows of the right factor.
    pub fn get_rhs(&self) -> (r: Vec<Vec<i16>>)
        requires
            self.wf(),
        ensures
            r@.len() == self.rank(),
            forall|t: int| 0 <= t < self.rank() ==> (#[trigger] r@[t])@ == self.right()[t],
    {
        let mut out: Vec<Vec<i16>> = Vec::with_capacity(self.current_rank);
        let mut t: usize = 0;
        while t < self.current_rank
            invariant
                self.wf(),
                0 <= t <= self.current_rank,
                out@.len() == t,
                forall|a: int| 0 <= a < t ==> (#[trigger] out@[a])@ == self.right()[a],
            decreases self.current_rank - t,
        {
            let mut row: Vec<i16> = Vec::with_capacity(self.cols);
            let mut j: usize = 0;
            proof {
                assert(self.right()[t as int].len() == self.cols);
            }
            while j < self.cols
                invariant
                    self.wf(),
                    0 <= t < self.current_rank,
                    0 <= j <= self.cols,
                    self.right()[t as int].len() == self.cols,
                    row@ == self.right()[t as int].take(j as int),
                decreases self.cols - j,
            {
                row.push(self.v_t[t][j]);
                proof {
                    assert(row@ =~= self.right()[t as int].take(j + 1));
                }
                j = j + 1;
            }
            proof {
                assert(row@ =~= self.right()[t as int]);
            }
            out.push(row);
            t = t + 1;
        }
        out
    }

    /// The rank-`k` reconstruction, computed directly.
    fn product_matrix(&self, k: usize) -> (r: Vec<Vec<i64>>)
        requires
            shaped(self.left(), self.rows as nat, self.comps()),
            shaped(self.right(), self.comps(), self.cols as nat),
            self.comps() <= MAX_COMPONENTS,
            k <= self.comps(),
        ensures
            as_int(r@) == product(self.left(), self.right(), self.rows as nat, self.cols as nat, k as nat),
    {
        let mut out: Vec<Vec<i64>> = Vec::with_capacity(self.rows);
        let mut i: usize = 0;
        while i < self.rows
            invariant
                shaped(self.left(), self.rows as nat, self.comps()),
                shaped(self.right(), self.comps(), self.cols as nat),
                self.comps() <= MAX_COMPONENTS,
                k <= self.comps(),
                0 <= i <= self.rows,
                out@.len() == i,
                forall|a: int| 0 <= a < i ==> (#[trigger] as_int(out@)[a]) == product(self.left(), self.right(), self.rows as nat, self.cols as nat, k as nat)[a],
            decreases self.rows - i,
        {
            let mut row: Vec<i64> = Vec::with_capacity(self.cols);
            let mut j: usize = 0;
            while j < self.cols
                invariant
                    shaped(self.left(), self.rows as nat, self.comps()),
                    shaped(self.right(), self.comps(), self.cols as nat),
                    self.comps() <= MAX_COMPONENTS,
                    k <= self.comps(),
                    0 <= i < self.rows,
                    0 <= j <= self.cols,
                    row@.len() == j,
                    forall|b: int| 0 <= b < j ==> row@[b] as int == dot(self.left(), self.right(), i as int, b, 0, k as nat),
                decreases self.cols - j,
            {
                proof {
                    assert(self.left()[i as int].len() == self.comps());
                    assert forall|t: int| 0 <= t < k implies j < (#[trigger] self.v_t@[t])@.len() by {
                        assert(self.right()[t].len() == self.cols);
                    }
                }
                let d = dot_range(&self.u_multiplied_with_singular_values, &self.v_t, i, j, 0, k);
                row.push(d);
                j = j + 1;
            }
            let ghost prev = out@;
            out.push(row);
            proof {
                assert forall|a: int| 0 <= a < i + 1 implies (#[trigger] as_int(out@)[a]) == product(self.left(), self.right(), self.rows as nat, self.cols as nat, k as nat)[a] by {
                    if a < i {
                        assert(out@[a] == prev[a]);
                        assert(as_int(out@)[a] =~= as_int(prev)[a]);
                    } else {
                        assert(as_int(out@)[a] =~= product(self.left(), self.right(), self.rows as nat, self.cols as nat, k as nat)[a]);
                    }
                }
            }
            i = i + 1;
        }
        proof {
            assert(as_int(out@) =~= product(self.left(), self.right(), self.rows as nat, self.cols as nat, k as nat));
        }
        out
    }
}

} // verus!

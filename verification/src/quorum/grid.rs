use vstd::prelude::*;
use vstd::set_lib::*;

use crate::client::Pid;
use crate::random::shuffle_indices;
use dscale::rand::rngs::SmallRng;

verus! {

/// Integer square root: the largest `r` with `r * r <= n`.
pub fn isqrt(n: usize) -> (r: usize)
    ensures
        r * r <= n,
        n < (r + 1) * (r + 1),
{
    let mut r: usize = 0;
    loop
        invariant
            r * r <= n,
        ensures
            r * r <= n,
            n < (r + 1) * (r + 1),
        decreases n - r,
    {
        assert(r < usize::MAX && r <= n) by (nonlinear_arith)
            requires
                r * r <= n,
                n <= usize::MAX,
        ;
        let q: usize = n / (r + 1);
        if q < r + 1 {
            proof {
                assert(n < (r + 1) * (r + 1)) by (nonlinear_arith)
                    requires
                        q < r + 1,
                        q == n as int / (r + 1),
                        r + 1 > 0,
                ;
            }
            break ;
        }
        proof {
            assert((r + 1) * (r + 1) <= n) by (nonlinear_arith)
                requires
                    (r + 1) <= q,
                    q == n as int / (r + 1),
                    r + 1 > 0,
            ;
        }
        r = r + 1;
    }
    r
}

/// The number of rows (and of columns) a grid quorum takes on a grid of side `n`:
/// the least `x` with `x * x >= n / 2`, i.e. `ceil(sqrt(3f/2 + 1))` for `f = (n - 2) / 3`.
pub open spec fn is_rows_per_quorum(n: int, x: int) -> bool {
    &&& x >= 0
    &&& 2 * x * x >= n
    &&& (x == 0 || 2 * (x - 1) * (x - 1) < n)
}

/// Computes the least `x` with `2 * x * x >= n`.
fn rows_per_quorum(n: usize) -> (x: usize)
    ensures
        is_rows_per_quorum(n as int, x as int),
        x <= n,
{
    let mut x: usize = 0;
    loop
        invariant
            x <= n,
            x == 0 || 2 * (x - 1) * (x - 1) < n,
        ensures
            x <= n,
            x == 0 || 2 * (x - 1) * (x - 1) < n,
            2 * x * x >= n,
        decreases n - x,
    {
        if x == n {
            proof {
                if n > 0 {
                    assert(2 * x * x >= n) by (nonlinear_arith)
                        requires x == n, n > 0;
                }
            }
            break;
        }
        let wide: u128 = x as u128;
        assert(wide * wide <= 0xffff_ffff_ffff_ffff_ffff_ffff_ffff_ffff) by (nonlinear_arith)
            requires wide <= 0xffff_ffff_ffff_ffff;
        let sq: u128 = wide * wide;
        let half: u128 = (n as u128 + 1) / 2;
        if sq >= half {
            assert(2 * x * x >= n) by (nonlinear_arith)
                requires sq == x * x, sq >= half, half == (n + 1) / 2;
            break;
        }
        assert(2 * x * x < n) by (nonlinear_arith)
            requires sq == x * x, sq < half, half == (n + 1) / 2;
        x = x + 1;
    }
    x
}

/// `n` squared.
pub open spec fn square(n: int) -> int {
    n * n
}

/// `k` processes fill a square grid.
pub open spec fn fills_square(k: int) -> bool {
    exists|n: int| 0 <= n && #[trigger] square(n) == k
}

/// The indices below `k` whose line satisfies `p`.
pub open spec fn lines_below(p: spec_fn(int) -> bool, k: int) -> Set<int> {
    Set::new(|r: int| 0 <= r < k && p(r))
}

/// Counting the lines below `k + 1` adds line `k` when it satisfies `p`.
proof fn lemma_lines_below_step(p: spec_fn(int) -> bool, k: int)
    requires
        k >= 0,
    ensures
        lines_below(p, k).finite(),
        lines_below(p, k + 1).finite(),
        !lines_below(p, k).contains(k),
        lines_below(p, k + 1) == (if p(k) { lines_below(p, k).insert(k) } else { lines_below(p, k) }),
        lines_below(p, k + 1).len() == lines_below(p, k).len() + (if p(k) { 1int } else { 0int }),
{
    lemma_int_range(0, k);
    lemma_int_range(0, k + 1);
    lemma_len_subset(lines_below(p, k), set_int_range(0, k));
    lemma_len_subset(lines_below(p, k + 1), set_int_range(0, k + 1));
    if p(k) {
        assert(lines_below(p, k + 1) =~= lines_below(p, k).insert(k));
    } else {
        assert(lines_below(p, k + 1) =~= lines_below(p, k));
    }
}

/// Pairwise distinct lines below `k` that all satisfy `p` are all counted.
proof fn lemma_distinct_lines_counted(p: spec_fn(int) -> bool, lines: Seq<usize>, k: int)
    requires
        k >= 0,
        lines.no_duplicates(),
        forall|i: int| 0 <= i < lines.len() ==> #[trigger] lines[i] < k && p(lines[i] as int),
    ensures
        lines_below(p, k).finite(),
        lines_below(p, k).len() >= lines.len(),
{
    lemma_int_range(0, k);
    lemma_len_subset(lines_below(p, k), set_int_range(0, k));
    let as_ints = lines.map_values(|v: usize| v as int);
    assert(as_ints.no_duplicates()) by {
        assert forall|i: int, j: int| 0 <= i < as_ints.len() && 0 <= j < as_ints.len() && i != j
            implies as_ints[i] != as_ints[j] by {
            assert(lines[i] != lines[j]);
        }
    }
    as_ints.unique_seq_to_set();
    assert forall|r: int| as_ints.to_set().contains(r) implies lines_below(p, k).contains(r) by {
        let i = choose|i: int| 0 <= i < as_ints.len() && as_ints[i] == r;
        assert(lines[i] < k && p(lines[i] as int));
    }
    lemma_len_subset(as_ints.to_set(), lines_below(p, k));
}

/// Whether `pid` is among `members`.
pub fn contains_pid(members: &[Pid], pid: Pid) -> (r: bool)
    ensures
        r == members@.contains(pid),
{
    let mut i: usize = 0;
    while i < members.len()
        invariant
            i <= members@.len(),
            forall|j: int| 0 <= j < i ==> members@[j] != pid,
        decreases members@.len() - i,
    {
        if members[i] == pid {
            return true;
        }
        i = i + 1;
    }
    false
}

/// Whether `id` is among `ids`.
pub fn contains_id(ids: &[crate::client::CmdId], id: crate::client::CmdId) -> (r: bool)
    ensures
        r == ids@.contains(id),
{
    let mut i: usize = 0;
    while i < ids.len()
        invariant
            i <= ids@.len(),
            forall|j: int| 0 <= j < i ==> ids@[j] != id,
        decreases ids@.len() - i,
    {
        if ids[i] == id {
            return true;
        }
        i = i + 1;
    }
    false
}

/// Whether `v` is among `values`.
pub fn contains_index(values: &[usize], v: usize) -> (r: bool)
    ensures
        r == values@.contains(v),
{
    let mut i: usize = 0;
    while i < values.len()
        invariant
            i <= values@.len(),
            forall|j: int| 0 <= j < i ==> values@[j] != v,
        decreases values@.len() - i,
    {
        if values[i] == v {
            return true;
        }
        i = i + 1;
    }
    false
}

/// The process at row `r`, column `c` of a grid of side `n` laid out row after row.
pub open spec fn grid_cell(grid: Seq<Pid>, n: int, r: int, c: int) -> Pid {
    grid[r * n + c]
}

/// The processes of the rows `rows`, row after row.
pub open spec fn row_cells(grid: Seq<Pid>, n: int, rows: Seq<usize>) -> Seq<Pid>
    decreases rows.len(),
{
    if rows.len() == 0 {
        Seq::empty()
    } else {
        row_cells(grid, n, rows.drop_last()) + Seq::new(
            n as nat,
            |c: int| grid_cell(grid, n, rows.last() as int, c),
        )
    }
}

/// The processes of column `c` in rows below `k` that are not among `rows`.
pub open spec fn column_outside(grid: Seq<Pid>, n: int, rows: Seq<usize>, c: int, k: int) -> Seq<Pid>
    decreases k,
{
    if k <= 0 {
        Seq::empty()
    } else if rows.contains((k - 1) as usize) {
        column_outside(grid, n, rows, c, k - 1)
    } else {
        column_outside(grid, n, rows, c, k - 1).push(grid_cell(grid, n, k - 1, c))
    }
}

/// The processes of the columns `cols` outside the rows `rows`, column after column.
pub open spec fn col_cells(grid: Seq<Pid>, n: int, rows: Seq<usize>, cols: Seq<usize>) -> Seq<Pid>
    decreases cols.len(),
{
    if cols.len() == 0 {
        Seq::empty()
    } else {
        col_cells(grid, n, rows, cols.drop_last()) + column_outside(
            grid,
            n,
            rows,
            cols.last() as int,
            n,
        )
    }
}

proof fn lemma_cell_in_grid(g: Seq<Pid>, n: int, r: int, c: int)
    requires
        n * n == g.len(),
        0 <= r < n,
        0 <= c < n,
    ensures
        g.contains(grid_cell(g, n, r, c)),
{
    assert(r * n + c < n * n) by (nonlinear_arith) requires 0 <= r < n, 0 <= c < n;
    assert(0 <= r * n + c) by (nonlinear_arith) requires 0 <= r, 0 <= c, 0 <= n;
    assert(g[r * n + c] == grid_cell(g, n, r, c));
}

proof fn lemma_row_cells_in_grid(g: Seq<Pid>, n: int, rows: Seq<usize>)
    requires
        n * n == g.len(),
        forall|i: int| 0 <= i < rows.len() ==> #[trigger] rows[i] < n,
    ensures
        forall|k: int| 0 <= k < row_cells(g, n, rows).len() ==> g.contains(#[trigger] row_cells(g, n, rows)[k]),
    decreases rows.len(),
{
    if rows.len() > 0 {
        lemma_row_cells_in_grid(g, n, rows.drop_last());
        let prev = row_cells(g, n, rows.drop_last());
        let last = Seq::new(n as nat, |c: int| grid_cell(g, n, rows.last() as int, c));
        assert(row_cells(g, n, rows) == prev + last);
        assert forall|k: int| 0 <= k < (prev + last).len() implies g.contains(#[trigger] (prev + last)[k]) by {
            if k < prev.len() {
                assert((prev + last)[k] == prev[k]);
            } else {
                assert((prev + last)[k] == grid_cell(g, n, rows.last() as int, k - prev.len()));
                assert(rows[rows.len() - 1] < n);
                lemma_cell_in_grid(g, n, rows.last() as int, k - prev.len());
            }
        }
    }
}

proof fn lemma_column_outside_in_grid(g: Seq<Pid>, n: int, rows: Seq<usize>, c: int, k: int)
    requires
        n * n == g.len(),
        0 <= c < n,
        k <= n,
    ensures
        forall|w: int| 0 <= w < column_outside(g, n, rows, c, k).len()
            ==> g.contains(#[trigger] column_outside(g, n, rows, c, k)[w]),
    decreases k,
{
    if k > 0 {
        lemma_column_outside_in_grid(g, n, rows, c, k - 1);
        let prev = column_outside(g, n, rows, c, k - 1);
        if rows.contains((k - 1) as usize) {
            assert(column_outside(g, n, rows, c, k) == prev);
        } else {
            assert(column_outside(g, n, rows, c, k) == prev.push(grid_cell(g, n, k - 1, c)));
            lemma_cell_in_grid(g, n, k - 1, c);
            assert forall|w: int| 0 <= w < prev.push(grid_cell(g, n, k - 1, c)).len()
                implies g.contains(#[trigger] prev.push(grid_cell(g, n, k - 1, c))[w]) by {
                if w < prev.len() {
                    assert(prev.push(grid_cell(g, n, k - 1, c))[w] == prev[w]);
                }
            }
        }
    }
}

proof fn lemma_col_cells_in_grid(g: Seq<Pid>, n: int, rows: Seq<usize>, cols: Seq<usize>)
    requires
        n * n == g.len(),
        forall|i: int| 0 <= i < cols.len() ==> #[trigger] cols[i] < n,
    ensures
        forall|k: int| 0 <= k < col_cells(g, n, rows, cols).len() ==> g.contains(#[trigger] col_cells(g, n, rows, cols)[k]),
    decreases cols.len(),
{
    if cols.len() > 0 {
        lemma_col_cells_in_grid(g, n, rows, cols.drop_last());
        assert(cols[cols.len() - 1] < n);
        lemma_column_outside_in_grid(g, n, rows, cols.last() as int, n);
        let prev = col_cells(g, n, rows, cols.drop_last());
        let last = column_outside(g, n, rows, cols.last() as int, n);
        assert(col_cells(g, n, rows, cols) == prev + last);
        assert forall|k: int| 0 <= k < (prev + last).len() implies g.contains(#[trigger] (prev + last)[k]) by {
            if k < prev.len() {
                assert((prev + last)[k] == prev[k]);
            } else {
                assert((prev + last)[k] == last[k - prev.len()]);
            }
        }
    }
}

/// A grid quorum system: the processes are laid out in an `n x n` grid, and a set of
/// processes is a quorum when it holds `x` full rows and `x` full columns.
pub struct QuorumSystem {
    flatten_grid: Vec<Pid>,
    n: usize,
    x: usize,
    indices: Vec<usize>,
    consensus_committee_size: usize,
}

impl QuorumSystem {
    /// The grid, row after row.
    pub closed spec fn grid(&self) -> Seq<Pid> {
        self.flatten_grid@
    }

    /// Side of the grid.
    pub closed spec fn side(&self) -> int {
        self.n as int
    }

    /// Rows (and columns) that a quorum must hold in full.
    pub closed spec fn rows_per_quorum(&self) -> int {
        self.x as int
    }

    /// The committee size that the consensus step uses.
    pub closed spec fn committee_size(&self) -> int {
        self.consensus_committee_size as int
    }

    /// The process at row `r`, column `c`.
    pub open spec fn cell(&self, r: int, c: int) -> Pid {
        grid_cell(self.grid(), self.side(), r, c)
    }

    /// The grid is square, `x` is at most its side, and the shuffled row/column
    /// indices are a permutation of `0..n`.
    pub closed spec fn wf(&self) -> bool {
        &&& self.n * self.n == self.flatten_grid@.len()
        &&& self.x <= self.n
        &&& self.indices@.len() == self.n
        &&& self.indices@.no_duplicates()
        &&& forall|i: int| 0 <= i < self.indices@.len() ==> #[trigger] self.indices@[i] < self.n
    }

    /// Every process of row `r` is among `members`.
    pub open spec fn full_row(&self, members: Seq<Pid>, r: int) -> bool {
        forall|c: int| 0 <= c < self.side() ==> #[trigger] members.contains(self.cell(r, c))
    }

    /// Every process of column `c` is among `members`.
    pub open spec fn full_col(&self, members: Seq<Pid>, c: int) -> bool {
        forall|r: int| 0 <= r < self.side() ==> #[trigger] members.contains(self.cell(r, c))
    }

    /// The rows below `k` that `members` holds in full.
    pub open spec fn full_rows_below(&self, members: Seq<Pid>, k: int) -> Set<int> {
        lines_below(|r: int| self.full_row(members, r), k)
    }

    /// The columns below `k` that `members` holds in full.
    pub open spec fn full_cols_below(&self, members: Seq<Pid>, k: int) -> Set<int> {
        lines_below(|c: int| self.full_col(members, c), k)
    }

    /// `members` hold at least `x` full rows and at least `x` full columns.
    pub open spec fn spec_is_quorum(&self, members: Seq<Pid>) -> bool {
        &&& self.full_rows_below(members, self.side()).len() >= self.rows_per_quorum()
        &&& self.full_cols_below(members, self.side()).len() >= self.rows_per_quorum()
    }

    /// The quorum made of the rows `rows` and the columns `cols`: the rows in full, then
    /// the remaining processes of the columns.
    pub open spec fn grid_quorum(&self, rows: Seq<usize>, cols: Seq<usize>) -> Seq<Pid> {
        row_cells(self.grid(), self.side(), rows) + col_cells(self.grid(), self.side(), rows, cols)
    }

    /// `rows` are `x` distinct row indices of the grid.
    pub open spec fn valid_lines(&self, lines: Seq<usize>) -> bool {
        &&& lines.len() == self.rows_per_quorum()
        &&& lines.no_duplicates()
        &&& forall|i: int| 0 <= i < lines.len() ==> #[trigger] lines[i] < self.side()
    }

    /// The grid system over `pids` that tolerates `faults` faulty processes in consensus.
    /// `pids` must fill a square grid.
    pub fn with_faults(pids: Vec<Pid>, faults: usize) -> (qs: Self)
        requires
            fills_square(pids@.len() as int),
            3 * faults + 1 <= usize::MAX,
        ensures
            qs.wf(),
            qs.grid() == pids@,
            qs.side() * qs.side() == pids@.len(),
            is_rows_per_quorum(qs.side(), qs.rows_per_quorum()),
            qs.committee_size() == if 3 * faults + 1 < pids@.len() {
                3 * faults + 1
            } else {
                pids@.len() as int
            },
    {
        let size = pids.len();
        let n = isqrt(size);
        proof {
            let kk = choose|k: int| 0 <= k && #[trigger] square(k) == pids@.len();
            assert(kk * kk == size);
            if kk < n {
                assert(kk * kk < n * n) by (nonlinear_arith) requires 0 <= kk < n;
            }
            if kk > n {
                assert((n + 1) * (n + 1) <= kk * kk) by (nonlinear_arith) requires 0 <= n < kk;
            }
            assert(n * n == size);
        }
        let x = rows_per_quorum(n);
        let mut indices: Vec<usize> = Vec::new();
        let mut i: usize = 0;
        while i < n
            invariant
                i <= n,
                indices@.len() == i,
                forall|j: int| 0 <= j < i ==> #[trigger] indices@[j] == j,
            decreases n - i,
        {
            indices.push(i);
            i = i + 1;
        }
        let committee = if 3 * faults + 1 < size {
            3 * faults + 1
        } else {
            size
        };
        QuorumSystem { flatten_grid: pids, n, x, indices, consensus_committee_size: committee }
    }

    /// The grid system over `pids` tolerating `max(1, (n - 2) / 3)` faults, for a grid
    /// of side `n`.
    pub fn new(pids: Vec<Pid>) -> (qs: Self)
        requires
            fills_square(pids@.len() as int),
            pids@.len() >= 4,
        ensures
            qs.wf(),
            qs.grid() == pids@,
            qs.side() >= 2,
            qs.side() * qs.side() == pids@.len(),
            is_rows_per_quorum(qs.side(), qs.rows_per_quorum()),
            ({
                let faults = if (qs.side() - 2) / 3 > 1 { (qs.side() - 2) / 3 } else { 1 };
                qs.committee_size() == if 3 * faults + 1 < pids@.len() {
                    3 * faults + 1
                } else {
                    pids@.len() as int
                }
            }),
    {
        let n = isqrt(pids.len());
        if n < 2 {
            assert(n * n < 4) by (nonlinear_arith) requires n < 2;
            assert((n + 1) * (n + 1) <= 4) by (nonlinear_arith) requires n < 2;
        }
        let third: usize = (n - 2) / 3;
        let faults: usize = if third > 1 { third } else { 1 };
        let qs = Self::with_faults(pids, faults);
        assert(qs.side() == n) by {
            if qs.side() < n {
                assert(qs.side() * qs.side() < n * n) by (nonlinear_arith)
                    requires 0 <= qs.side() < n;
            }
            if qs.side() > n {
                assert((n + 1) * (n + 1) <= qs.side() * qs.side()) by (nonlinear_arith)
                    requires 0 <= n < qs.side();
            }
        }
        qs
    }

    /// Number of processes in a quorum: `x` rows of `n`.
    pub fn size(&self) -> (s: usize)
        requires
            self.wf(),
        ensures
            s == self.rows_per_quorum() * self.side(),
    {
        let n = isqrt(self.flatten_grid.len());
        assert(n == self.n) by {
            if n < self.n {
                assert(n * n < self.n * self.n) by (nonlinear_arith) requires 0 <= n < self.n;
                assert((n + 1) * (n + 1) <= self.n * self.n) by (nonlinear_arith)
                    requires 0 <= n < self.n;
            }
            if n > self.n {
                assert(self.n * self.n < n * n) by (nonlinear_arith) requires 0 <= self.n < n;
            }
        }
        assert(self.x * n <= n * n) by (nonlinear_arith) requires self.x <= n;
        self.x * n
    }

    /// The committee size that the consensus step of 3Jane uses.
    pub fn consensus_committee_size(&self) -> (s: usize)
        ensures
            s == self.committee_size(),
    {
        self.consensus_committee_size
    }

    fn idx(&self, row: usize, col: usize) -> (i: usize)
        requires
            self.wf(),
            row < self.side(),
            col < self.side(),
        ensures
            i == row * self.side() + col,
            i < self.grid().len(),
    {
        assert(self.flatten_grid@.len() == self.flatten_grid.len());
        assert(row * self.n + col < self.n * self.n) by (nonlinear_arith)
            requires row < self.n, col < self.n;
        row * self.n + col
    }

    fn row_is_full(&self, members: &[Pid], r: usize) -> (b: bool)
        requires
            self.wf(),
            r < self.side(),
        ensures
            b == self.full_row(members@, r as int),
    {
        let mut c: usize = 0;
        while c < self.n
            invariant
                self.wf(),
                r < self.side(),
                c <= self.side(),
                forall|k: int| 0 <= k < c ==> #[trigger] members@.contains(self.cell(r as int, k)),
            decreases self.n - c,
        {
            let i = self.idx(r, c);
            if !contains_pid(members, self.flatten_grid[i]) {
                assert(!members@.contains(self.cell(r as int, c as int)));
                return false;
            }
            c = c + 1;
        }
        true
    }

    fn col_is_full(&self, members: &[Pid], c: usize) -> (b: bool)
        requires
            self.wf(),
            c < self.side(),
        ensures
            b == self.full_col(members@, c as int),
    {
        let mut r: usize = 0;
        while r < self.n
            invariant
                self.wf(),
                c < self.side(),
                r <= self.side(),
                forall|k: int| 0 <= k < r ==> #[trigger] members@.contains(self.cell(k, c as int)),
            decreases self.n - r,
        {
            let i = self.idx(r, c);
            if !contains_pid(members, self.flatten_grid[i]) {
                assert(!members@.contains(self.cell(r as int, c as int)));
                return false;
            }
            r = r + 1;
        }
        true
    }

    /// `members` form a quorum when they hold at least `x` full rows and at least `x`
    /// full columns of the grid.
    pub fn is_quorum(&self, members: &[Pid]) -> (q: bool)
        requires
            self.wf(),
        ensures
            q == self.spec_is_quorum(members@),
    {
        let ghost rp = |r: int| self.full_row(members@, r);
        let ghost cp = |c: int| self.full_col(members@, c);
        let mut full_rows: usize = 0;
        let mut r: usize = 0;
        proof {
            assert(lines_below(rp, 0) =~= Set::empty());
        }
        while r < self.n
            invariant
                self.wf(),
                r <= self.side(),
                full_rows <= r,
                rp == (|k: int| self.full_row(members@, k)),
                full_rows == lines_below(rp, r as int).len(),
            decreases self.n - r,
        {
            proof {
                lemma_lines_below_step(rp, r as int);
            }
            let full = self.row_is_full(members, r);
            assert(full == rp(r as int));
            if full {
                full_rows = full_rows + 1;
            }
            r = r + 1;
        }
        let mut full_cols: usize = 0;
        let mut c: usize = 0;
        proof {
            assert(lines_below(cp, 0) =~= Set::empty());
        }
        while c < self.n
            invariant
                self.wf(),
                c <= self.side(),
                full_cols <= c,
                cp == (|k: int| self.full_col(members@, k)),
                full_cols == lines_below(cp, c as int).len(),
            decreases self.n - c,
        {
            proof {
                lemma_lines_below_step(cp, c as int);
            }
            let full = self.col_is_full(members, c);
            assert(full == cp(c as int));
            if full {
                full_cols = full_cols + 1;
            }
            c = c + 1;
        }
        full_rows >= self.x && full_cols >= self.x
    }

    fn first_lines(&self) -> (lines: Vec<usize>)
        requires
            self.wf(),
        ensures
            self.valid_lines(lines@),
            lines@ == self.indices@.take(self.rows_per_quorum()),
    {
        let mut lines: Vec<usize> = Vec::new();
        let mut i: usize = 0;
        while i < self.x
            invariant
                self.wf(),
                i <= self.x,
                lines@ == self.indices@.take(i as int),
            decreases self.x - i,
        {
            lines.push(self.indices[i]);
            i = i + 1;
            assert(lines@ =~= self.indices@.take(i as int));
        }
        proof {
            let t = self.indices@.take(self.x as int);
            assert forall|a: int, b: int| 0 <= a < t.len() && 0 <= b < t.len() && a != b
                implies t[a] != t[b] by {
                assert(self.indices@[a] != self.indices@[b]);
            }
            assert forall|a: int| 0 <= a < t.len() implies #[trigger] t[a] < self.side() by {
                assert(self.indices@[a] < self.n);
            }
        }
        lines
    }

    /// Draws a quorum at random: `x` distinct rows in full, then the processes of `x`
    /// distinct columns that those rows do not already hold. The rows and columns are
    /// taken from two fresh shuffles of the row indices.
    pub fn choose_random_quorum(&mut self, rng: &mut SmallRng) -> (quorum: Vec<Pid>)
        requires
            old(self).wf(),
        ensures
            final(self).wf(),
            final(self).grid() == old(self).grid(),
            final(self).side() == old(self).side(),
            final(self).rows_per_quorum() == old(self).rows_per_quorum(),
            final(self).committee_size() == old(self).committee_size(),
            exists|rows: Seq<usize>, cols: Seq<usize>|
                #![trigger old(self).grid_quorum(rows, cols)]
                old(self).valid_lines(rows) && old(self).valid_lines(cols)
                    && quorum@ == old(self).grid_quorum(rows, cols),
    {
        self.shuffle_lines(rng);
        let rows = self.first_lines();
        self.shuffle_lines(rng);
        let cols = self.first_lines();
        let quorum = self.build_quorum(&rows, &cols);
        assert(quorum@ == old(self).grid_quorum(rows@, cols@));
        assert(old(self).valid_lines(rows@) && old(self).valid_lines(cols@));
        quorum
    }

    fn shuffle_lines(&mut self, rng: &mut SmallRng)
        requires
            old(self).wf(),
        ensures
            final(self).wf(),
            final(self).flatten_grid == old(self).flatten_grid,
            final(self).n == old(self).n,
            final(self).x == old(self).x,
            final(self).consensus_committee_size == old(self).consensus_committee_size,
            final(self).indices@.to_multiset() == old(self).indices@.to_multiset(),
    {
        let ghost before = self.indices@;
        shuffle_indices(&mut self.indices, rng);
        proof {
            let after = self.indices@;
            broadcast use vstd::seq_lib::to_multiset_contains;
            vstd::seq_lib::to_multiset_len(before);
            vstd::seq_lib::to_multiset_len(after);
            assert(after.len() == before.len());
            before.lemma_multiset_has_no_duplicates();
            after.lemma_multiset_has_no_duplicates_conv();
            assert forall|i: int| 0 <= i < after.len() implies #[trigger] after[i] < self.n by {
                assert(after.to_multiset().count(after[i]) > 0);
                assert(before.contains(after[i]));
            }
        }
    }

    fn build_quorum(&self, rows: &Vec<usize>, cols: &Vec<usize>) -> (quorum: Vec<Pid>)
        requires
            self.wf(),
            self.valid_lines(rows@),
            self.valid_lines(cols@),
        ensures
            quorum@ == self.grid_quorum(rows@, cols@),
    {
        let mut out: Vec<Pid> = Vec::new();
        let mut i: usize = 0;
        while i < rows.len()
            invariant
                self.wf(),
                self.valid_lines(rows@),
                i <= rows@.len(),
                out@ == row_cells(self.grid(), self.side(), rows@.take(i as int)),
            decreases rows@.len() - i,
        {
            let r = rows[i];
            let ghost start = out@;
            let mut c: usize = 0;
            while c < self.n
                invariant
                    self.wf(),
                    r < self.side(),
                    c <= self.side(),
                    out@ == start + Seq::new(c as nat, |k: int| self.cell(r as int, k)),
                decreases self.n - c,
            {
                let k = self.idx(r, c);
                out.push(self.flatten_grid[k]);
                c = c + 1;
                assert(out@ =~= start + Seq::new(c as nat, |k: int| self.cell(r as int, k)));
            }
            assert(rows@.take(i + 1).drop_last() =~= rows@.take(i as int));
            i = i + 1;
            assert(out@ =~= row_cells(self.grid(), self.side(), rows@.take(i as int)));
        }
        assert(rows@.take(rows@.len() as int) =~= rows@);
        let ghost row_part = out@;
        let mut j: usize = 0;
        assert(col_cells(self.grid(), self.side(), rows@, cols@.take(0)) =~= Seq::empty());
        while j < cols.len()
            invariant
                self.wf(),
                self.valid_lines(rows@),
                self.valid_lines(cols@),
                j <= cols@.len(),
                row_part == row_cells(self.grid(), self.side(), rows@),
                out@ == row_part + col_cells(self.grid(), self.side(), rows@, cols@.take(j as int)),
            decreases cols@.len() - j,
        {
            let c = cols[j];
            let ghost start = out@;
            let mut r: usize = 0;
            while r < self.n
                invariant
                    self.wf(),
                    c < self.side(),
                    r <= self.side(),
                    out@ == start + column_outside(self.grid(), self.side(), rows@, c as int, r as int),
                decreases self.n - r,
            {
                if !contains_index(rows.as_slice(), r) {
                    let k = self.idx(r, c);
                    out.push(self.flatten_grid[k]);
                }
                r = r + 1;
                assert(out@ =~= start + column_outside(self.grid(), self.side(), rows@, c as int, r as int));
            }
            assert(cols@.take(j + 1).drop_last() =~= cols@.take(j as int));
            j = j + 1;
            assert(out@ =~= row_part + col_cells(self.grid(), self.side(), rows@, cols@.take(j as int)));
        }
        assert(cols@.take(cols@.len() as int) =~= cols@);
        out
    }

    proof fn lemma_row_cells_contain(&self, rows: Seq<usize>, i: int, c: int)
        requires
            0 <= i < rows.len(),
            0 <= c < self.side(),
        ensures
            row_cells(self.grid(), self.side(), rows).contains(self.cell(rows[i] as int, c)),
        decreases rows.len(),
    {
        let g = self.grid();
        let n = self.side();
        let prev = row_cells(g, n, rows.drop_last());
        let last = Seq::new(n as nat, |k: int| grid_cell(g, n, rows.last() as int, k));
        assert(row_cells(g, n, rows) == prev + last);
        if i == rows.len() - 1 {
            assert(last[c] == self.cell(rows[i] as int, c));
            assert((prev + last)[prev.len() + c] == self.cell(rows[i] as int, c));
        } else {
            assert(rows.drop_last()[i] == rows[i]);
            self.lemma_row_cells_contain(rows.drop_last(), i, c);
            let k = choose|k: int| 0 <= k < prev.len() && prev[k] == self.cell(rows[i] as int, c);
            assert((prev + last)[k] == self.cell(rows[i] as int, c));
        }
    }

    proof fn lemma_column_outside_contains(&self, rows: Seq<usize>, c: int, k: int, r: int)
        requires
            0 <= r < k,
            !rows.contains(r as usize),
        ensures
            column_outside(self.grid(), self.side(), rows, c, k).contains(self.cell(r, c)),
        decreases k,
    {
        let prev = column_outside(self.grid(), self.side(), rows, c, k - 1);
        if r == k - 1 {
            assert(prev.push(self.cell(r, c))[prev.len() as int] == self.cell(r, c));
        } else {
            self.lemma_column_outside_contains(rows, c, k - 1, r);
            let w = choose|w: int| 0 <= w < prev.len() && prev[w] == self.cell(r, c);
            if rows.contains((k - 1) as usize) {
            } else {
                assert(prev.push(self.cell(k - 1, c))[w] == self.cell(r, c));
            }
        }
    }

    proof fn lemma_col_cells_contain(&self, rows: Seq<usize>, cols: Seq<usize>, j: int, r: int)
        requires
            0 <= j < cols.len(),
            0 <= r < self.side(),
            !rows.contains(r as usize),
        ensures
            col_cells(self.grid(), self.side(), rows, cols).contains(self.cell(r, cols[j] as int)),
        decreases cols.len(),
    {
        let prev = col_cells(self.grid(), self.side(), rows, cols.drop_last());
        let last = column_outside(self.grid(), self.side(), rows, cols.last() as int, self.side());
        if j == cols.len() - 1 {
            self.lemma_column_outside_contains(rows, cols.last() as int, self.side(), r);
            let w = choose|w: int| 0 <= w < last.len() && last[w] == self.cell(r, cols[j] as int);
            assert((prev + last)[prev.len() + w] == self.cell(r, cols[j] as int));
        } else {
            self.lemma_col_cells_contain(rows, cols.drop_last(), j, r);
            let w = choose|w: int| 0 <= w < prev.len() && prev[w] == self.cell(r, cols[j] as int);
            assert((prev + last)[w] == self.cell(r, cols[j] as int));
        }
    }

    /// Every quorum that `choose_random_quorum` can build (any `x` distinct rows in
    /// full, plus the rest of any `x` distinct columns) is a quorum for `is_quorum`.
    pub proof fn lemma_chosen_quorum_is_quorum(&self, rows: Seq<usize>, cols: Seq<usize>)
        requires
            self.wf(),
            self.valid_lines(rows),
            self.valid_lines(cols),
        ensures
            self.spec_is_quorum(self.grid_quorum(rows, cols)),
    {
        let q = self.grid_quorum(rows, cols);
        let rp = |r: int| self.full_row(q, r);
        let cp = |c: int| self.full_col(q, c);
        assert forall|i: int| 0 <= i < rows.len() implies #[trigger] rows[i] < self.side() && rp(rows[i] as int) by {
            assert forall|c: int| 0 <= c < self.side() implies #[trigger] q.contains(self.cell(rows[i] as int, c)) by {
                self.lemma_row_cells_contain(rows, i, c);
                let w = choose|w: int| 0 <= w < row_cells(self.grid(), self.side(), rows).len()
                    && row_cells(self.grid(), self.side(), rows)[w] == self.cell(rows[i] as int, c);
                assert(q[w] == self.cell(rows[i] as int, c));
            }
        }
        assert forall|j: int| 0 <= j < cols.len() implies #[trigger] cols[j] < self.side() && cp(cols[j] as int) by {
            assert forall|r: int| 0 <= r < self.side() implies #[trigger] q.contains(self.cell(r, cols[j] as int)) by {
                if rows.contains(r as usize) {
                    let i = choose|i: int| 0 <= i < rows.len() && rows[i] == r as usize;
                    self.lemma_row_cells_contain(rows, i, cols[j] as int);
                    let w = choose|w: int| 0 <= w < row_cells(self.grid(), self.side(), rows).len()
                        && row_cells(self.grid(), self.side(), rows)[w] == self.cell(r, cols[j] as int);
                    assert(q[w] == self.cell(r, cols[j] as int));
                } else {
                    self.lemma_col_cells_contain(rows, cols, j, r);
                    let cc = col_cells(self.grid(), self.side(), rows, cols);
                    let w = choose|w: int| 0 <= w < cc.len() && cc[w] == self.cell(r, cols[j] as int);
                    assert(q[row_cells(self.grid(), self.side(), rows).len() + w] == self.cell(r, cols[j] as int));
                }
            }
        }
        lemma_distinct_lines_counted(rp, rows, self.side());
        lemma_distinct_lines_counted(cp, cols, self.side());
    }

    /// Any two quorums of a grid that needs at least one full row and column share a
    /// process: a full row of one crosses a full column of the other.
    pub proof fn lemma_quorums_intersect(&self, a: Seq<Pid>, b: Seq<Pid>)
        requires
            self.wf(),
            self.rows_per_quorum() >= 1,
            self.spec_is_quorum(a),
            self.spec_is_quorum(b),
        ensures
            exists|pid: Pid| a.contains(pid) && b.contains(pid),
    {
        let rp = |r: int| self.full_row(a, r);
        let cp = |c: int| self.full_col(b, c);
        lemma_int_range(0, self.side());
        lemma_len_subset(lines_below(rp, self.side()), set_int_range(0, self.side()));
        lemma_len_subset(lines_below(cp, self.side()), set_int_range(0, self.side()));
        lemma_set_empty_equivalency_len(lines_below(rp, self.side()));
        lemma_set_empty_equivalency_len(lines_below(cp, self.side()));
        let r = choose|r: int| lines_below(rp, self.side()).contains(r);
        let c = choose|c: int| lines_below(cp, self.side()).contains(c);
        assert(a.contains(self.cell(r, c)));
        assert(b.contains(self.cell(r, c)));
    }

    /// Every process of a grid quorum is a process of the grid.
    pub proof fn lemma_grid_quorum_in_grid(&self, rows: Seq<usize>, cols: Seq<usize>, i: int)
        requires
            self.wf(),
            self.valid_lines(rows),
            self.valid_lines(cols),
            0 <= i < self.grid_quorum(rows, cols).len(),
        ensures
            self.grid().contains(self.grid_quorum(rows, cols)[i]),
    {
        let g = self.grid();
        let n = self.side();
        lemma_row_cells_in_grid(g, n, rows);
        lemma_col_cells_in_grid(g, n, rows, cols);
        let rc = row_cells(g, n, rows);
        if i >= rc.len() {
            assert(self.grid_quorum(rows, cols)[i] == col_cells(g, n, rows, cols)[i - rc.len()]);
        }
    }

    /// Two systems over the same grid with the same quorum width have the same quorums.
    pub proof fn lemma_same_layout(&self, other: &QuorumSystem)
        requires
            self.grid() == other.grid(),
            self.side() == other.side(),
            self.rows_per_quorum() == other.rows_per_quorum(),
        ensures
            forall|m: Seq<Pid>| self.spec_is_quorum(m) == other.spec_is_quorum(m),
    {
        assert forall|m: Seq<Pid>| self.spec_is_quorum(m) == other.spec_is_quorum(m) by {
            assert forall|r: int| self.full_row(m, r) == other.full_row(m, r) by {
                assert forall|c: int| self.cell(r, c) == other.cell(r, c) by {}
            }
            assert forall|c: int| self.full_col(m, c) == other.full_col(m, c) by {
                assert forall|r: int| self.cell(r, c) == other.cell(r, c) by {}
            }
            assert(self.full_rows_below(m, self.side()) =~= other.full_rows_below(m, other.side()));
            assert(self.full_cols_below(m, self.side()) =~= other.full_cols_below(m, other.side()));
        }
    }
}

} // verus!

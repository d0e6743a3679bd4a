use vstd::prelude::*;
use crate::error_correction::CorrectionLevels;
use crate::galois::{number, power};
use crate::int_mod::{invertible, is_inverse, IntMod};
use crate::polynomial::{coeff, poly_divide, poly_wf, trim, Polynomial};
use crate::qr_types::{micro_mask_spec, standard_mask_spec, MicroQRCode, QRCode, QRSymbolTypes};

verus! {

/// A module not written yet.
pub const UNSET: u8 = 128;

/// Data modules.
pub const LIGHT: u8 = 255;

pub const DARK: u8 = 0;

/// Function modules (patterns, reserved areas), recoloured at the end.
pub const FN_LIGHT: u8 = 200;

pub const FN_DARK: u8 = 50;

/// The largest symbol side.
pub const MAX_SIDE: usize = 177;

/// A square grid of modules, row by row.
#[derive(Debug)]
pub struct ModuleGrid {
    pub size: usize,
    pub cells: Vec<u8>,
}

/// What a rectangle is painted with.
#[derive(Clone, Copy, Debug, PartialEq, Eq, Structural)]
pub enum Pattern {
    /// One colour throughout.
    Solid(u8),
    /// A 7x7 finder pattern inside a one-module light separator (9x9).
    Finder,
    /// A 5x5 alignment pattern.
    Alignment,
    /// A timing track along a row: dark at even columns.
    TimingRow,
    /// A timing track along a column: dark at even rows.
    TimingColumn,
    /// The 3-wide, 6-tall version block beside the top-right finder; bit
    /// `x + 3y` of the 18-bit version word.
    VersionRight(u32),
    /// Its transpose beside the bottom-left finder: bit `3x + y`.
    VersionBottom(u32),
}

/// Bit `i` of `word`.
pub open spec fn bit(word: u32, i: int) -> bool {
    (word as int / vstd::arithmetic::power2::pow2(i as nat) as int) % 2 == 1
}

/// The colour of a pattern at offset (dx, dy) from its top-left corner.
pub open spec fn pattern_colour(p: Pattern, dx: int, dy: int) -> u8 {
    match p {
        Pattern::Solid(c) => c,
        Pattern::Finder => {
            let ring = if dx == 0 || dy == 0 || dx == 8 || dy == 8 {
                0int
            } else if dx == 1 || dy == 1 || dx == 7 || dy == 7 {
                1int
            } else if dx == 2 || dy == 2 || dx == 6 || dy == 6 {
                2int
            } else {
                3int
            };
            if ring % 2 == 0 { FN_LIGHT } else { FN_DARK }
        },
        Pattern::Alignment => if (dx == 1 || dx == 3) && 1 <= dy <= 3 || (dy == 1 || dy == 3) && 1 <= dx <= 3 {
            FN_LIGHT
        } else {
            FN_DARK
        },
        Pattern::TimingRow => if dx % 2 == 0 { FN_DARK } else { FN_LIGHT },
        Pattern::TimingColumn => if dy % 2 == 0 { FN_DARK } else { FN_LIGHT },
        Pattern::VersionRight(w) => if bit(w, dx + 3 * dy) { DARK } else { LIGHT },
        Pattern::VersionBottom(w) => if bit(w, 3 * dx + dy) { DARK } else { LIGHT },
    }
}

fn pattern_colour_exec(p: Pattern, dx: u32, dy: u32) -> (r: u8)
    requires
        dx < 16,
        dy < 16,
    ensures
        r == pattern_colour(p, dx as int, dy as int),
{
    match p {
        Pattern::Solid(c) => c,
        Pattern::Finder => {
            let ring: u32 = if dx == 0 || dy == 0 || dx == 8 || dy == 8 {
                0
            } else if dx == 1 || dy == 1 || dx == 7 || dy == 7 {
                1
            } else if dx == 2 || dy == 2 || dx == 6 || dy == 6 {
                2
            } else {
                3
            };
            if ring % 2 == 0 { FN_LIGHT } else { FN_DARK }
        },
        Pattern::Alignment => if (dx == 1 || dx == 3) && 1 <= dy && dy <= 3 || (dy == 1 || dy == 3) && 1 <= dx && dx <= 3 {
            FN_LIGHT
        } else {
            FN_DARK
        },
        Pattern::TimingRow => if dx % 2 == 0 { FN_DARK } else { FN_LIGHT },
        Pattern::TimingColumn => if dy % 2 == 0 { FN_DARK } else { FN_LIGHT },
        Pattern::VersionRight(w) => if bit_exec(w, dx + 3 * dy) { DARK } else { LIGHT },
        Pattern::VersionBottom(w) => if bit_exec(w, 3 * dx + dy) { DARK } else { LIGHT },
    }
}

fn bit_exec(word: u32, i: u32) -> (r: bool)
    requires
        i < 64,
    ensures
        r == bit(word, i as int),
{
    if i >= 32 {
        proof {
            if i > 32 {
                vstd::arithmetic::power2::lemma_pow2_strictly_increases(32, i as nat);
            }
            vstd::arithmetic::power2::lemma2_to64();
            vstd::arithmetic::div_mod::lemma_basic_div(word as int, vstd::arithmetic::power2::pow2(i as nat) as int);
        }
        false
    } else {
        proof {
            vstd::bits::lemma_u32_shr_is_div(word, i);
        }
        (word >> i) % 2 == 1
    }
}

impl ModuleGrid {
    pub open spec fn wf(&self) -> bool {
        self.size <= MAX_SIDE && self.cells@.len() == self.size * self.size
    }

    /// The module in column `x`, row `y`.
    pub open spec fn at(&self, x: int, y: int) -> u8 {
        self.cells@[y * self.size + x]
    }

    /// A grid of unset modules.
    pub fn new(size: usize) -> (r: Self)
        requires
            size <= MAX_SIDE,
        ensures
            r.wf(),
            r.size == size,
            forall|i: int| 0 <= i < r.cells@.len() ==> r.cells@[i] == UNSET,
    {
        let mut cells: Vec<u8> = Vec::new();
        proof {
            assert(size * size <= 31329) by (nonlinear_arith)
                requires size <= 177;
        }
        let n = size * size;
        let mut i: usize = 0;
        while i < n
            invariant
                i <= n,
                cells@.len() == i,
                forall|k: int| 0 <= k < i ==> cells@[k] == UNSET,
            decreases n - i,
        {
            cells.push(UNSET);
            i += 1;
        }
        ModuleGrid { size, cells }
    }

    /// The module in column `x`, row `y`.
    pub fn get(&self, x: usize, y: usize) -> (r: u8)
        requires
            self.wf(),
            x < self.size,
            y < self.size,
        ensures
            r == self.at(x as int, y as int),
    {
        proof {
            lemma_index(x as int, y as int, self.size as int);
        }
        self.cells[y * self.size + x]
    }

    /// Sets the module in column `x`, row `y`.
    pub fn put(&mut self, x: usize, y: usize, v: u8)
        requires
            old(self).wf(),
            x < old(self).size,
            y < old(self).size,
        ensures
            final(self).wf(),
            final(self).size == old(self).size,
            final(self).cells@ == old(self).cells@.update(y * old(self).size + x, v),
    {
        proof {
            lemma_index(x as int, y as int, self.size as int);
        }
        let i = y * self.size + x;
        self.cells.set(i, v);
    }

    /// Paints the `w` x `h` rectangle whose top-left corner is at
    /// (`left`, `top`) with `p`, clipped to the grid.
    pub fn paint(&mut self, left: i64, top: i64, w: u32, h: u32, p: Pattern)
        requires
            old(self).wf(),
            w < 16,
            h < 16,
            -16 <= left <= 200,
            -16 <= top <= 200,
        ensures
            final(self).wf(),
            final(self).size == old(self).size,
            forall|x: int, y: int|
                0 <= x < final(self).size && 0 <= y < final(self).size ==> #[trigger] final(self).at(x, y) == (if left <= x
                    < left + w && top <= y < top + h {
                    pattern_colour(p, x - left, y - top)
                } else {
                    old(self).at(x, y)
                }),
    {
        let ghost before = *self;
        let size = self.size;
        let mut dy: u32 = 0;
        while dy < h
            invariant
                self.wf(),
                self.size == size,
                before.wf(),
                before.size == size,
                dy <= h,
                h < 16,
                w < 16,
                -16 <= left <= 200,
                -16 <= top <= 200,
                forall|x: int, y: int|
                    0 <= x < size && 0 <= y < size ==> #[trigger] self.at(x, y) == (if left <= x < left + w && top <= y
                        < top + dy {
                        pattern_colour(p, x - left, y - top)
                    } else {
                        before.at(x, y)
                    }),
            decreases h - dy,
        {
            let mut dx: u32 = 0;
            while dx < w
                invariant
                    self.wf(),
                    self.size == size,
                    before.wf(),
                    before.size == size,
                    dy < h,
                    dx <= w,
                    h < 16,
                    w < 16,
                    -16 <= left <= 200,
                    -16 <= top <= 200,
                    forall|x: int, y: int|
                        0 <= x < size && 0 <= y < size ==> #[trigger] self.at(x, y) == (if left <= x < left + w && top
                            <= y < top + dy || left <= x < left + dx && y == top + dy {
                            pattern_colour(p, x - left, y - top)
                        } else {
                            before.at(x, y)
                        }),
                decreases w - dx,
            {
                let gx = left + dx as i64;
                let gy = top + dy as i64;
                if 0 <= gx && gx < size as i64 && 0 <= gy && gy < size as i64 {
                    let c = pattern_colour_exec(p, dx, dy);
                    let ghost mid = *self;
                    let ux = gx as usize;
                    let uy = gy as usize;
                    self.put(ux, uy, c);
                    proof {
                        assert forall|x: int, y: int| 0 <= x < size && 0 <= y < size implies #[trigger] self.at(x, y)
                            == (if x == ux && y == uy { c } else { mid.at(x, y) }) by {
                            lemma_index(x, y, size as int);
                            lemma_index(ux as int, uy as int, size as int);
                            lemma_index_distinct(x, y, ux as int, uy as int, size as int);
                            assert(self.cells@ == mid.cells@.update(uy * size + ux, c));
                        }
                    }
                }
                dx += 1;
            }
            dy += 1;
        }
    }
}

proof fn lemma_index(x: int, y: int, size: int)
    requires
        0 <= x < size,
        0 <= y < size,
    ensures
        0 <= y * size + x < size * size,
        size <= 177 ==> size * size <= 31329,
{
    if size <= 177 {
        assert(size * size <= 31329) by (nonlinear_arith)
            requires 0 <= size <= 177;
    }
    assert(y * size + x < size * size) by (nonlinear_arith)
        requires 0 <= x < size, 0 <= y < size;
    assert(0 <= y * size) by (nonlinear_arith)
        requires 0 <= y, 0 <= size;
}

proof fn lemma_index_distinct(x: int, y: int, a: int, b: int, size: int)
    requires
        0 <= x < size,
        0 <= y < size,
        0 <= a < size,
        0 <= b < size,
    ensures
        (y * size + x == b * size + a) <==> (x == a && y == b),
{
    if y * size + x == b * size + a && !(x == a && y == b) {
        if y == b {
        } else if y < b {
            assert(y * size + x < b * size + a) by (nonlinear_arith)
                requires 0 <= x < size, 0 <= a, y < b;
        } else {
            assert(y * size + x > b * size + a) by (nonlinear_arith)
                requires 0 <= a < size, 0 <= x, y > b;
        }
    }
}

/// A module reads as dark.
pub open spec fn is_dark(v: u8) -> bool {
    v < 128
}

/// Row `k` (or column `k`) of a grid, as dark flags.
pub open spec fn line(g: Seq<u8>, n: int, k: int, horizontal: bool) -> Seq<bool> {
    Seq::new(n as nat, |i: int| if horizontal { is_dark(g[k * n + i]) } else { is_dark(g[i * n + k]) })
}

/// The penalty of a run of `run` modules of one colour.
pub open spec fn run_cost(run: int) -> int {
    if run >= 5 {
        3 + run - 5
    } else {
        0
    }
}

/// The run penalties of `l` from position `i`, the current run being `run`
/// long, with `acc` counted so far.
pub open spec fn run_scan(l: Seq<bool>, i: int, run: int, acc: int) -> int
    decreases l.len() - i,
{
    if i >= l.len() || i < 1 {
        acc + run_cost(run)
    } else if l[i] == l[i - 1] {
        run_scan(l, i + 1, run + 1, acc)
    } else {
        run_scan(l, i + 1, 1, acc + run_cost(run))
    }
}

pub open spec fn run_penalty(l: Seq<bool>) -> int {
    if l.len() == 0 {
        0
    } else {
        run_scan(l, 1, 1, 0)
    }
}

/// The finder-like pattern 1011101 with four light modules before it...
pub const FINDER_AFTER_LIGHT: [bool; 11] = [false, false, false, false, true, false, true, true, true, false, true];

/// ...or after it.
pub const FINDER_BEFORE_LIGHT: [bool; 11] = [true, false, true, true, true, false, true, false, false, false, false];

/// The eleven modules of `l` from `i` show a finder-like pattern.
pub open spec fn finder_like_at(l: Seq<bool>, i: int) -> bool {
    (forall|s: int| 0 <= s < 11 ==> l[i + s] == #[trigger] FINDER_AFTER_LIGHT@[s]) || (forall|s: int|
        0 <= s < 11 ==> l[i + s] == #[trigger] FINDER_BEFORE_LIGHT@[s])
}

/// The finder-like windows of `l` that start before `i`.
pub open spec fn finder_count(l: Seq<bool>, i: int) -> int
    decreases i,
{
    if i <= 0 {
        0
    } else {
        finder_count(l, i - 1) + (if i - 1 + 11 <= l.len() && finder_like_at(l, i - 1) { 1int } else { 0int })
    }
}

/// Per-line penalties (runs, and finder-like windows times 40) over the
/// first `k` lines in one direction.
pub open spec fn lines_penalty(g: Seq<u8>, n: int, k: int, horizontal: bool) -> int
    decreases k,
{
    if k <= 0 {
        0
    } else {
        let l = line(g, n, k - 1, horizontal);
        lines_penalty(g, n, k - 1, horizontal) + run_penalty(l) + 40 * finder_count(l, n)
    }
}

/// The 2x2 blocks of one colour whose top-left module comes before
/// position `p` (row by row).
pub open spec fn block_count(g: Seq<u8>, n: int, p: int) -> int
    decreases p,
{
    if p <= 0 {
        0
    } else {
        let q = p - 1;
        let x = q % n;
        let y = q / n;
        let same = x < n - 1 && y < n - 1 && is_dark(g[q]) == is_dark(g[q + 1]) && is_dark(g[q]) == is_dark(
            g[q + n],
        ) && is_dark(g[q]) == is_dark(g[q + n + 1]);
        block_count(g, n, q) + (if same { 1int } else { 0int })
    }
}

/// Dark modules among the first `p`.
pub open spec fn dark_count(g: Seq<u8>, p: int) -> int
    decreases p,
{
    if p <= 0 {
        0
    } else {
        dark_count(g, p - 1) + (if is_dark(g[p - 1]) { 1int } else { 0int })
    }
}

/// The Standard penalty of a masked grid: runs, 2x2 blocks, finder-like
/// patterns, and the imbalance of dark modules.
pub open spec fn penalty(g: Seq<u8>, n: int) -> int {
    let total = n * n;
    let percent = dark_count(g, total) * 100 / total;
    let off = if percent >= 50 { percent - 50 } else { 50 - percent };
    lines_penalty(g, n, n, true) + lines_penalty(g, n, n, false) + 3 * block_count(g, n, total) + 10 * (off / 5)
}

fn run_penalty_exec(g: &Vec<u8>, n: usize, k: usize, horizontal: bool) -> (r: u64)
    requires
        n <= MAX_SIDE,
        k < n,
        g@.len() == n * n,
    ensures
        r == run_penalty(line(g@, n as int, k as int, horizontal)),
        r <= n,
{
    let ghost l = line(g@, n as int, k as int, horizontal);
    proof {
        lemma_line_index(n as int, k as int);
    }
    let mut run: u64 = 1;
    let mut acc: u64 = 0;
    let mut prev = dark_in_line(g, n, k, 0, horizontal);
    let mut i: usize = 1;
    while i < n
        invariant
            n <= MAX_SIDE,
            k < n,
            g@.len() == n * n,
            l == line(g@, n as int, k as int, horizontal),
            1 <= i <= n,
            prev == l[i - 1],
            run >= 1,
            acc + run <= i,
            run_scan(l, i as int, run as int, acc as int) == run_penalty(l),
        decreases n - i,
    {
        let cur = dark_in_line(g, n, k, i, horizontal);
        if cur == prev {
            run = run + 1;
        } else {
            if run >= 5 {
                acc = acc + 3 + run - 5;
            }
            run = 1;
        }
        prev = cur;
        i += 1;
    }
    if run >= 5 {
        acc = acc + 3 + run - 5;
    }
    acc
}

proof fn lemma_line_index(n: int, k: int)
    requires
        0 <= k < n,
    ensures
        forall|i: int| 0 <= i < n ==> 0 <= #[trigger] (k * n + i) < n * n && 0 <= i * n + k < n * n,
{
    assert forall|i: int| 0 <= i < n implies 0 <= #[trigger] (k * n + i) < n * n && 0 <= i * n + k < n * n by {
        lemma_index(i, k, n);
        lemma_index(k, i, n);
    }
}

fn dark_in_line(g: &Vec<u8>, n: usize, k: usize, i: usize, horizontal: bool) -> (r: bool)
    requires
        n <= MAX_SIDE,
        k < n,
        i < n,
        g@.len() == n * n,
    ensures
        r == line(g@, n as int, k as int, horizontal)[i as int],
{
    proof {
        lemma_index(i as int, k as int, n as int);
        lemma_index(k as int, i as int, n as int);
    }
    if horizontal {
        g[k * n + i] < 128
    } else {
        g[i * n + k] < 128
    }
}

fn finder_count_exec(g: &Vec<u8>, n: usize, k: usize, horizontal: bool) -> (r: u64)
    requires
        n <= MAX_SIDE,
        k < n,
        g@.len() == n * n,
    ensures
        r == finder_count(line(g@, n as int, k as int, horizontal), n as int),
        r <= n,
{
    let ghost l = line(g@, n as int, k as int, horizontal);
    let mut count: u64 = 0;
    let mut i: usize = 0;
    while i < n
        invariant
            n <= MAX_SIDE,
            k < n,
            g@.len() == n * n,
            l == line(g@, n as int, k as int, horizontal),
            i <= n,
            count <= i,
            count == finder_count(l, i as int),
        decreases n - i,
    {
        if i + 11 <= n {
            let mut after = true;
            let mut before = true;
            let mut t: usize = 0;
            while t < 11
                invariant
                    n <= MAX_SIDE,
                    k < n,
                    g@.len() == n * n,
                    l == line(g@, n as int, k as int, horizontal),
                    i + 11 <= n,
                    t <= 11,
                    after == (forall|s: int| 0 <= s < t ==> l[i + s] == #[trigger] FINDER_AFTER_LIGHT@[s]),
                    before == (forall|s: int| 0 <= s < t ==> l[i + s] == #[trigger] FINDER_BEFORE_LIGHT@[s]),
                decreases 11 - t,
            {
                let b = dark_in_line(g, n, k, i + t, horizontal);
                if b != FINDER_AFTER_LIGHT[t] {
                    after = false;
                }
                if b != FINDER_BEFORE_LIGHT[t] {
                    before = false;
                }
                t += 1;
            }
            if after || before {
                count = count + 1;
            }
        }
        i += 1;
    }
    count
}

fn lines_penalty_exec(g: &Vec<u8>, n: usize, horizontal: bool) -> (r: u64)
    requires
        n <= MAX_SIDE,
        g@.len() == n * n,
    ensures
        r == lines_penalty(g@, n as int, n as int, horizontal),
        r <= 41 * n * n,
{
    let mut acc: u64 = 0;
    let mut k: usize = 0;
    while k < n
        invariant
            n <= MAX_SIDE,
            g@.len() == n * n,
            k <= n,
            acc == lines_penalty(g@, n as int, k as int, horizontal),
            acc <= 41 * k * n,
        decreases n - k,
    {
        let runs = run_penalty_exec(g, n, k, horizontal);
        let finders = finder_count_exec(g, n, k, horizontal);
        proof {
            assert(41 * k * n + n + 40 * n == 41 * (k + 1) * n) by (nonlinear_arith);
            assert(41 * (k + 1) * n <= 41 * 177 * 177) by (nonlinear_arith)
                requires k + 1 <= n, n <= 177;
        }
        acc = acc + runs + 40 * finders;
        k += 1;
    }
    proof {
        assert(41 * k * n == 41 * n * n);
    }
    acc
}

fn block_count_exec(g: &Vec<u8>, n: usize) -> (r: u64)
    requires
        n <= MAX_SIDE,
        g@.len() == n * n,
    ensures
        r == block_count(g@, n as int, (n * n) as int),
        r <= n * n,
{
    proof {
        assert(n * n <= 31329) by (nonlinear_arith)
            requires n <= 177;
    }
    let total = n * n;
    let mut count: u64 = 0;
    let mut p: usize = 0;
    while p < total
        invariant
            n <= MAX_SIDE,
            total == n * n,
            g@.len() == total,
            p <= total,
            count <= p,
            count == block_count(g@, n as int, p as int),
        decreases total - p,
    {
        let x = p % n;
        let y = p / n;
        proof {
            vstd::arithmetic::div_mod::lemma_fundamental_div_mod(p as int, n as int);
            if x < n - 1 && y < n - 1 {
                lemma_index(x + 1, y + 1, n as int);
                assert(p + n + 1 == (y + 1) * n + (x + 1)) by (nonlinear_arith)
                    requires p == n * y + x;
            }
        }
        if x + 1 < n && y + 1 < n {
            let d = g[p] < 128;
            if d == (g[p + 1] < 128) && d == (g[p + n] < 128) && d == (g[p + n + 1] < 128) {
                count = count + 1;
            }
        }
        p += 1;
    }
    count
}

fn dark_count_exec(g: &Vec<u8>) -> (r: u64)
    requires
        g@.len() <= MAX_SIDE * MAX_SIDE,
    ensures
        r == dark_count(g@, g@.len() as int),
        r <= g@.len(),
{
    let mut count: u64 = 0;
    let mut p: usize = 0;
    while p < g.len()
        invariant
            p <= g@.len(),
            count <= p,
            count == dark_count(g@, p as int),
        decreases g@.len() - p,
    {
        if g[p] < 128 {
            count = count + 1;
        }
        p += 1;
    }
    count
}

/// The Standard penalty of a masked grid.
pub fn penalty_score(grid: &ModuleGrid) -> (r: u64)
    requires
        grid.wf(),
        grid.size > 0,
    ensures
        r == penalty(grid.cells@, grid.size as int),
{
    let n = grid.size;
    let g = &grid.cells;
    proof {
        assert(n * n <= 31329) by (nonlinear_arith)
            requires n <= 177;
    }
    let rows = lines_penalty_exec(g, n, true);
    let cols = lines_penalty_exec(g, n, false);
    let blocks = block_count_exec(g, n);
    let dark = dark_count_exec(g);
    let total = (n * n) as u64;
    proof {
        assert(41 * n * n <= 41 * 177 * 177) by (nonlinear_arith)
            requires n <= 177;
        assert(total > 0) by (nonlinear_arith)
            requires n > 0, total == n * n;
    }
    let percent = dark * 100 / total;
    let off = if percent >= 50 { percent - 50 } else { 50 - percent };
    rows + cols + 3 * blocks + 10 * (off / 5)
}

/// The Micro evaluation of a masked grid: sixteen times the smaller, plus
/// the larger, of the dark counts in the right column and bottom row
/// (higher is better).
pub open spec fn micro_score(g: Seq<u8>, n: int) -> int {
    let right = dark_count(line_values(g, n, n - 1, false), n);
    let bottom = dark_count(line_values(g, n, n - 1, true), n);
    if right <= bottom {
        16 * right + bottom
    } else {
        16 * bottom + right
    }
}

/// Row (or column) `k` of a grid.
pub open spec fn line_values(g: Seq<u8>, n: int, k: int, horizontal: bool) -> Seq<u8> {
    Seq::new(n as nat, |i: int| if horizontal { g[k * n + i] } else { g[i * n + k] })
}

fn line_dark_count(g: &Vec<u8>, n: usize, k: usize, horizontal: bool) -> (r: u64)
    requires
        n <= MAX_SIDE,
        k < n,
        g@.len() == n * n,
    ensures
        r == dark_count(line_values(g@, n as int, k as int, horizontal), n as int),
        r <= n,
{
    let ghost l = line_values(g@, n as int, k as int, horizontal);
    let mut count: u64 = 0;
    let mut i: usize = 0;
    while i < n
        invariant
            n <= MAX_SIDE,
            k < n,
            g@.len() == n * n,
            l == line_values(g@, n as int, k as int, horizontal),
            i <= n,
            count <= i,
            count == dark_count(l, i as int),
        decreases n - i,
    {
        proof {
            lemma_index(i as int, k as int, n as int);
            lemma_index(k as int, i as int, n as int);
        }
        let v = if horizontal { g[k * n + i] } else { g[i * n + k] };
        if v < 128 {
            count = count + 1;
        }
        i += 1;
    }
    count
}

/// The Micro evaluation of a masked grid.
pub fn micro_evaluation(grid: &ModuleGrid) -> (r: u64)
    requires
        grid.wf(),
        grid.size > 0,
    ensures
        r == micro_score(grid.cells@, grid.size as int),
{
    let n = grid.size;
    let right = line_dark_count(&grid.cells, n, n - 1, false);
    let bottom = line_dark_count(&grid.cells, n, n - 1, true);
    if right <= bottom {
        16 * right + bottom
    } else {
        16 * bottom + right
    }
}

/// The generator of the format code's BCH(15,5) parity:
/// x^10 + x^8 + x^5 + x^4 + x^2 + x + 1, lowest power first.
pub open spec fn format_generator() -> Seq<IntMod<2>> {
    seq![1u32, 1, 1, 0, 1, 1, 0, 0, 1, 0, 1].map_values(|b: u32| IntMod::<2> { value: b })
}

/// The generator of the version code's BCH(18,6) parity:
/// x^12 + x^11 + x^10 + x^9 + x^8 + x^5 + x^2 + 1, lowest power first.
pub open spec fn version_generator() -> Seq<IntMod<2>> {
    seq![1u32, 0, 1, 0, 0, 1, 0, 0, 1, 1, 1, 1, 1].map_values(|b: u32| IntMod::<2> { value: b })
}

/// The data bits (most significant first) times x^parity, as a polynomial.
pub open spec fn shifted_data(data: Seq<u8>, parity: nat) -> Seq<IntMod<2>> {
    Seq::new(data.len() + parity, |i: int| if i >= parity { IntMod::<2> { value: data[data.len() + parity - 1 - i] as u32 } } else { IntMod::<2> { value: 0 } })
}

/// The BCH parity bits of `data`, most significant first.
pub open spec fn parity_bits(data: Seq<u8>, parity: nat, generator: Seq<IntMod<2>>) -> Seq<u8> {
    let r = poly_divide(trim(shifted_data(data, parity)), generator).1;
    Seq::new(parity, |i: int| coeff(r, parity - 1 - i).value as u8)
}

/// The 15 format bits: level and mask bits, their parity, XORed with the
/// format mask.
pub open spec fn format_bits_spec(data: Seq<u8>, mask: Seq<u8>) -> Seq<u8> {
    let word = data + parity_bits(data, 10, format_generator());
    Seq::new(15, |i: int| if word[i] == mask[i] { 0u8 } else { 1u8 })
}

/// The value of the first `k` bits, most significant first.
pub open spec fn bits_value(p: Seq<u8>, k: int) -> int
    decreases k,
{
    if k <= 0 {
        0
    } else {
        2 * bits_value(p, k - 1) + p[k - 1]
    }
}

/// The six bits of a version, most significant first.
pub open spec fn version_data(v: u32) -> Seq<u8> {
    Seq::new(6, |i: int| ((v as int / vstd::arithmetic::power2::pow2((5 - i) as nat) as int) % 2) as u8)
}

/// The 18-bit version word: the version, then its twelve BCH parity bits.
pub open spec fn version_word_spec(v: u32) -> int {
    v * 4096 + bits_value(parity_bits(version_data(v), 12, version_generator()), 12)
}

/// Polynomial remainder parity of data bits, as bits, most significant
/// first.
fn bch_parity(data: &Vec<u8>, parity: usize, generator: &Polynomial<IntMod<2>>) -> (r: Vec<u8>)
    requires
        forall|i: int| 0 <= i < data@.len() ==> data@[i] <= 1,
        poly_wf(generator@),
        generator@.len() == parity + 1,
        generator@.last().value == 1,
        data@.len() + parity <= 32,
    ensures
        r@ == parity_bits(data@, parity as nat, generator@),
        forall|i: int| 0 <= i < r@.len() ==> r@[i] <= 1,
{
    let n = data.len();
    let mut coefficients: Vec<IntMod<2>> = Vec::new();
    let mut i: usize = 0;
    while i < n + parity
        invariant
            n == data@.len(),
            n + parity <= 32,
            forall|k: int| 0 <= k < data@.len() ==> data@[k] <= 1,
            i <= n + parity,
            coefficients@.len() == i,
            forall|k: int| 0 <= k < i ==> #[trigger] coefficients@[k] == shifted_data(data@, parity as nat)[k],
            forall|k: int| 0 <= k < i ==> (#[trigger] coefficients@[k]).wf(),
        decreases n + parity - i,
    {
        if i >= parity {
            coefficients.push(IntMod::<2> { value: data[n + parity - 1 - i] as u32 });
        } else {
            coefficients.push(IntMod::<2> { value: 0 });
        }
        i += 1;
    }
    let mut poly = Polynomial::from(coefficients);
    proof {
        assert(poly@ =~= shifted_data(data@, parity as nat));
    }
    poly.reduce();
    proof {
        assert(generator@[generator@.len() - 1] == generator@.last());
        assert(is_inverse(1, 1, 2));
        assert(invertible(generator@.last().value as nat, 2));
    }
    let (_q, rem) = poly.full_divide(generator);
    let mut out: Vec<u8> = Vec::new();
    let mut k: usize = 0;
    while k < parity
        invariant
            k <= parity,
            poly_wf(rem@),
            out@.len() == k,
            forall|t: int| 0 <= t < k ==> #[trigger] out@[t] == coeff(rem@, parity - 1 - t).value as u8,
            forall|t: int| 0 <= t < k ==> out@[t] <= 1,
        decreases parity - k,
    {
        let c = rem.coefficient(parity - 1 - k);
        proof {
            if parity - 1 - k < rem@.len() {
                assert(rem@[parity - 1 - k].wf());
            }
        }
        out.push(c.value as u8);
        k += 1;
    }
    proof {
        assert(out@ =~= parity_bits(data@, parity as nat, generator@));
    }
    out
}

fn generator_from(bits: &[u32]) -> (r: Polynomial<IntMod<2>>)
    requires
        forall|i: int| 0 <= i < bits@.len() ==> bits@[i] <= 1,
    ensures
        r@ == bits@.map_values(|b: u32| IntMod::<2> { value: b }),
{
    let mut coefficients: Vec<IntMod<2>> = Vec::new();
    let mut i: usize = 0;
    while i < bits.len()
        invariant
            i <= bits@.len(),
            coefficients@ =~= bits@.take(i as int).map_values(|b: u32| IntMod::<2> { value: b }),
        decreases bits@.len() - i,
    {
        coefficients.push(IntMod::<2> { value: bits[i] });
        i += 1;
    }
    proof {
        assert(bits@.take(bits@.len() as int) =~= bits@);
    }
    Polynomial::from(coefficients)
}

/// The 15 format bits for a level's bits and a mask number's bits, most
/// significant first.
pub fn format_bits(data: &Vec<u8>, mask: &Vec<u8>) -> (r: Vec<u8>)
    requires
        data@.len() == 5,
        mask@.len() == 15,
        forall|i: int| 0 <= i < data@.len() ==> data@[i] <= 1,
    ensures
        r@ == format_bits_spec(data@, mask@),
{
    let gen_bits: [u32; 11] = [1, 1, 1, 0, 1, 1, 0, 0, 1, 0, 1];
    let generator = generator_from(&gen_bits);
    proof {
        assert(generator@ =~= format_generator());
    }
    let parity = bch_parity(data, 10, &generator);
    let mut word: Vec<u8> = Vec::new();
    let mut i: usize = 0;
    while i < 15
        invariant
            i <= 15,
            data@.len() == 5,
            parity@.len() == 10,
            parity@ == parity_bits(data@, 10, format_generator()),
            mask@.len() == 15,
            word@.len() == i,
            forall|t: int| 0 <= t < i ==> #[trigger] word@[t] == format_bits_spec(data@, mask@)[t],
        decreases 15 - i,
    {
        let b = if i < 5 { data[i] } else { parity[i - 5] };
        word.push(if b == mask[i] { 0 } else { 1 });
        i += 1;
    }
    proof {
        assert(word@ =~= format_bits_spec(data@, mask@));
    }
    word
}

impl ModuleGrid {
    /// Flips the data modules (light and dark, not function ones) where mask
    /// `mask` of the family applies.
    pub fn apply_mask(&mut self, kind: QRSymbolTypes, mask: u32)
        requires
            old(self).wf(),
            mask < (if kind == QRSymbolTypes::QRCode { 8u32 } else { 4u32 }),
        ensures
            final(self).wf(),
            final(self).size == old(self).size,
            forall|x: int, y: int|
                0 <= x < final(self).size && 0 <= y < final(self).size ==> #[trigger] final(self).at(x, y) == (if old(self).at(x, y)
                    == LIGHT || old(self).at(x, y) == DARK {
                    if (old(self).at(x, y) == DARK) == masked(kind, mask as int, y, x) {
                        LIGHT
                    } else {
                        DARK
                    }
                } else {
                    old(self).at(x, y)
                }),
    {
        let ghost before = *self;
        let n = self.size;
        let mut y: usize = 0;
        while y < n
            invariant
                self.wf(),
                self.size == n,
                before.wf(),
                before.size == n,
                mask < (if kind == QRSymbolTypes::QRCode { 8u32 } else { 4u32 }),
                y <= n,
                forall|a: int, b: int|
                    0 <= a < n && 0 <= b < n ==> #[trigger] self.at(a, b) == (if b < y && (before.at(a, b) == LIGHT
                        || before.at(a, b) == DARK) {
                        if (before.at(a, b) == DARK) == masked(kind, mask as int, b, a) {
                            LIGHT
                        } else {
                            DARK
                        }
                    } else {
                        before.at(a, b)
                    }),
            decreases n - y,
        {
            let mut x: usize = 0;
            while x < n
                invariant
                    self.wf(),
                    self.size == n,
                    before.wf(),
                    before.size == n,
                    mask < (if kind == QRSymbolTypes::QRCode { 8u32 } else { 4u32 }),
                    y < n,
                    x <= n,
                    forall|a: int, b: int|
                        0 <= a < n && 0 <= b < n ==> #[trigger] self.at(a, b) == (if (b < y || (b == y && a < x)) && (
                        before.at(a, b) == LIGHT || before.at(a, b) == DARK) {
                            if (before.at(a, b) == DARK) == masked(kind, mask as int, b, a) {
                                LIGHT
                            } else {
                                DARK
                            }
                        } else {
                            before.at(a, b)
                        }),
                decreases n - x,
            {
                let v = self.get(x, y);
                if v == LIGHT || v == DARK {
                    let flip = match kind {
                        QRSymbolTypes::QRCode => QRCode { version: 1 }.mask_applies(mask, y as u32, x as u32),
                        QRSymbolTypes::MicroQRCode => MicroQRCode { version: 1 }.mask_applies(mask, y as u32, x as u32),
                    };
                    let c = if (v == DARK) == flip { LIGHT } else { DARK };
                    let ghost mid = *self;
                    self.put(x, y, c);
                    proof {
                        assert forall|a: int, b: int| 0 <= a < n && 0 <= b < n implies #[trigger] self.at(a, b) == (if a
                            == x && b == y { c } else { mid.at(a, b) }) by {
                            lemma_index(a, b, n as int);
                            lemma_index(x as int, y as int, n as int);
                            lemma_index_distinct(a, b, x as int, y as int, n as int);
                        }
                    }
                }
                x += 1;
            }
            y += 1;
        }
    }

    /// Makes every module plainly light or dark: below mid-grey is dark.
    pub fn recolour_function_pixels(&mut self)
        requires
            old(self).wf(),
        ensures
            final(self).wf(),
            final(self).size == old(self).size,
            forall|i: int| 0 <= i < final(self).cells@.len() ==> #[trigger] final(self).cells@[i] == (if is_dark(old(self).cells@[i]) {
                DARK
            } else {
                LIGHT
            }),
    {
        let ghost before = self.cells@;
        let ghost sz = self.size;
        let n = self.cells.len();
        let mut i: usize = 0;
        while i < n
            invariant
                self.size == sz,
                n == self.cells@.len(),
                n == before.len(),
                self.cells@.len() == self.size * self.size,
                self.size <= MAX_SIDE,
                i <= n,
                forall|k: int| 0 <= k < i ==> #[trigger] self.cells@[k] == (if is_dark(before[k]) { DARK } else { LIGHT }),
                forall|k: int| i <= k < n ==> #[trigger] self.cells@[k] == before[k],
            decreases n - i,
        {
            let v = if self.cells[i] < 128 { DARK } else { LIGHT };
            self.cells.set(i, v);
            i += 1;
        }
    }
}

/// Mask `m` of the family flips the module at row `i`, column `j`.
pub open spec fn masked(kind: QRSymbolTypes, m: int, i: int, j: int) -> bool {
    match kind {
        QRSymbolTypes::QRCode => standard_mask_spec(m, i, j),
        QRSymbolTypes::MicroQRCode => micro_mask_spec(m, i, j),
    }
}

/// The 18-bit version word of a version: six version bits, then twelve
/// BCH parity bits, lowest bit first in the placement order.
pub fn version_word(version: u32) -> (r: u32)
    requires
        version < 64,
    ensures
        r == version_word_spec(version),
{
    let mut data: Vec<u8> = Vec::new();
    let mut i: u32 = 0;
    while i < 6
        invariant
            i <= 6,
            data@.len() == i,
            forall|k: int| 0 <= k < data@.len() ==> data@[k] <= 1,
            forall|k: int| 0 <= k < i ==> #[trigger] data@[k] == version_data(version)[k],
        decreases 6 - i,
    {
        let shift: u32 = 5 - i;
        proof {
            vstd::bits::lemma_u32_shr_is_div(version, shift);
        }
        data.push(((version >> shift) % 2) as u8);
        i += 1;
    }
    proof {
        assert(data@ =~= version_data(version));
    }
    let gen_bits: [u32; 13] = [1, 0, 1, 0, 0, 1, 0, 0, 1, 1, 1, 1, 1];
    let generator = generator_from(&gen_bits);
    proof {
        assert(generator@ =~= version_generator());
        assert(generator@.last().value == 1);
    }
    let parity = bch_parity(&data, 12, &generator);
    let mut word: u32 = version;
    proof {
        vstd::arithmetic::power2::lemma2_to64();
    }
    let mut k: usize = 0;
    while k < 12
        invariant
            k <= 12,
            parity@.len() == 12,
            forall|t: int| 0 <= t < 12 ==> parity@[t] <= 1,
            word < 64 * vstd::arithmetic::power2::pow2(k as nat),
            word == version * vstd::arithmetic::power2::pow2(k as nat) + bits_value(parity@, k as int),
            parity@ == parity_bits(version_data(version), 12, version_generator()),
        decreases 12 - k,
    {
        proof {
            vstd::arithmetic::power2::lemma2_to64();
            vstd::arithmetic::power2::lemma_pow2_unfold((k + 1) as nat);
            vstd::arithmetic::power2::lemma_pow2_strictly_increases(k as nat, 12);
            let pk = vstd::arithmetic::power2::pow2(k as nat) as int;
            assert(2 * (version * pk + bits_value(parity@, k as int)) + parity@[k as int] == version * (2 * pk)
                + bits_value(parity@, k + 1)) by (nonlinear_arith)
                requires bits_value(parity@, k + 1) == 2 * bits_value(parity@, k as int) + parity@[k as int];
        }
        word = 2 * word + parity[k] as u32;
        k += 1;
    }
    proof {
        vstd::arithmetic::power2::lemma2_to64();
    }
    word
}

/// The cells beside the top-left finder in column 8, rows `0..k`,
/// skipping the timing row; each with the index of the bit it takes.
pub open spec fn tl_column(timing: int, k: int) -> Seq<(usize, usize, usize)>
    decreases k,
{
    if k <= 0 {
        Seq::empty()
    } else {
        let p = tl_column(timing, k - 1);
        if k - 1 != timing {
            p.push((8usize, (k - 1) as usize, p.len() as usize))
        } else {
            p
        }
    }
}

/// The cells under the top-left finder in row 8, columns `7` down to
/// `9 - m`, skipping the timing column, numbered on from `base`, at most
/// up to index 14.
pub open spec fn tl_row(timing: int, base: int, m: int) -> Seq<(usize, usize, usize)>
    decreases m,
{
    if m <= 1 {
        Seq::empty()
    } else {
        let p = tl_row(timing, base, m - 1);
        let x = 8 - (m - 1);
        if x != timing && base + p.len() < 15 {
            p.push((x as usize, 8usize, (base + p.len()) as usize))
        } else {
            p
        }
    }
}

/// The cells of the format bits, each with the index of the bit it takes
/// (counted from the last format bit): around the top-left finder
/// (skipping the timing track), then for Standard symbols under the
/// top-right finder and beside the bottom-left one.
pub open spec fn format_positions_spec(kind: QRSymbolTypes, size: int, timing: int) -> Seq<(usize, usize, usize)> {
    let c = tl_column(timing, 9);
    let r = tl_row(timing, c.len() as int, 9);
    if kind == QRSymbolTypes::QRCode {
        c + r + Seq::new(8, |t: int| ((size - 1 - t) as usize, 8usize, t as usize)) + Seq::new(
            7,
            |b: int| (8usize, (size - 7 + b) as usize, (8 + b) as usize),
        )
    } else {
        c + r
    }
}

proof fn lemma_tl_column(timing: int, k: int)
    requires
        0 <= k <= 9,
    ensures
        tl_column(timing, k).len() <= k,
        forall|i: int| 0 <= i < tl_column(timing, k).len() ==> (#[trigger] tl_column(timing, k)[i]).0 == 8
            && tl_column(timing, k)[i].1 < k && tl_column(timing, k)[i].2 == i,
        forall|i: int, j: int| 0 <= i < j < tl_column(timing, k).len() ==> (#[trigger] tl_column(timing, k)[i]).1
            < (#[trigger] tl_column(timing, k)[j]).1,
    decreases k,
{
    if k > 0 {
        lemma_tl_column(timing, k - 1);
        let p = tl_column(timing, k - 1);
        if k - 1 != timing {
            let q = p.push((8usize, (k - 1) as usize, p.len() as usize));
            assert(tl_column(timing, k) == q);
            assert forall|i: int| 0 <= i < q.len() implies (#[trigger] q[i]).0 == 8 && q[i].1 < k && q[i].2 == i by {
                if i < p.len() {
                    assert(q[i] == p[i]);
                }
            }
            assert forall|i: int, j: int| 0 <= i < j < q.len() implies (#[trigger] q[i]).1 < (#[trigger] q[j]).1 by {
                assert(q[i] == p[i]);
                if j < p.len() {
                    assert(q[j] == p[j]);
                }
            }
        }
    }
}

proof fn lemma_tl_row(timing: int, base: int, m: int)
    requires
        0 <= base <= 9,
        1 <= m <= 9,
    ensures
        forall|i: int| 0 <= i < tl_row(timing, base, m).len() ==> (#[trigger] tl_row(timing, base, m)[i]).0 < 8
            && tl_row(timing, base, m)[i].0 > 8 - m
            && tl_row(timing, base, m)[i].1 == 8 && tl_row(timing, base, m)[i].2 == base + i && base + i < 15,
        forall|i: int, j: int| 0 <= i < j < tl_row(timing, base, m).len() ==> (#[trigger] tl_row(timing, base, m)[i]).0
            > (#[trigger] tl_row(timing, base, m)[j]).0,
    decreases m,
{
    if m > 1 {
        lemma_tl_row(timing, base, m - 1);
        let p = tl_row(timing, base, m - 1);
        let x = 8 - (m - 1);
        if x != timing && base + p.len() < 15 {
            let q = p.push((x as usize, 8usize, (base + p.len()) as usize));
            assert(tl_row(timing, base, m) == q);
            assert forall|i: int| 0 <= i < q.len() implies (#[trigger] q[i]).0 < 8 && q[i].0 > 8 - m && q[i].1 == 8
                && q[i].2 == base + i && base + i < 15 by {
                if i < p.len() {
                    assert(q[i] == p[i]);
                }
            }
            assert forall|i: int, j: int| 0 <= i < j < q.len() implies (#[trigger] q[i]).0 > (#[trigger] q[j]).0 by {
                assert(q[i] == p[i]);
                if j < p.len() {
                    assert(q[j] == p[j]);
                }
            }
        }
    }
}

/// The format cells are distinct.
pub proof fn lemma_format_positions_distinct(kind: QRSymbolTypes, size: int, timing: int)
    requires
        21 <= size <= MAX_SIDE || (kind == QRSymbolTypes::MicroQRCode && 11 <= size <= MAX_SIDE),
    ensures
        forall|i: int, j: int|
            0 <= i < j < format_positions_spec(kind, size, timing).len() ==> !(
            #[trigger] format_positions_spec(kind, size, timing)[i].0 == #[trigger] format_positions_spec(kind, size, timing)[j].0
                && format_positions_spec(kind, size, timing)[i].1 == format_positions_spec(kind, size, timing)[j].1),
        forall|i: int| 0 <= i < format_positions_spec(kind, size, timing).len() ==> (#[trigger] format_positions_spec(kind, size, timing)[i]).0
            < size && format_positions_spec(kind, size, timing)[i].1 < size && format_positions_spec(kind, size, timing)[i].2 < 15
            && (format_positions_spec(kind, size, timing)[i].0 <= 8 || format_positions_spec(kind, size, timing)[i].1 == 8)
            && (format_positions_spec(kind, size, timing)[i].1 <= 8 || format_positions_spec(kind, size, timing)[i].0 == 8),
{
    let c = tl_column(timing, 9);
    lemma_tl_column(timing, 9);
    let r = tl_row(timing, c.len() as int, 9);
    lemma_tl_row(timing, c.len() as int, 9);
    let f = format_positions_spec(kind, size, timing);
    let tl = c + r;
    assert forall|i: int| 0 <= i < f.len() implies (#[trigger] f[i]).0 < size && f[i].1 < size && f[i].2 < 15 && (f[i].0 <= 8
        || f[i].1 == 8) && (f[i].1 <= 8 || f[i].0 == 8) by {
        if i < c.len() {
            assert(f[i] == c[i]);
        } else if i < tl.len() {
            assert(f[i] == r[i - c.len()]);
        }
    }
    assert forall|i: int, j: int| 0 <= i < j < f.len() implies !(#[trigger] f[i].0 == #[trigger] f[j].0 && f[i].1 == f[j].1) by {
        if i < c.len() {
            assert(f[i] == c[i]);
            if j < c.len() {
                assert(f[j] == c[j]);
            } else if j < tl.len() {
                assert(f[j] == r[j - c.len()]);
            }
        } else if i < tl.len() {
            assert(f[i] == r[i - c.len()]);
            if j < tl.len() {
                assert(f[j] == r[j - c.len()]);
            }
        }
    }
}

/// The cells of the format bits, in the order the bits are written.
pub fn format_positions(kind: QRSymbolTypes, size: usize, timing: usize) -> (r: Vec<(usize, usize, usize)>)
    requires
        21 <= size <= MAX_SIDE || (kind == QRSymbolTypes::MicroQRCode && 11 <= size <= MAX_SIDE),
    ensures
        r@ == format_positions_spec(kind, size as int, timing as int),
        forall|k: int| 0 <= k < r@.len() ==> (#[trigger] r@[k]).0 < size && r@[k].1 < size && r@[k].2 < 15,
{
    let mut out: Vec<(usize, usize, usize)> = Vec::new();
    let mut n: usize = 0;
    while n < 9
        invariant
            n <= 9,
            out@ == tl_column(timing as int, n as int),
        decreases 9 - n,
    {
        if n != timing {
            out.push((8, n, out.len()));
        }
        n += 1;
    }
    let ghost col = out@;
    proof {
        lemma_tl_column(timing as int, 9);
    }
    let base = out.len();
    let mut m: usize = 1;
    while m < 9
        invariant
            1 <= m <= 9,
            base == col.len(),
            base <= 9,
            out@ == col + tl_row(timing as int, base as int, m as int),
        decreases 9 - m,
    {
        proof {
            lemma_tl_row(timing as int, base as int, m as int);
        }
        if 8 - m != timing && out.len() < 15 {
            let ghost before = out@;
            out.push((8 - m, 8, out.len()));
            proof {
                assert(out@ =~= col + tl_row(timing as int, base as int, m + 1));
            }
        }
        m += 1;
    }
    proof {
        lemma_tl_row(timing as int, base as int, 9);
    }
    let ghost tl = out@;
    if kind == QRSymbolTypes::QRCode {
        let mut t: usize = 0;
        while t < 8
            invariant
                t <= 8,
                21 <= size <= MAX_SIDE,
                out@ =~= tl + Seq::new(t as nat, |i: int| ((size - 1 - i) as usize, 8usize, i as usize)),
            decreases 8 - t,
        {
            out.push((size - 1 - t, 8, t));
            t += 1;
        }
        let ghost tr = out@;
        let mut b: usize = 0;
        while b < 7
            invariant
                b <= 7,
                21 <= size <= MAX_SIDE,
                out@ =~= tr + Seq::new(b as nat, |i: int| (8usize, (size - 7 + i) as usize, (8 + i) as usize)),
            decreases 7 - b,
        {
            out.push((8, size - 7 + b, 8 + b));
            b += 1;
        }
    }
    proof {
        assert(out@ =~= format_positions_spec(kind, size as int, timing as int));
        assert forall|k: int| 0 <= k < out@.len() implies (#[trigger] out@[k]).0 < size && out@[k].1 < size && out@[k].2 < 15 by {
            if k < col.len() {
                assert(out@[k] == col[k]);
            } else if k < tl.len() {
                assert(out@[k] == tl_row(timing as int, base as int, 9)[k - col.len()]);
            }
        }
    }
    out
}

/// The unset modules of the stripe whose right column is `right`, from
/// step `step` on: rows upwards or downwards, right module before left.
pub open spec fn stripe(g: ModuleGrid, right: int, up: bool, step: int) -> Seq<(usize, usize)>
    decreases g.size - step,
{
    if step < 0 || step >= g.size {
        Seq::empty()
    } else {
        let y = if up { g.size - 1 - step } else { step };
        let first = if g.at(right, y) == UNSET { seq![(right as usize, y as usize)] } else { Seq::empty() };
        let second = if right >= 1 && g.at(right - 1, y) == UNSET {
            seq![((right - 1) as usize, y as usize)]
        } else {
            Seq::empty()
        };
        first + second + stripe(g, right, up, step + 1)
    }
}

/// The right column of the next stripe: two to the left, one more past the
/// timing column.
pub open spec fn next_stripe(right: int, timing: int) -> int {
    if right - 2 == timing && right - 2 >= 1 {
        right - 3
    } else {
        right - 2
    }
}

/// The zig-zag placement order from the stripe at `right` on.
pub open spec fn zigzag(g: ModuleGrid, right: int, up: bool, timing: int) -> Seq<(usize, usize)>
    decreases right,
{
    if right < 2 {
        stripe(g, right, up, 0)
    } else {
        stripe(g, right, up, 0) + zigzag(g, next_stripe(right, timing), !up, timing)
    }
}

/// The cells after the writes `(x, y, colour)`, in order.
pub open spec fn written(cells: Seq<u8>, size: int, writes: Seq<(usize, usize, u8)>) -> Seq<u8>
    decreases writes.len(),
{
    if writes.len() == 0 {
        cells
    } else {
        let w = writes.last();
        written(cells, size, writes.drop_last()).update(w.1 * size + w.0, w.2)
    }
}

/// After a list of writes, a cell that no write names is unchanged.
pub proof fn lemma_written_unnamed(cells: Seq<u8>, size: int, writes: Seq<(usize, usize, u8)>, x: int, y: int)
    requires
        0 <= size <= MAX_SIDE,
        cells.len() == size * size,
        forall|k: int| 0 <= k < writes.len() ==> (#[trigger] writes[k]).0 < size && writes[k].1 < size,
        0 <= x < size,
        0 <= y < size,
        forall|k: int| 0 <= k < writes.len() ==> !(#[trigger] writes[k].0 == x && writes[k].1 == y),
    ensures
        written(cells, size, writes).len() == cells.len(),
        written(cells, size, writes)[y * size + x] == cells[y * size + x],
    decreases writes.len(),
{
    if writes.len() > 0 {
        let d = writes.drop_last();
        let w = writes.last();
        assert forall|k: int| 0 <= k < d.len() implies (#[trigger] d[k]).0 < size && d[k].1 < size by {
            assert(d[k] == writes[k]);
        }
        assert forall|k: int| 0 <= k < d.len() implies !(#[trigger] d[k].0 == x && d[k].1 == y) by {
            assert(d[k] == writes[k]);
        }
        lemma_written_unnamed(cells, size, d, x, y);
        assert(!(writes[writes.len() - 1].0 == x && writes[writes.len() - 1].1 == y));
        lemma_index(x, y, size);
        lemma_index(w.0 as int, w.1 as int, size);
        lemma_index_distinct(x, y, w.0 as int, w.1 as int, size);
    }
}

/// After a list of writes, a cell holds the colour of the last write that
/// names it.
pub proof fn lemma_written_last(cells: Seq<u8>, size: int, writes: Seq<(usize, usize, u8)>, k: int)
    requires
        0 <= size <= MAX_SIDE,
        cells.len() == size * size,
        forall|i: int| 0 <= i < writes.len() ==> (#[trigger] writes[i]).0 < size && writes[i].1 < size,
        0 <= k < writes.len(),
        forall|j: int| k < j < writes.len() ==> !(#[trigger] writes[j].0 == writes[k].0 && writes[j].1 == writes[k].1),
    ensures
        written(cells, size, writes)[writes[k].1 * size + writes[k].0] == writes[k].2,
    decreases writes.len(),
{
    let d = writes.drop_last();
    let w = writes.last();
    lemma_index(w.0 as int, w.1 as int, size);
    lemma_index(writes[k].0 as int, writes[k].1 as int, size);
    if k < writes.len() - 1 {
        assert forall|i: int| 0 <= i < d.len() implies (#[trigger] d[i]).0 < size && d[i].1 < size by {
            assert(d[i] == writes[i]);
        }
        assert forall|j: int| k < j < d.len() implies !(#[trigger] d[j].0 == d[k].0 && d[j].1 == d[k].1) by {
            assert(d[j] == writes[j]);
        }
        assert(d[k] == writes[k]);
        lemma_written_last(cells, size, d, k);
        assert(!(writes[writes.len() - 1].0 == writes[k].0 && writes[writes.len() - 1].1 == writes[k].1));
        lemma_index_distinct(writes[k].0 as int, writes[k].1 as int, w.0 as int, w.1 as int, size);
        lemma_written_len(cells, size, d);
    } else {
        assert forall|i: int| 0 <= i < d.len() implies (#[trigger] d[i]).0 < size && d[i].1 < size by {
            assert(d[i] == writes[i]);
        }
        lemma_written_len(cells, size, d);
    }
}

proof fn lemma_written_len(cells: Seq<u8>, size: int, writes: Seq<(usize, usize, u8)>)
    requires
        0 <= size,
        cells.len() == size * size,
        forall|i: int| 0 <= i < writes.len() ==> (#[trigger] writes[i]).0 < size && writes[i].1 < size,
    ensures
        written(cells, size, writes).len() == cells.len(),
    decreases writes.len(),
{
    if writes.len() > 0 {
        let d = writes.drop_last();
        assert forall|i: int| 0 <= i < d.len() implies (#[trigger] d[i]).0 < size && d[i].1 < size by {
            assert(d[i] == writes[i]);
        }
        lemma_written_len(cells, size, d);
        lemma_index(writes.last().0 as int, writes.last().1 as int, size);
    }
}

/// The format writes: each listed cell gets bit `14 - index`, dark for 1.
pub open spec fn format_writes(positions: Seq<(usize, usize, usize)>, bits: Seq<u8>) -> Seq<(usize, usize, u8)> {
    Seq::new(
        positions.len(),
        |k: int| (positions[k].0, positions[k].1, if bits[14 - positions[k].2] == 1 { DARK } else { LIGHT }),
    )
}

/// Bit `k` of the message, most significant bit of each codeword first;
/// light (false) past the end.
pub open spec fn message_bit(message: Seq<u8>, k: int) -> bool {
    k / 8 < message.len() && (message[k / 8] as int / vstd::arithmetic::power2::pow2((7 - k % 8) as nat) as int) % 2 == 1
}

/// The message writes: the `k`-th listed cell gets message bit `k`.
pub open spec fn message_writes(positions: Seq<(usize, usize)>, message: Seq<u8>) -> Seq<(usize, usize, u8)> {
    Seq::new(positions.len(), |k: int| (positions[k].0, positions[k].1, if message_bit(message, k) { DARK } else { LIGHT }))
}

/// The timing writes: cell (k, t) then (t, k), dark at even `k`.
pub open spec fn timing_writes(n: int, t: int) -> Seq<(usize, usize, u8)> {
    Seq::new(
        (2 * n) as nat,
        |i: int|
            {
                let k = i / 2;
                let c = if k % 2 == 0 { FN_DARK } else { FN_LIGHT };
                if i % 2 == 0 { (k as usize, t as usize, c) } else { (t as usize, k as usize, c) }
            },
    )
}

impl ModuleGrid {
    /// Writes bit `bits[k]` (reversed order index) at each listed cell.
    pub fn place_format(&mut self, positions: &Vec<(usize, usize, usize)>, bits: &Vec<u8>)
        requires
            old(self).wf(),
            bits@.len() == 15,
            forall|k: int| 0 <= k < positions@.len() ==> (#[trigger] positions@[k]).0 < old(self).size && positions@[k].1
                < old(self).size && positions@[k].2 < 15,
        ensures
            final(self).wf(),
            final(self).size == old(self).size,
            final(self).cells@ == written(old(self).cells@, old(self).size as int, format_writes(positions@, bits@)),
    {
        let n = self.size;
        let ghost before = self.cells@;
        let ghost w = format_writes(positions@, bits@);
        let mut k: usize = 0;
        while k < positions.len()
            invariant
                self.wf(),
                self.size == n,
                bits@.len() == 15,
                k <= positions@.len(),
                w == format_writes(positions@, bits@),
                forall|t: int| 0 <= t < positions@.len() ==> (#[trigger] positions@[t]).0 < n && positions@[t].1 < n
                    && positions@[t].2 < 15,
                self.cells@ == written(before, n as int, w.take(k as int)),
            decreases positions@.len() - k,
        {
            let (x, y, i) = positions[k];
            let b = bits[14 - i];
            proof {
                assert(w.take(k + 1).drop_last() =~= w.take(k as int));
            }
            self.put(x, y, if b == 1 { DARK } else { LIGHT });
            k += 1;
        }
        proof {
            assert(w.take(k as int) =~= w);
        }
    }

    /// The unset modules in the zig-zag order: two-column stripes from the
    /// right, skipping the timing column, alternately upwards and
    /// downwards, right module before left.
    pub fn message_positions(&self, timing: usize) -> (r: Vec<(usize, usize)>)
        requires
            self.wf(),
            self.size >= 2,
        ensures
            r@ == zigzag(*self, (self.size - 1) as int, true, timing as int),
            forall|k: int| 0 <= k < r@.len() ==> (#[trigger] r@[k]).0 < self.size && r@[k].1 < self.size && self.at(
                r@[k].0 as int,
                r@[k].1 as int,
            ) == UNSET,
    {
        let n = self.size;
        let mut out: Vec<(usize, usize)> = Vec::new();
        let mut right: usize = n - 1;
        let mut up = true;
        loop
            invariant_except_break
                out@ + zigzag(*self, right as int, up, timing as int) == zigzag(*self, (n - 1) as int, true, timing as int),
            invariant
                self.wf(),
                n == self.size,
                n >= 2,
                right < n,
                forall|k: int| 0 <= k < out@.len() ==> (#[trigger] out@[k]).0 < n && out@[k].1 < n && self.at(
                    out@[k].0 as int,
                    out@[k].1 as int,
                ) == UNSET,
            ensures
                out@ == zigzag(*self, (n - 1) as int, true, timing as int),
                forall|k: int| 0 <= k < out@.len() ==> (#[trigger] out@[k]).0 < n && out@[k].1 < n && self.at(
                    out@[k].0 as int,
                    out@[k].1 as int,
                ) == UNSET,
            decreases right,
        {
            let mut step: usize = 0;
            let ghost start = out@;
            while step < n
                invariant
                    self.wf(),
                    n == self.size,
                    n >= 2,
                    right < n,
                    step <= n,
                    out@ + stripe(*self, right as int, up, step as int) == start + stripe(*self, right as int, up, 0),
                    forall|k: int| 0 <= k < out@.len() ==> (#[trigger] out@[k]).0 < n && out@[k].1 < n && self.at(
                        out@[k].0 as int,
                        out@[k].1 as int,
                    ) == UNSET,
                decreases n - step,
            {
                let y = if up { n - 1 - step } else { step };
                let ghost before = out@;
                if self.get(right, y) == UNSET {
                    out.push((right, y));
                }
                if right >= 1 && self.get(right - 1, y) == UNSET {
                    out.push((right - 1, y));
                }
                proof {
                    assert(out@ + stripe(*self, right as int, up, step + 1) =~= before + stripe(*self, right as int, up, step as int));
                }
                step += 1;
            }
            proof {
                assert(out@ =~= start + stripe(*self, right as int, up, 0));
            }
            if right < 2 {
                proof {
                    assert(out@ =~= start + zigzag(*self, right as int, up, timing as int));
                }
                break;
            }
            let mut next = right - 2;
            if next == timing && next >= 1 {
                next = next - 1;
            }
            proof {
                assert(next == next_stripe(right as int, timing as int));
                assert(start + zigzag(*self, right as int, up, timing as int) =~= out@ + zigzag(*self, next as int, !up, timing as int));
            }
            right = next;
            up = !up;
        }
        out
    }

    /// Writes the message bits, most significant bit of each codeword
    /// first, into the listed cells; function modules stay as they are.
    pub fn add_message_stream(&mut self, positions: &Vec<(usize, usize)>, message: &Vec<u8>)
        requires
            old(self).wf(),
            forall|k: int| 0 <= k < positions@.len() ==> (#[trigger] positions@[k]).0 < old(self).size && positions@[k].1
                < old(self).size && old(self).at(positions@[k].0 as int, positions@[k].1 as int) == UNSET,
        ensures
            final(self).wf(),
            final(self).size == old(self).size,
            forall|x: int, y: int|
                0 <= x < final(self).size && 0 <= y < final(self).size && old(self).at(x, y) != UNSET ==> #[trigger] final(self).at(
                    x,
                    y,
                ) == old(self).at(x, y),
            final(self).cells@ == written(old(self).cells@, old(self).size as int, message_writes(positions@, message@)),
    {
        let ghost before = *self;
        let ghost w = message_writes(positions@, message@);
        let n = self.size;
        let mut k: usize = 0;
        while k < positions.len()
            invariant
                self.wf(),
                self.size == n,
                before.wf(),
                before.size == n,
                k <= positions@.len(),
                forall|t: int| 0 <= t < positions@.len() ==> (#[trigger] positions@[t]).0 < n && positions@[t].1 < n
                    && before.at(positions@[t].0 as int, positions@[t].1 as int) == UNSET,
                forall|x: int, y: int|
                    0 <= x < n && 0 <= y < n && before.at(x, y) != UNSET ==> #[trigger] self.at(x, y) == before.at(x, y),
                w == message_writes(positions@, message@),
                self.cells@ == written(before.cells@, n as int, w.take(k as int)),
            decreases positions@.len() - k,
        {
            let byte = k / 8;
            let shift: u32 = 7 - (k % 8) as u32;
            let bit_on = if byte < message.len() {
                proof {
                    vstd::bits::lemma_u32_shr_is_div(message@[byte as int] as u32, shift);
                }
                (message[byte] as u32 >> shift) % 2 == 1
            } else {
                false
            };
            proof {
                assert(bit_on == message_bit(message@, k as int));
                assert(w.take(k + 1).drop_last() =~= w.take(k as int));
            }
            let (x, y) = positions[k];
            let ghost mid = *self;
            proof {
                assert(before.at(positions@[k as int].0 as int, positions@[k as int].1 as int) == UNSET);
            }
            self.put(x, y, if bit_on { DARK } else { LIGHT });
            proof {
                assert forall|a: int, b: int| 0 <= a < n && 0 <= b < n && before.at(a, b) != UNSET implies #[trigger] self.at(a, b) == before.at(a, b) by {
                    lemma_index(a, b, n as int);
                    lemma_index(x as int, y as int, n as int);
                    lemma_index_distinct(a, b, x as int, y as int, n as int);
                    assert(mid.at(a, b) == before.at(a, b));
                }
            }
            k += 1;
        }
        proof {
            assert(w.take(k as int) =~= w);
        }
    }
}

/// The side of a symbol.
pub open spec fn side(kind: QRSymbolTypes, v: int) -> int {
    match kind {
        QRSymbolTypes::QRCode => 21 + 4 * (v - 1),
        QRSymbolTypes::MicroQRCode => 11 + 2 * (v - 1),
    }
}

impl ModuleGrid {
    /// A copy of the grid.
    pub fn duplicate(&self) -> (r: Self)
        ensures
            r.size == self.size,
            r.cells@ == self.cells@,
    {
        let mut cells: Vec<u8> = Vec::new();
        let mut i: usize = 0;
        while i < self.cells.len()
            invariant
                i <= self.cells@.len(),
                cells@ =~= self.cells@.take(i as int),
            decreases self.cells@.len() - i,
        {
            cells.push(self.cells[i]);
            i += 1;
        }
        proof {
            assert(self.cells@.take(self.cells@.len() as int) =~= self.cells@);
        }
        ModuleGrid { size: self.size, cells }
    }

    /// The timing tracks along row and column `t`, dark at even positions.
    pub fn add_timing_patterns(&mut self, t: usize)
        requires
            old(self).wf(),
            t < old(self).size,
        ensures
            final(self).wf(),
            final(self).size == old(self).size,
            final(self).cells@ == written(old(self).cells@, old(self).size as int, timing_writes(old(self).size as int, t as int)),
    {
        let n = self.size;
        let ghost before = self.cells@;
        let ghost w = timing_writes(n as int, t as int);
        let mut k: usize = 0;
        while k < n
            invariant
                self.wf(),
                self.size == n,
                t < n,
                k <= n,
                w == timing_writes(n as int, t as int),
                self.cells@ == written(before, n as int, w.take(2 * k as int)),
            decreases n - k,
        {
            let c = if k % 2 == 0 { FN_DARK } else { FN_LIGHT };
            proof {
                assert(w[2 * k as int] == (k, t, c));
                assert(w[2 * k + 1] == (t, k, c));
                assert(w.take(2 * k + 1).drop_last() =~= w.take(2 * k as int));
                assert(w.take(2 * k + 2).drop_last() =~= w.take(2 * k + 1));
            }
            let ghost c0 = self.cells@;
            self.put(k, t, c);
            let ghost c1 = self.cells@;
            self.put(t, k, c);
            proof {
                assert(w.take(2 * k + 1).last() == w[2 * k as int]);
                assert(w.take(2 * k + 2).last() == w[2 * k + 1]);
                assert(c1 == written(before, n as int, w.take(2 * k + 1)));
                assert(self.cells@ == written(before, n as int, w.take(2 * k + 2)));
            }
            k += 1;
        }
        proof {
            assert(w.take(2 * k as int) =~= w);
        }
    }
}

/// Lays out a symbol: function patterns, message, mask, format and version
/// information.
pub struct ImageBuilder {
    pub kind: QRSymbolTypes,
    pub version: u32,
    pub message: Vec<u8>,
    pub correction_level: CorrectionLevels,
    pub grid: ModuleGrid,
    /// The mask chosen by the last build.
    pub mask: u32,
}

/// How many masks the family has.
pub open spec fn mask_count(kind: QRSymbolTypes) -> u32 {
    if kind == QRSymbolTypes::QRCode {
        8
    } else {
        4
    }
}

/// The cells with mask `m` applied to the data (light and dark) modules.
pub open spec fn masked_cells(g: Seq<u8>, n: int, kind: QRSymbolTypes, m: int) -> Seq<u8> {
    Seq::new(
        g.len(),
        |i: int|
            if g[i] == LIGHT || g[i] == DARK {
                if (g[i] == DARK) == masked(kind, m, i / n, i % n) {
                    LIGHT
                } else {
                    DARK
                }
            } else {
                g[i]
            },
    )
}

/// How good mask `m` is (higher is better): minus the Standard penalty, or
/// the Micro score.
pub open spec fn mask_value(kind: QRSymbolTypes, g: Seq<u8>, n: int, m: int) -> int {
    if kind == QRSymbolTypes::QRCode {
        -penalty(masked_cells(g, n, kind, m), n)
    } else {
        micro_score(masked_cells(g, n, kind, m), n)
    }
}

proof fn lemma_masked_cells(old_grid: ModuleGrid, new_grid: ModuleGrid, kind: QRSymbolTypes, m: int)
    requires
        old_grid.wf(),
        new_grid.wf(),
        new_grid.size == old_grid.size,
        old_grid.size > 0,
        forall|x: int, y: int|
            0 <= x < new_grid.size && 0 <= y < new_grid.size ==> #[trigger] new_grid.at(x, y) == (if old_grid.at(x, y)
                == LIGHT || old_grid.at(x, y) == DARK {
                if (old_grid.at(x, y) == DARK) == masked(kind, m, y, x) {
                    LIGHT
                } else {
                    DARK
                }
            } else {
                old_grid.at(x, y)
            }),
    ensures
        new_grid.cells@ == masked_cells(old_grid.cells@, old_grid.size as int, kind, m),
{
    let n = old_grid.size as int;
    assert forall|i: int| 0 <= i < new_grid.cells@.len() implies new_grid.cells@[i] == masked_cells(
        old_grid.cells@,
        n,
        kind,
        m,
    )[i] by {
        let x = i % n;
        let y = i / n;
        vstd::arithmetic::div_mod::lemma_fundamental_div_mod(i, n);
        vstd::arithmetic::div_mod::lemma_mod_bound(i, n);
        assert(y < n) by (nonlinear_arith)
            requires i < n * n, i == n * y + x, 0 <= x, n > 0;
        assert(y >= 0) by (nonlinear_arith)
            requires i >= 0, i == n * y + x, x < n, n > 0;
        assert(y * n + x == i) by (nonlinear_arith)
            requires i == n * y + x;
        assert(new_grid.at(x, y) == new_grid.cells@[i]);
    }
    assert(new_grid.cells@ =~= masked_cells(old_grid.cells@, n, kind, m));
}

/// The timing coordinate of the family.
pub open spec fn timing_of(kind: QRSymbolTypes) -> int {
    if kind == QRSymbolTypes::QRCode {
        6
    } else {
        0
    }
}

/// The family's error-correction level bits (for Micro symbols the symbol
/// number, from version and level).
pub open spec fn level_bits_spec(kind: QRSymbolTypes, v: u32, level: CorrectionLevels) -> Seq<u8> {
    match kind {
        QRSymbolTypes::QRCode => match level {
            CorrectionLevels::L => seq![0u8, 1],
            CorrectionLevels::M => seq![0u8, 0],
            CorrectionLevels::Q => seq![1u8, 1],
            _ => seq![1u8, 0],
        },
        QRSymbolTypes::MicroQRCode => if v == 1 {
            seq![0u8, 0, 0]
        } else if v == 2 {
            if level == CorrectionLevels::L { seq![0u8, 0, 1] } else { seq![0u8, 1, 0] }
        } else if v == 3 {
            if level == CorrectionLevels::L { seq![0u8, 1, 1] } else { seq![1u8, 0, 0] }
        } else {
            if level == CorrectionLevels::L {
                seq![1u8, 0, 1]
            } else if level == CorrectionLevels::M {
                seq![1u8, 1, 0]
            } else {
                seq![1u8, 1, 1]
            }
        },
    }
}

/// The five format data bits: level bits, then the mask number (three bits
/// for Standard symbols, two for Micro), most significant first.
pub open spec fn format_data(kind: QRSymbolTypes, v: u32, level: CorrectionLevels, mask: u32) -> Seq<u8> {
    let m = mask as int;
    if kind == QRSymbolTypes::QRCode {
        level_bits_spec(kind, v, level) + seq![(m / 4 % 2) as u8, (m / 2 % 2) as u8, (m % 2) as u8]
    } else {
        level_bits_spec(kind, v, level) + seq![(m / 2 % 2) as u8, (m % 2) as u8]
    }
}

/// The family's format mask.
pub open spec fn format_mask_spec(kind: QRSymbolTypes) -> Seq<u8> {
    if kind == QRSymbolTypes::QRCode {
        seq![1u8, 0, 1, 0, 1, 0, 0, 0, 0, 0, 1, 0, 0, 1, 0]
    } else {
        seq![1u8, 0, 0, 0, 1, 0, 0, 0, 1, 0, 0, 0, 1, 0, 1]
    }
}

impl ImageBuilder {
    pub fn new(kind: QRSymbolTypes, version: u32, message: Vec<u8>, correction_level: CorrectionLevels) -> (r: Self)
        requires
            crate::sizer::supported(kind, version as int, correction_level),
        ensures
            r.kind == kind,
            r.version == version,
            r.message@ == message@,
            r.correction_level == correction_level,
            r.grid.wf(),
            r.grid.size == side(kind, version as int),
    {
        let n: usize = match kind {
            QRSymbolTypes::QRCode => (21 + 4 * (version - 1)) as usize,
            QRSymbolTypes::MicroQRCode => (11 + 2 * (version - 1)) as usize,
        };
        ImageBuilder { kind, version, message, correction_level, grid: ModuleGrid::new(n), mask: 0 }
    }

    /// Chooses the mask with the best evaluation (the least Standard
    /// penalty, or the highest Micro score; among equals the last), each
    /// scored on a fresh copy of the grid, and applies it. Returns the mask
    /// number.
    pub fn mask_data_area(&mut self) -> (r: u32)
        requires
            old(self).grid.wf(),
            old(self).grid.size > 0,
        ensures
            r < mask_count(old(self).kind),
            forall|j: int| 0 <= j < mask_count(old(self).kind) ==> mask_value(
                old(self).kind,
                old(self).grid.cells@,
                old(self).grid.size as int,
                r as int,
            ) >= #[trigger] mask_value(old(self).kind, old(self).grid.cells@, old(self).grid.size as int, j),
            final(self).grid.size == old(self).grid.size,
            final(self).grid.wf(),
            final(self).grid.cells@ == masked_cells(old(self).grid.cells@, old(self).grid.size as int, old(self).kind, r as int),
            final(self).kind == old(self).kind,
            final(self).version == old(self).version,
            final(self).correction_level == old(self).correction_level,
            final(self).message == old(self).message,
    {
        let kind = self.kind;
        let n = self.grid.size;
        let ghost g = self.grid.cells@;
        let count: u32 = if kind == QRSymbolTypes::QRCode { 8 } else { 4 };
        let mut best: u32 = 0;
        let mut best_value: u64 = 0;
        let mut m: u32 = 0;
        while m < count
            invariant
                self.grid.wf(),
                self.grid.size == n,
                n > 0,
                self.grid.cells@ == g,
                self.kind == kind,
                count == mask_count(kind),
                m <= count,
                best < count,
                m > 0 ==> best < m,
                m > 0 ==> (if kind == QRSymbolTypes::QRCode {
                    best_value == penalty(masked_cells(g, n as int, kind, best as int), n as int)
                } else {
                    best_value == micro_score(masked_cells(g, n as int, kind, best as int), n as int)
                }),
                forall|j: int| 0 <= j < m ==> mask_value(kind, g, n as int, best as int) >= #[trigger] mask_value(kind, g, n as int, j),
            decreases count - m,
        {
            let mut trial = self.grid.duplicate();
            trial.apply_mask(kind, m);
            proof {
                lemma_masked_cells(self.grid, trial, kind, m as int);
            }
            let better = if kind == QRSymbolTypes::QRCode {
                let p = penalty_score(&trial);
                let b = m == 0 || p <= best_value;
                if b {
                    best_value = p;
                }
                b
            } else {
                let v = micro_evaluation(&trial);
                let b = m == 0 || v >= best_value;
                if b {
                    best_value = v;
                }
                b
            };
            if better {
                best = m;
            }
            m += 1;
        }
        let ghost before = self.grid;
        self.grid.apply_mask(kind, best);
        proof {
            lemma_masked_cells(before, self.grid, kind, best as int);
        }
        best
    }

    /// Paints the whole symbol; every module ends light or dark.
    pub fn build_qr_image(&mut self)
        requires
            crate::sizer::supported(old(self).kind, old(self).version as int, old(self).correction_level),
            old(self).grid.wf(),
            old(self).grid.size == side(old(self).kind, old(self).version as int),
        ensures
            final(self).grid.wf(),
            final(self).grid.size == old(self).grid.size,
            forall|i: int| 0 <= i < final(self).grid.cells@.len() ==> #[trigger] final(self).grid.cells@[i] == DARK
                || final(self).grid.cells@[i] == LIGHT,
            final(self).mask < mask_count(old(self).kind),
            forall|k: int|
                0 <= k < format_positions_spec(old(self).kind, old(self).grid.size as int, timing_of(old(self).kind)).len()
                    ==> final(self).grid.at(
                    #[trigger] format_positions_spec(old(self).kind, old(self).grid.size as int, timing_of(old(self).kind))[k].0 as int,
                    format_positions_spec(old(self).kind, old(self).grid.size as int, timing_of(old(self).kind))[k].1 as int,
                ) == format_writes(
                    format_positions_spec(old(self).kind, old(self).grid.size as int, timing_of(old(self).kind)),
                    format_bits_spec(
                        format_data(old(self).kind, old(self).version, old(self).correction_level, final(self).mask),
                        format_mask_spec(old(self).kind),
                    ),
                )[k].2,
            old(self).kind == QRSymbolTypes::QRCode && old(self).version >= 7 ==> forall|x: int, y: int|
                final(self).grid.size - 11 <= x < final(self).grid.size - 8 && 0 <= y < 6 ==> #[trigger] final(self).grid.at(x, y)
                    == pattern_colour(Pattern::VersionRight(version_word_spec(old(self).version) as u32), x - (final(self).grid.size - 11), y),
            old(self).kind == QRSymbolTypes::QRCode && old(self).version >= 7 ==> forall|x: int, y: int|
                0 <= x < 6 && final(self).grid.size - 11 <= y < final(self).grid.size - 8 ==> #[trigger] final(self).grid.at(x, y)
                    == pattern_colour(Pattern::VersionBottom(version_word_spec(old(self).version) as u32), x, y - (final(self).grid.size - 11)),
    {
        let n = self.grid.size;
        let kind = self.kind;
        let version = self.version;
        let level = self.correction_level;
        let timing: usize = if kind == QRSymbolTypes::QRCode { 6 } else { 0 };
        self.grid.add_timing_patterns(timing);
        let ni = n as i64;
        self.grid.paint(-1, -1, 9, 9, Pattern::Finder);
        if kind == QRSymbolTypes::QRCode {
            self.grid.paint(ni - 8, -1, 9, 9, Pattern::Finder);
            self.grid.paint(-1, ni - 8, 9, 9, Pattern::Finder);
            let centres = QRCode { version }.alignment_locations();
            let mut a: usize = 0;
            while a < centres.len()
                invariant
                    self.grid.wf(),
                    self.grid.size == n,
                    n <= MAX_SIDE,
                    self.kind == kind,
                    self.version == version,
                    self.correction_level == level,
                    self.message == old(self).message,
                decreases centres@.len() - a,
            {
                let (cx, cy) = centres[a];
                if cx <= 170 && cy <= 170 {
                    self.grid.paint(cx as i64 - 2, cy as i64 - 2, 5, 5, Pattern::Alignment);
                }
                a += 1;
            }
        }
        self.grid.paint(8, 0, 1, 9, Pattern::Solid(FN_DARK));
        self.grid.paint(0, 8, 9, 1, Pattern::Solid(FN_DARK));
        if kind == QRSymbolTypes::QRCode {
            self.grid.paint(8, ni - 8, 1, 8, Pattern::Solid(FN_DARK));
            self.grid.paint(ni - 8, 8, 8, 1, Pattern::Solid(FN_DARK));
            if version >= 7 {
                self.grid.paint(ni - 11, 0, 3, 6, Pattern::Solid(FN_DARK));
                self.grid.paint(0, ni - 11, 6, 3, Pattern::Solid(FN_DARK));
            }
        }
        let positions = self.grid.message_positions(timing);
        self.grid.add_message_stream(&positions, &self.message);
        let mask = self.mask_data_area();
        let ghost g1 = self.grid;
        self.add_format_information(mask);
        let ghost fp = format_positions_spec(kind, n as int, timing_of(kind));
        let ghost writes = format_writes(fp, format_bits_spec(format_data(kind, version, level, mask), format_mask_spec(kind)));
        proof {
            lemma_format_positions_distinct(kind, n as int, timing_of(kind));
            assert forall|k: int| 0 <= k < fp.len() implies self.grid.at(#[trigger] fp[k].0 as int, fp[k].1 as int)
                == writes[k].2 by {
                assert forall|i: int| 0 <= i < writes.len() implies (#[trigger] writes[i]).0 < n && writes[i].1 < n by {
                    assert(writes[i].0 == fp[i].0 && writes[i].1 == fp[i].1);
                }
                assert forall|j: int| k < j < writes.len() implies !(#[trigger] writes[j].0 == writes[k].0 && writes[j].1 == writes[k].1) by {
                    assert(writes[j].0 == fp[j].0 && writes[j].1 == fp[j].1);
                    assert(writes[k].0 == fp[k].0 && writes[k].1 == fp[k].1);
                    assert(!(fp[k].0 == fp[j].0 && fp[k].1 == fp[j].1));
                }
                lemma_written_last(g1.cells@, n as int, writes, k);
            }
        }
        let ghost g2 = self.grid;
        if kind == QRSymbolTypes::QRCode && version >= 7 {
            self.add_version_information();
            proof {
                assert forall|k: int| 0 <= k < fp.len() implies self.grid.at(#[trigger] fp[k].0 as int, fp[k].1 as int)
                    == writes[k].2 by {
                    assert(g2.at(fp[k].0 as int, fp[k].1 as int) == writes[k].2);
                }
            }
        }
        let ghost g3 = self.grid;
        self.grid.recolour_function_pixels();
        proof {
            assert forall|k: int| 0 <= k < fp.len() implies self.grid.at(#[trigger] fp[k].0 as int, fp[k].1 as int)
                == writes[k].2 by {
                assert(g3.at(fp[k].0 as int, fp[k].1 as int) == writes[k].2);
                lemma_index(fp[k].0 as int, fp[k].1 as int, n as int);
            }
            if kind == QRSymbolTypes::QRCode && version >= 7 {
                assert forall|x: int, y: int| n - 11 <= x < n - 8 && 0 <= y < 6 implies #[trigger] self.grid.at(x, y)
                    == pattern_colour(Pattern::VersionRight(version_word_spec(version) as u32), x - (n - 11), y) by {
                    lemma_index(x, y, n as int);
                    assert(g3.at(x, y) == pattern_colour(Pattern::VersionRight(version_word_spec(version) as u32), x - (n - 11), y));
                }
                assert forall|x: int, y: int| 0 <= x < 6 && n - 11 <= y < n - 8 implies #[trigger] self.grid.at(x, y)
                    == pattern_colour(Pattern::VersionBottom(version_word_spec(version) as u32), x, y - (n - 11)) by {
                    lemma_index(x, y, n as int);
                    assert(g3.at(x, y) == pattern_colour(Pattern::VersionBottom(version_word_spec(version) as u32), x, y - (n - 11)));
                }
            }
        }
        self.mask = mask;
    }

    /// Writes the format word (level and mask bits with their BCH parity,
    /// XORed with the family's format mask) into the format cells.
    pub fn add_format_information(&mut self, mask: u32)
        requires
            crate::sizer::supported(old(self).kind, old(self).version as int, old(self).correction_level),
            old(self).grid.wf(),
            old(self).grid.size == side(old(self).kind, old(self).version as int),
            mask < mask_count(old(self).kind),
        ensures
            final(self).grid.wf(),
            final(self).grid.size == old(self).grid.size,
            final(self).grid.cells@ == written(
                old(self).grid.cells@,
                old(self).grid.size as int,
                format_writes(
                    format_positions_spec(old(self).kind, old(self).grid.size as int, timing_of(old(self).kind)),
                    format_bits_spec(
                        format_data(old(self).kind, old(self).version, old(self).correction_level, mask),
                        format_mask_spec(old(self).kind),
                    ),
                ),
            ),
            final(self).kind == old(self).kind,
            final(self).version == old(self).version,
            final(self).correction_level == old(self).correction_level,
            final(self).message == old(self).message,
    {
        let kind = self.kind;
        let version = self.version;
        let level = self.correction_level;
        let n = self.grid.size;
        let timing: usize = if kind == QRSymbolTypes::QRCode { 6 } else { 0 };
        let mut data: Vec<u8> = match kind {
            QRSymbolTypes::QRCode => QRCode { version }.ec_level_bits(level),
            QRSymbolTypes::MicroQRCode => MicroQRCode { version }.ec_level_bits(level),
        };
        if kind == QRSymbolTypes::QRCode {
            data.push((mask / 4 % 2) as u8);
        }
        data.push((mask / 2 % 2) as u8);
        data.push((mask % 2) as u8);
        proof {
            assert(data@ =~= format_data(kind, version, level, mask));
        }
        let format_mask = match kind {
            QRSymbolTypes::QRCode => QRCode { version }.format_mask(),
            QRSymbolTypes::MicroQRCode => MicroQRCode { version }.format_mask(),
        };
        let bits = format_bits(&data, &format_mask);
        let positions = format_positions(kind, n, timing);
        self.grid.place_format(&positions, &bits);
    }

    /// Writes the version word into the two 6x3 blocks: beside the top-right
    /// finder (bit `x + 3y`) and, transposed, beside the bottom-left one.
    pub fn add_version_information(&mut self)
        requires
            old(self).kind == QRSymbolTypes::QRCode,
            7 <= old(self).version <= 40,
            old(self).grid.wf(),
            old(self).grid.size == side(old(self).kind, old(self).version as int),
        ensures
            final(self).grid.wf(),
            final(self).grid.size == old(self).grid.size,
            forall|x: int, y: int|
                0 <= x < final(self).grid.size && 0 <= y < final(self).grid.size ==> #[trigger] final(self).grid.at(x, y) == (if final(self).grid.size - 11 <= x < final(self).grid.size - 8 && 0 <= y < 6 {
                    pattern_colour(Pattern::VersionRight(version_word_spec(old(self).version) as u32), x - (final(self).grid.size - 11), y)
                } else if 0 <= x < 6 && final(self).grid.size - 11 <= y < final(self).grid.size - 8 {
                    pattern_colour(Pattern::VersionBottom(version_word_spec(old(self).version) as u32), x, y - (final(self).grid.size - 11))
                } else {
                    old(self).grid.at(x, y)
                }),
            final(self).kind == old(self).kind,
            final(self).version == old(self).version,
            final(self).correction_level == old(self).correction_level,
            final(self).message == old(self).message,
    {
        let ni = self.grid.size as i64;
        let word = version_word(self.version);
        self.grid.paint(ni - 11, 0, 3, 6, Pattern::VersionRight(word));
        self.grid.paint(0, ni - 11, 6, 3, Pattern::VersionBottom(word));
    }

    /// The finished grid.
    pub fn get_image(&self) -> (r: &ModuleGrid)
        ensures
            r == &self.grid,
    {
        &self.grid
    }
}

} // verus!

//! Local alignment scoring: a Smith-Waterman style recurrence whose
//! negative running scores are clamped to zero, reporting only the best cell.
use vstd::prelude::*;

verus! {

/// Score added on the diagonal when the two characters are equal.
pub const MATCH_SCORE: i32 = 2;

/// Score added on the diagonal when the two characters differ.
pub const MISMATCH_SCORE: i32 = -1;

/// Penalty of a gap step when no earlier cell of that row or column is non-zero.
pub const GAP_OPEN: i32 = -1;

/// Penalty of a gap step that continues after a non-zero cell of that row or column.
pub const GAP_EXTEND: i32 = -1;

/// Longest input on either side for which every score fits in an `i32`.
pub const MAX_ALIGN_LEN: usize = 1_000_000_000;

/// Diagonal contribution of cell `(i, j)`: it compares `a[i - 1]` with `b[j - 1]`.
pub open spec fn match_value(a: Seq<char>, b: Seq<char>, i: int, j: int) -> int {
    if a[i - 1] == b[j - 1] {
        MATCH_SCORE as int
    } else {
        MISMATCH_SCORE as int
    }
}

pub open spec fn max2(x: int, y: int) -> int {
    if x >= y {
        x
    } else {
        y
    }
}

pub open spec fn max4(w: int, x: int, y: int, z: int) -> int {
    max2(max2(max2(w, x), y), z)
}

/// The cell `H[i][j]` of the scoring grid of `a` against `b`. Row 0, column 0
/// and every position outside the grid hold 0.
pub open spec fn cell(a: Seq<char>, b: Seq<char>, i: int, j: int) -> int
    decreases i + j, 0int,
{
    if i <= 0 || j <= 0 || i > a.len() || j > b.len() {
        0
    } else {
        let gap_vertical = if nonzero_above(a, b, i - 1, j) {
            GAP_EXTEND as int
        } else {
            GAP_OPEN as int
        };
        let gap_horizontal = if nonzero_left(a, b, i, j - 1) {
            GAP_EXTEND as int
        } else {
            GAP_OPEN as int
        };
        max4(
            cell(a, b, i - 1, j - 1) + match_value(a, b, i, j),
            cell(a, b, i - 1, j) + gap_vertical,
            cell(a, b, i, j - 1) + gap_horizontal,
            0,
        )
    }
}

/// Some cell of column `j` in rows `1..=k` is non-zero.
pub open spec fn nonzero_above(a: Seq<char>, b: Seq<char>, k: int, j: int) -> bool
    decreases k + j, 1int,
{
    if k < 1 || j < 1 {
        false
    } else {
        cell(a, b, k, j) != 0 || nonzero_above(a, b, k - 1, j)
    }
}

/// Some cell of row `i` in columns `1..=k` is non-zero.
pub open spec fn nonzero_left(a: Seq<char>, b: Seq<char>, i: int, k: int) -> bool
    decreases i + k, 1int,
{
    if k < 1 || i < 1 {
        false
    } else {
        cell(a, b, i, k) != 0 || nonzero_left(a, b, i, k - 1)
    }
}

/// Largest cell of row `i` among columns `1..=j`, or 0.
pub open spec fn row_best(a: Seq<char>, b: Seq<char>, i: int, j: int) -> int
    decreases j,
{
    if j <= 0 {
        0
    } else {
        max2(row_best(a, b, i, j - 1), cell(a, b, i, j))
    }
}

/// Largest cell of rows `1..=i`, or 0.
pub open spec fn grid_best(a: Seq<char>, b: Seq<char>, i: int) -> int
    decreases i,
{
    if i <= 0 {
        0
    } else {
        max2(grid_best(a, b, i - 1), row_best(a, b, i, b.len() as int))
    }
}

/// The local alignment score of `a` against `b`: the largest cell of the whole grid.
pub open spec fn local_score(a: Seq<char>, b: Seq<char>) -> int {
    grid_best(a, b, a.len() as int)
}

/// Every cell lies in `[0, 2 * min(i, j)]`.
pub proof fn lemma_cell_bounds(a: Seq<char>, b: Seq<char>, i: int, j: int)
    requires
        0 <= i,
        0 <= j,
    ensures
        0 <= cell(a, b, i, j),
        cell(a, b, i, j) <= 2 * i,
        cell(a, b, i, j) <= 2 * j,
    decreases i + j,
{
    if i > 0 && j > 0 && i <= a.len() && j <= b.len() {
        lemma_cell_bounds(a, b, i - 1, j - 1);
        lemma_cell_bounds(a, b, i - 1, j);
        lemma_cell_bounds(a, b, i, j - 1);
    }
}

/// The best of a row is at least each of its cells and at most any bound on them.
pub proof fn lemma_row_best(a: Seq<char>, b: Seq<char>, i: int, j: int, bound: int)
    requires
        0 <= j,
        0 <= bound,
    ensures
        forall|c: int| 1 <= c <= j ==> cell(a, b, i, c) <= row_best(a, b, i, j),
        0 <= row_best(a, b, i, j),
        (forall|c: int| 1 <= c <= j ==> cell(a, b, i, c) <= bound) ==> row_best(a, b, i, j)
            <= bound,
    decreases j,
{
    if j > 0 {
        lemma_row_best(a, b, i, j - 1, bound);
    }
}

/// The best of the grid is at least each of its cells and at most any bound on them.
pub proof fn lemma_grid_best(a: Seq<char>, b: Seq<char>, i: int, bound: int)
    requires
        0 <= i,
        0 <= bound,
    ensures
        forall|r: int, c: int|
            1 <= r <= i && 1 <= c <= b.len() ==> cell(a, b, r, c) <= grid_best(a, b, i),
        0 <= grid_best(a, b, i),
        (forall|r: int, c: int| 1 <= r <= i && 1 <= c <= b.len() ==> cell(a, b, r, c) <= bound)
            ==> grid_best(a, b, i) <= bound,
    decreases i,
{
    lemma_row_best(a, b, i, b.len() as int, bound);
    if i > 0 {
        lemma_grid_best(a, b, i - 1, bound);
    }
}

/// Aligning a string with itself scores two points per character: the whole
/// diagonal matches and nothing can do better.
pub proof fn lemma_self_score(x: Seq<char>)
    ensures
        local_score(x, x) == 2 * x.len(),
{
    let n = x.len() as int;
    assert forall|k: int| 0 <= k <= n implies cell(x, x, k, k) == 2 * k by {
        lemma_diagonal(x, k);
    }
    assert forall|r: int, c: int| 1 <= r <= n && 1 <= c <= n implies cell(x, x, r, c) <= 2 * n by {
        lemma_cell_bounds(x, x, r, c);
    }
    lemma_grid_best(x, x, n, 2 * n);
    if n > 0 {
        assert(cell(x, x, n, n) == 2 * n);
    }
}

proof fn lemma_diagonal(x: Seq<char>, k: int)
    requires
        0 <= k <= x.len(),
    ensures
        cell(x, x, k, k) == 2 * k,
    decreases k,
{
    lemma_cell_bounds(x, x, k, k);
    if k > 0 {
        lemma_diagonal(x, k - 1);
    }
}

/// Two strings that have no character in common score 0: every cell is 0.
pub proof fn lemma_disjoint_score(a: Seq<char>, b: Seq<char>)
    requires
        forall|i: int, j: int| 0 <= i < a.len() && 0 <= j < b.len() ==> a[i] != b[j],
    ensures
        local_score(a, b) == 0,
{
    assert forall|r: int, c: int| 1 <= r <= a.len() && 1 <= c <= b.len() implies cell(a, b, r, c)
        <= 0 by {
        lemma_disjoint_cell(a, b, r, c);
    }
    lemma_grid_best(a, b, a.len() as int, 0);
}

proof fn lemma_disjoint_cell(a: Seq<char>, b: Seq<char>, i: int, j: int)
    requires
        forall|i: int, j: int| 0 <= i < a.len() && 0 <= j < b.len() ==> a[i] != b[j],
    ensures
        cell(a, b, i, j) == 0,
    decreases i + j,
{
    if i > 0 && j > 0 && i <= a.len() && j <= b.len() {
        lemma_disjoint_cell(a, b, i - 1, j - 1);
        lemma_disjoint_cell(a, b, i - 1, j);
        lemma_disjoint_cell(a, b, i, j - 1);
        assert(a[i - 1] != b[j - 1]);
    }
}

/// The characters of `s`, one element each.
pub fn chars_of(s: &str) -> (v: Vec<char>)
    ensures
        v@ == s@,
{
    let n = s.unicode_len();
    let mut v: Vec<char> = Vec::new();
    let mut k: usize = 0;
    while k < n
        invariant
            n == s@.len(),
            k <= n,
            v@ == s@.subrange(0, k as int),
        decreases n - k,
    {
        v.push(s.get_char(k));
        k += 1;
    }
    assert(v@ =~= s@);
    v
}

/// Local alignment score of `a` against `b`, both read character by character.
pub fn smith_waterman(a: &str, b: &str) -> (r: i32)
    requires
        a@.len() <= MAX_ALIGN_LEN,
        b@.len() <= MAX_ALIGN_LEN,
    ensures
        r == local_score(a@, b@),
{
    let av = chars_of(a);
    let bv = chars_of(b);
    let m = av.len();
    let n = bv.len();
    let ghost sa = a@;
    let ghost sb = b@;
    let mut matrix: Vec<Vec<i32>> = Vec::new();
    matrix.push(vec![0i32; n + 1]);
    let mut i: usize = 1;
    while i <= m
        invariant
            av@ == sa,
            bv@ == sb,
            m == sa.len(),
            n == sb.len(),
            m <= MAX_ALIGN_LEN,
            n <= MAX_ALIGN_LEN,
            1 <= i <= m + 1,
            matrix.len() == i,
            forall|r: int| 0 <= r < i ==> (#[trigger] matrix@[r]).len() == n + 1,
            forall|r: int, c: int|
                0 <= r < i && 0 <= c <= n ==> #[trigger] matrix@[r]@[c] == cell(sa, sb, r, c),
        decreases m + 1 - i,
    {
        let mut row: Vec<i32> = Vec::new();
        row.push(0);
        let mut j: usize = 1;
        while j <= n
            invariant
                av@ == sa,
                bv@ == sb,
                m == sa.len(),
                n == sb.len(),
                m <= MAX_ALIGN_LEN,
                n <= MAX_ALIGN_LEN,
                1 <= i <= m,
                1 <= j <= n + 1,
                matrix.len() == i,
                forall|r: int| 0 <= r < i ==> (#[trigger] matrix@[r]).len() == n + 1,
                forall|r: int, c: int|
                    0 <= r < i && 0 <= c <= n ==> #[trigger] matrix@[r]@[c] == cell(
                        sa,
                        sb,
                        r,
                        c,
                    ),
                row.len() == j,
                forall|c: int| 0 <= c < j ==> #[trigger] row@[c] == cell(sa, sb, i as int, c),
            decreases n + 1 - j,
        {
            let match_value = if av[i - 1] == bv[j - 1] {
                MATCH_SCORE
            } else {
                MISMATCH_SCORE
            };
            let mut gap_vertical = GAP_OPEN;
            let mut k: usize = i - 1;
            let mut seen = false;
            while k >= 1
                invariant
                    1 <= i <= m,
                    1 <= j <= n,
                    k < i,
                    matrix.len() == i,
                    forall|r: int| 0 <= r < i ==> (#[trigger] matrix@[r]).len() == n + 1,
                    forall|r: int, c: int|
                        0 <= r < i && 0 <= c <= n ==> #[trigger] matrix@[r]@[c] == cell(
                            sa,
                            sb,
                            r,
                            c,
                        ),
                    nonzero_above(sa, sb, i - 1, j as int) == (seen || nonzero_above(
                        sa,
                        sb,
                        k as int,
                        j as int,
                    )),
                    gap_vertical == if seen {
                        GAP_EXTEND
                    } else {
                        GAP_OPEN
                    },
                decreases k,
            {
                if matrix[k][j] != 0 {
                    gap_vertical = GAP_EXTEND;
                    seen = true;
                    k = 0;
                } else {
                    k -= 1;
                }
            }
            let mut gap_horizontal = GAP_OPEN;
            let mut k: usize = j - 1;
            let mut seen = false;
            while k >= 1
                invariant
                    1 <= i <= m,
                    1 <= j <= n,
                    k < j,
                    row.len() == j,
                    forall|c: int| 0 <= c < j ==> #[trigger] row@[c] == cell(sa, sb, i as int, c),
                    nonzero_left(sa, sb, i as int, j - 1) == (seen || nonzero_left(
                        sa,
                        sb,
                        i as int,
                        k as int,
                    )),
                    gap_horizontal == if seen {
                        GAP_EXTEND
                    } else {
                        GAP_OPEN
                    },
                decreases k,
            {
                if row[k] != 0 {
                    gap_horizontal = GAP_EXTEND;
                    seen = true;
                    k = 0;
                } else {
                    k -= 1;
                }
            }
            proof {
                lemma_cell_bounds(sa, sb, i - 1, j - 1);
                lemma_cell_bounds(sa, sb, i - 1, j as int);
                lemma_cell_bounds(sa, sb, i as int, j - 1);
            }
            let diagonal = matrix[i - 1][j - 1] + match_value;
            let vertical = matrix[i - 1][j] + gap_vertical;
            let horizontal = row[j - 1] + gap_horizontal;
            let mut value = diagonal;
            if vertical > value {
                value = vertical;
            }
            if horizontal > value {
                value = horizontal;
            }
            if 0 > value {
                value = 0;
            }
            row.push(value);
            j += 1;
        }
        matrix.push(row);
        i += 1;
    }
    let mut max_similarity: i32 = 0;
    let mut i: usize = 1;
    while i <= m
        invariant
            m == sa.len(),
            n == sb.len(),
            1 <= i <= m + 1,
            matrix.len() == m + 1,
            forall|r: int| 0 <= r <= m ==> (#[trigger] matrix@[r]).len() == n + 1,
            forall|r: int, c: int|
                0 <= r <= m && 0 <= c <= n ==> #[trigger] matrix@[r]@[c] == cell(sa, sb, r, c),
            max_similarity == grid_best(sa, sb, i - 1),
        decreases m + 1 - i,
    {
        let mut j: usize = 1;
        let ghost before = max_similarity as int;
        while j <= n
            invariant
                m == sa.len(),
                n == sb.len(),
                1 <= i <= m,
                1 <= j <= n + 1,
                matrix.len() == m + 1,
                forall|r: int| 0 <= r <= m ==> (#[trigger] matrix@[r]).len() == n + 1,
                forall|r: int, c: int|
                    0 <= r <= m && 0 <= c <= n ==> #[trigger] matrix@[r]@[c] == cell(
                        sa,
                        sb,
                        r,
                        c,
                    ),
                max_similarity == max2(before, row_best(sa, sb, i as int, j - 1)),
            decreases n + 1 - j,
        {
            if matrix[i][j] > max_similarity {
                max_similarity = matrix[i][j];
            }
            j += 1;
        }
        i += 1;
    }
    max_similarity
}

} // verus!

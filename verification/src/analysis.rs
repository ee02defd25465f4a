//! The integer side of the bubble search: the cells of a scaleogram that
//! stand above their four neighbours.
//!
//! A scaleogram row holds, for one frequency band, the magnitude of the
//! wavelet transform at each sample, as the bit pattern of its
//! single-precision value; cells are compared as those values compare.
use vstd::prelude::*;
use crate::ieee::{spec_lt, is_nan, value_lt, lemma_lt_strict_order, lemma_trichotomy, lemma_eq_lt, POSITIVE_ZERO};

verus! {

/// The scaleogram `t` is `s` with every cell below `min` set to `+0.0`.
pub open spec fn thresholded(s: Seq<Seq<u32>>, min: u32, t: Seq<Seq<u32>>) -> bool {
    &&& t.len() == s.len()
    &&& forall|r: int| 0 <= r < s.len() ==> (#[trigger] t[r]).len() == s[r].len()
    &&& forall|r: int, c: int| 0 <= r < s.len() && 0 <= c < s[r].len() ==>
        #[trigger] t[r][c] == (if spec_lt(s[r][c], min) { POSITIVE_ZERO } else { s[r][c] })
}

/// Sets every cell whose value is below `min` to `+0.0`, so that weak
/// responses cannot be taken for peaks.
pub fn threshold(s: &mut Vec<Vec<u32>>, min: u32)
    ensures
        thresholded(old(s).deep_view(), min, final(s).deep_view()),
        final(s).deep_view().len() == old(s).deep_view().len(),
        forall|r: int| 0 <= r < old(s).deep_view().len() ==>
            (#[trigger] final(s).deep_view()[r]).len() == old(s).deep_view()[r].len(),
        forall|r: int, c: int| 0 <= r < old(s).deep_view().len() && 0 <= c < old(s).deep_view()[r].len()
            && spec_lt(old(s).deep_view()[r][c], min) ==> #[trigger] final(s).deep_view()[r][c] == POSITIVE_ZERO,
        forall|r: int, c: int| 0 <= r < old(s).deep_view().len() && 0 <= c < old(s).deep_view()[r].len()
            && !spec_lt(old(s).deep_view()[r][c], min) ==> #[trigger] final(s).deep_view()[r][c] == old(s).deep_view()[r][c],
{
    let ghost g = old(s).deep_view();
    let mut r: usize = 0;
    while r < s.len()
        invariant
            r <= s.len(),
            s.len() == g.len(),
            forall|k: int| r <= k < g.len() ==> #[trigger] s@[k].deep_view() == g[k],
            forall|k: int| 0 <= k < r ==> (#[trigger] s@[k].deep_view()).len() == g[k].len(),
            forall|k: int, c: int| 0 <= k < r && 0 <= c < g[k].len() ==>
                #[trigger] s@[k].deep_view()[c] == (if spec_lt(g[k][c], min) { POSITIVE_ZERO } else { g[k][c] }),
        decreases g.len() - r,
    {
        let mut row: Vec<u32> = Vec::new();
        std::mem::swap(&mut row, &mut s[r]);
        assert(row.deep_view() == g[r as int]);
        let ghost orig = row@;
        let mut c: usize = 0;
        while c < row.len()
            invariant
                c <= row.len(),
                row@.len() == orig.len(),
                orig.len() == g[r as int].len(),
                forall|j: int| 0 <= j < orig.len() ==> #[trigger] orig[j] == g[r as int][j],
                forall|j: int| c <= j < orig.len() ==> #[trigger] row@[j] == orig[j],
                forall|j: int| 0 <= j < c ==> #[trigger] row@[j]
                    == (if spec_lt(orig[j], min) { POSITIVE_ZERO } else { orig[j] }),
            decreases orig.len() - c,
        {
            if value_lt(row[c], min) {
                row.set(c, POSITIVE_ZERO);
            }
            c = c + 1;
        }
        std::mem::swap(&mut row, &mut s[r]);
        r = r + 1;
    }
}

/// Cell `(r, c)` lies inside the grid, away from its border (columns are
/// counted by the length of the first row), and its value is strictly
/// greater than those of the cells below, above, right and left of it.
pub open spec fn is_peak(s: Seq<Seq<u32>>, r: int, c: int) -> bool {
    &&& 1 <= r < s.len() - 1
    &&& 1 <= c < s[0].len() - 1
    &&& spec_lt(s[r + 1][c], s[r][c])
    &&& spec_lt(s[r - 1][c], s[r][c])
    &&& spec_lt(s[r][c + 1], s[r][c])
    &&& spec_lt(s[r][c - 1], s[r][c])
}

/// `a` comes before `b` when the grid is read row by row.
pub open spec fn row_major_lt(a: (int, int), b: (int, int)) -> bool {
    a.0 < b.0 || (a.0 == b.0 && a.1 < b.1)
}

/// A position as a pair of integers.
pub open spec fn pos(p: (usize, usize)) -> (int, int) {
    (p.0 as int, p.1 as int)
}

/// `p` lists, in reading order and each once, exactly the peaks of `s` that
/// come before `bound`.
pub open spec fn lists_peaks_before(s: Seq<Seq<u32>>, p: Seq<(usize, usize)>, bound: (int, int)) -> bool {
    &&& forall|i: int| 0 <= i < p.len() ==> #[trigger] is_peak(s, p[i].0 as int, p[i].1 as int)
    &&& forall|i: int| 0 <= i < p.len() ==> row_major_lt(pos(#[trigger] p[i]), bound)
    &&& forall|i: int, j: int| 0 <= i < j < p.len() ==> row_major_lt(pos(#[trigger] p[i]), pos(#[trigger] p[j]))
    &&& forall|r: int, c: int|
        #[trigger] is_peak(s, r, c) && row_major_lt((r, c), bound) ==> p.contains((r as usize, c as usize))
}

/// `p` lists, in reading order and each once, exactly the peaks of `s`.
pub open spec fn lists_peaks(s: Seq<Seq<u32>>, p: Seq<(usize, usize)>) -> bool {
    lists_peaks_before(s, p, (s.len() as int, 0))
}

/// The grid can be read as the search reads it: it has a first row, and when
/// it has interior cells, every row is at least as long as the first.
pub open spec fn readable(s: Seq<Seq<u32>>) -> bool {
    &&& s.len() >= 1
    &&& s.len() >= 3 ==> s[0].len() >= 1
    &&& s.len() >= 3 ==> forall|r: int| 0 <= r < s.len() ==> #[trigger] s[r].len() >= s[0].len()
}

/// The positions `(row, column)` of the peaks of a scaleogram, in reading order.
pub fn local_maxima(s: &Vec<Vec<u32>>) -> (peaks: Vec<(usize, usize)>)
    requires
        readable(s.deep_view()),
    ensures
        lists_peaks(s.deep_view(), peaks@),
        forall|i: int| 0 <= i < peaks@.len() ==> {
            let (r, c) = (#[trigger] peaks@[i]);
            let g = s.deep_view();
            &&& 1 <= r < g.len() - 1
            &&& 1 <= c < g[0].len() - 1
            &&& spec_lt(g[r + 1][c as int], g[r as int][c as int])
            &&& spec_lt(g[r - 1][c as int], g[r as int][c as int])
            &&& spec_lt(g[r as int][c + 1], g[r as int][c as int])
            &&& spec_lt(g[r as int][c - 1], g[r as int][c as int])
        },
        forall|r: int, c: int| #![trigger s.deep_view()[r][c]]
            1 <= r < s.deep_view().len() - 1 && 1 <= c < s.deep_view()[0].len() - 1
            && spec_lt(s.deep_view()[r + 1][c], s.deep_view()[r][c])
            && spec_lt(s.deep_view()[r - 1][c], s.deep_view()[r][c])
            && spec_lt(s.deep_view()[r][c + 1], s.deep_view()[r][c])
            && spec_lt(s.deep_view()[r][c - 1], s.deep_view()[r][c])
            ==> peaks@.contains((r as usize, c as usize)),
{
    let ghost g = s.deep_view();
    let mut peaks: Vec<(usize, usize)> = Vec::new();
    let rows = s.len() - 1;
    let mut row: usize = 1;
    while row < rows
        invariant
            g == s.deep_view(),
            readable(g),
            rows == g.len() - 1,
            1 <= row,
            row <= rows || row == 1,
            lists_peaks_before(g, peaks@, (row as int, 0)),
        decreases rows - row,
    {
        assert(g.len() >= 3);
        assert(g[0] == s@[0]@);
        let cols = s[0].len() - 1;
        let mut col: usize = 1;
        while col < cols
            invariant
                g == s.deep_view(),
                readable(g),
                rows == g.len() - 1,
                1 <= row < rows,
                cols == g[0].len() - 1,
                1 <= col,
                col <= cols || col == 1,
                lists_peaks_before(g, peaks@, (row as int, col as int)),
            decreases cols - col,
        {
            assert(g[row as int] == s@[row as int]@);
            assert(g[row + 1] == s@[row + 1]@);
            assert(g[row - 1] == s@[row - 1]@);
            assert(g[row as int].len() >= g[0].len());
            assert(g[row + 1].len() >= g[0].len());
            assert(g[row - 1].len() >= g[0].len());
            let v = s[row][col];
            let ghost before = peaks@;
            if value_lt(s[row + 1][col], v) && value_lt(s[row - 1][col], v) && value_lt(s[row][col + 1], v)
                && value_lt(s[row][col - 1], v) {
                peaks.push((row, col));
                assert(peaks@[before.len() as int] == (row, col));
                assert forall|r: int, c: int|
                    #[trigger] is_peak(g, r, c) && row_major_lt((r, c), (row as int, col + 1)) implies
                    peaks@.contains((r as usize, c as usize)) by {
                    if r == row && c == col {
                        assert(peaks@[before.len() as int] == (r as usize, c as usize));
                    } else {
                        assert(before.contains((r as usize, c as usize)));
                        let k = choose|k: int| 0 <= k < before.len() && before[k] == (r as usize, c as usize);
                        assert(peaks@[k] == before[k]);
                    }
                }
            } else {
                assert forall|r: int, c: int|
                    #[trigger] is_peak(g, r, c) && row_major_lt((r, c), (row as int, col + 1)) implies
                    peaks@.contains((r as usize, c as usize)) by {
                    if r == row && c == col {
                        assert(!is_peak(g, r, c));
                    }
                }
            }
            col = col + 1;
        }
        assert forall|r: int, c: int|
            #[trigger] is_peak(g, r, c) && row_major_lt((r, c), (row + 1, 0)) implies
            peaks@.contains((r as usize, c as usize)) by {
            assert(row_major_lt((r, c), (row as int, col as int)));
        }
        row = row + 1;
    }
    assert forall|r: int, c: int|
        #[trigger] is_peak(g, r, c) && row_major_lt((r, c), (g.len() as int, 0)) implies
        peaks@.contains((r as usize, c as usize)) by {
        assert(row_major_lt((r, c), (row as int, 0)));
    }
    proof {
        lemma_peaks_by_neighbours(g, peaks@);
    }
    peaks
}

/// Peaks are isolated: no two cells next to each other (in a row or in a
/// column) are both peaks, since each would have to be greater than the other.
pub proof fn lemma_peaks_not_adjacent(s: Seq<Seq<u32>>, r: int, c: int)
    requires
        is_peak(s, r, c),
    ensures
        !is_peak(s, r + 1, c),
        !is_peak(s, r - 1, c),
        !is_peak(s, r, c + 1),
        !is_peak(s, r, c - 1),
{
    lemma_lt_strict_order(s[r][c], s[r + 1][c], s[r][c]);
    lemma_lt_strict_order(s[r][c], s[r - 1][c], s[r][c]);
    lemma_lt_strict_order(s[r][c], s[r][c + 1], s[r][c]);
    lemma_lt_strict_order(s[r][c], s[r][c - 1], s[r][c]);
}

/// Thresholding does what it is for: once every cell below a non-negative
/// minimum is set to zero, no peak is below that minimum.
pub proof fn lemma_thresholded_peaks_reach_min(s: Seq<Seq<u32>>, min: u32, t: Seq<Seq<u32>>, r: int, c: int)
    requires
        readable(s),
        thresholded(s, min, t),
        !is_nan(min),
        !spec_lt(min, POSITIVE_ZERO),
        is_peak(t, r, c),
    ensures
        !spec_lt(t[r][c], min),
{
    assert(s[r].len() >= s[0].len());
    assert(s[r + 1].len() >= s[0].len());
    assert(t[r].len() == s[r].len());
    assert(t[r + 1].len() == s[r + 1].len());
    assert(t[0].len() == s[0].len());
    if spec_lt(s[r][c], min) {
        // The peak itself was set to zero; its neighbour below would have to
        // be smaller than zero, hence smaller than the minimum, hence zero.
        let v = s[r + 1][c];
        assert(t[r][c] == POSITIVE_ZERO);
        assert(spec_lt(t[r + 1][c], POSITIVE_ZERO));
        if spec_lt(v, min) {
            assert(t[r + 1][c] == POSITIVE_ZERO);
            lemma_lt_strict_order(POSITIVE_ZERO, POSITIVE_ZERO, POSITIVE_ZERO);
        } else {
            // zero is not above the minimum, so a value below zero is below the minimum
            assert(t[r + 1][c] == v);
            lemma_trichotomy(min, POSITIVE_ZERO);
            lemma_lt_strict_order(v, POSITIVE_ZERO, min);
            lemma_eq_lt(v, POSITIVE_ZERO, min);
        }
    }
}

/// A list of the peaks of `s` holds exactly the interior cells that are
/// strictly greater than the cells below, above, right and left of them,
/// whatever the other cells hold.
pub proof fn lemma_peaks_by_neighbours(s: Seq<Seq<u32>>, p: Seq<(usize, usize)>)
    requires
        lists_peaks(s, p),
    ensures
        forall|i: int| 0 <= i < p.len() ==> {
            let (r, c) = (#[trigger] p[i]);
            &&& 1 <= r < s.len() - 1
            &&& 1 <= c < s[0].len() - 1
            &&& spec_lt(s[r + 1][c as int], s[r as int][c as int])
            &&& spec_lt(s[r - 1][c as int], s[r as int][c as int])
            &&& spec_lt(s[r as int][c + 1], s[r as int][c as int])
            &&& spec_lt(s[r as int][c - 1], s[r as int][c as int])
        },
        forall|r: int, c: int| #![trigger s[r][c]]
            1 <= r < s.len() - 1 && 1 <= c < s[0].len() - 1
            && spec_lt(s[r + 1][c], s[r][c]) && spec_lt(s[r - 1][c], s[r][c])
            && spec_lt(s[r][c + 1], s[r][c]) && spec_lt(s[r][c - 1], s[r][c])
            ==> p.contains((r as usize, c as usize)),
{
    assert forall|i: int| 0 <= i < p.len() implies {
        let (r, c) = (#[trigger] p[i]);
        &&& 1 <= r < s.len() - 1
        &&& 1 <= c < s[0].len() - 1
        &&& spec_lt(s[r + 1][c as int], s[r as int][c as int])
        &&& spec_lt(s[r - 1][c as int], s[r as int][c as int])
        &&& spec_lt(s[r as int][c + 1], s[r as int][c as int])
        &&& spec_lt(s[r as int][c - 1], s[r as int][c as int])
    } by {
        assert(is_peak(s, p[i].0 as int, p[i].1 as int));
    }
    assert forall|r: int, c: int| #![trigger s[r][c]]
        1 <= r < s.len() - 1 && 1 <= c < s[0].len() - 1
        && spec_lt(s[r + 1][c], s[r][c]) && spec_lt(s[r - 1][c], s[r][c])
        && spec_lt(s[r][c + 1], s[r][c]) && spec_lt(s[r][c - 1], s[r][c])
        implies p.contains((r as usize, c as usize)) by {
        assert(is_peak(s, r, c));
        assert(row_major_lt((r, c), (s.len() as int, 0)));
    }
}

/// Thresholding decides each cell by its value alone: two cells that held
/// the same value hold the same value afterwards, wherever they stand; a
/// cell below the minimum becomes `+0.0`, and any other cell keeps its value.
pub proof fn lemma_threshold_by_value(s: Seq<Seq<u32>>, min: u32, t: Seq<Seq<u32>>, r1: int, c1: int, r2: int, c2: int)
    requires
        thresholded(s, min, t),
        0 <= r1 < s.len(),
        0 <= c1 < s[r1].len(),
        0 <= r2 < s.len(),
        0 <= c2 < s[r2].len(),
    ensures
        s[r1][c1] == s[r2][c2] ==> t[r1][c1] == t[r2][c2],
        spec_lt(s[r1][c1], min) ==> t[r1][c1] == POSITIVE_ZERO,
        !spec_lt(s[r1][c1], min) ==> t[r1][c1] == s[r1][c1],
{
    assert(t[r1][c1] == (if spec_lt(s[r1][c1], min) { POSITIVE_ZERO } else { s[r1][c1] }));
    assert(t[r2][c2] == (if spec_lt(s[r2][c2], min) { POSITIVE_ZERO } else { s[r2][c2] }));
}

/// Thresholding twice with the same minimum is thresholding once.
pub proof fn lemma_threshold_idempotent(s: Seq<Seq<u32>>, min: u32, t: Seq<Seq<u32>>)
    requires
        thresholded(s, min, t),
    ensures
        thresholded(t, min, t),
{
    assert forall|r: int, c: int| 0 <= r < t.len() && 0 <= c < t[r].len() implies
        #[trigger] t[r][c] == (if spec_lt(t[r][c], min) { POSITIVE_ZERO } else { t[r][c] }) by {
        assert(t[r][c] == (if spec_lt(s[r][c], min) { POSITIVE_ZERO } else { s[r][c] }));
    }
}

} // verus!

//! Workgroup-level sums shared by composed algorithms.
//!
//! A workgroup holds at most 256 lanes, grouped into subgroups ("planes") of
//! `plane_dim` lanes.  Device sums are 32-bit and wrap, so every result here
//! is an exact sum taken modulo 2^32.
use vstd::prelude::*;
use vstd::arithmetic::div_mod::lemma_add_mod_noop;

verus! {

/// Largest number of lanes in one workgroup.
pub const MAX_LANES: usize = 256;

/// Exact sum of the rows `lo..hi` of `s`.
pub open spec fn exact_sum(s: Seq<u32>, lo: int, hi: int) -> nat
    decreases hi - lo,
{
    if hi <= lo {
        0
    } else {
        exact_sum(s, lo, hi - 1) + s[hi - 1] as nat
    }
}

/// What a 32-bit device sum of the rows `lo..hi` holds.
pub open spec fn word_sum(s: Seq<u32>, lo: int, hi: int) -> u32 {
    (exact_sum(s, lo, hi) % 0x1_0000_0000) as u32
}

/// A sum over adjacent ranges splits at the boundary.
pub proof fn lemma_exact_sum_split(s: Seq<u32>, lo: int, mid: int, hi: int)
    requires
        lo <= mid <= hi,
    ensures
        exact_sum(s, lo, hi) == exact_sum(s, lo, mid) + exact_sum(s, mid, hi),
    decreases hi - mid,
{
    if hi > mid {
        lemma_exact_sum_split(s, lo, mid, hi - 1);
    }
}

/// Two sequences that agree on a range have the same sum over it.
pub proof fn lemma_exact_sum_agree(s: Seq<u32>, t: Seq<u32>, lo: int, hi: int)
    requires
        forall|i: int| lo <= i < hi ==> s[i] == t[i],
    ensures
        exact_sum(s, lo, hi) == exact_sum(t, lo, hi),
    decreases hi - lo,
{
    if hi > lo {
        lemma_exact_sum_agree(s, t, lo, hi - 1);
    }
}

/// Summing a copied range sums the rows it was copied from.
pub proof fn lemma_exact_sum_shift(s: Seq<u32>, t: Seq<u32>, base: int, k: int)
    requires
        0 <= k <= t.len(),
        forall|j: int| 0 <= j < k ==> #[trigger] t[j] == s[base + j],
    ensures
        exact_sum(t, 0, k) == exact_sum(s, base, base + k),
    decreases k,
{
    if k > 0 {
        lemma_exact_sum_shift(s, t, base, k - 1);
    }
}

/// Wrapping 32-bit addition of two partial sums gives the sum of the union.
pub proof fn lemma_word_sum_split(s: Seq<u32>, lo: int, mid: int, hi: int)
    requires
        lo <= mid <= hi,
    ensures
        word_sum(s, lo, hi) == (word_sum(s, lo, mid) + word_sum(s, mid, hi)) % 0x1_0000_0000,
{
    lemma_exact_sum_split(s, lo, mid, hi);
    lemma_add_mod_noop(exact_sum(s, lo, mid) as int, exact_sum(s, mid, hi) as int, 0x1_0000_0000);
}

/// One more row folded into a wrapping running sum.
pub proof fn lemma_word_sum_step(s: Seq<u32>, lo: int, hi: int)
    requires
        lo <= hi,
    ensures
        word_sum(s, lo, hi + 1) == (word_sum(s, lo, hi) + s[hi]) % 0x1_0000_0000,
{
    lemma_add_mod_noop(exact_sum(s, lo, hi) as int, s[hi] as int, 0x1_0000_0000);
}

/// Exclusive prefix and total of at most 256 lane values.
///
/// Each plane of `plane_dim` lanes scans its own lanes; the plane totals are
/// then scanned, and every lane adds its plane's prefix to its plane-local
/// prefix.
pub fn block_exclusive_sum(values: &Vec<u32>, plane_dim: usize) -> (r: (Vec<u32>, u32))
    requires
        0 < values.len() <= MAX_LANES,
        plane_dim > 0,
    ensures
        r.0.len() == values.len(),
        forall|i: int| 0 <= i < values.len() ==> r.0[i] == word_sum(values@, 0, i),
        r.1 == word_sum(values@, 0, values.len() as int),
{
    let n = values.len();
    let ghost s = values@;
    let mut out: Vec<u32> = Vec::new();
    let mut local: Vec<u32> = Vec::new();
    // Running scan of the plane totals, as lane 0 computes it.
    let mut prefix: u32 = 0;
    let mut start: usize = 0;
    while start < n
        invariant
            n == values.len() == s.len(),
            s == values@,
            plane_dim > 0,
            start <= n,
            out.len() == start,
            local.len() == start,
            forall|k: int| 0 <= k < start ==> out[k] == word_sum(s, 0, k),
            prefix == word_sum(s, 0, start as int),
        decreases n - start,
    {
        let end = if n - start > plane_dim {
            start + plane_dim
        } else {
            n
        };
        // Plane-local exclusive scan and plane total.
        let mut total: u32 = 0;
        let mut i = start;
        while i < end
            invariant
                n == values.len() == s.len(),
                s == values@,
                start < end <= n,
                start <= i <= end,
                local.len() == i,
                forall|k: int| start <= k < i ==> local[k] == word_sum(s, start as int, k),
                total == word_sum(s, start as int, i as int),
            decreases end - i,
        {
            local.push(total);
            proof {
                lemma_word_sum_step(s, start as int, i as int);
            }
            total = total.wrapping_add(values[i]);
            i = i + 1;
        }
        // Each lane adds the prefix of the planes before its own.
        let mut i = start;
        while i < end
            invariant
                n == values.len() == s.len(),
                s == values@,
                start < end <= n,
                start <= i <= end,
                local.len() == end,
                out.len() == i,
                forall|k: int| start <= k < end ==> local[k] == word_sum(s, start as int, k),
                forall|k: int| 0 <= k < i ==> out[k] == word_sum(s, 0, k),
                prefix == word_sum(s, 0, start as int),
            decreases end - i,
        {
            proof {
                lemma_word_sum_split(s, 0, start as int, i as int);
            }
            out.push(local[i].wrapping_add(prefix));
            i = i + 1;
        }
        proof {
            lemma_word_sum_split(s, 0, start as int, end as int);
        }
        prefix = prefix.wrapping_add(total);
        start = end;
    }
    (out, prefix)
}

/// Summing the lane totals of contiguous ranges sums the rows they cover.
pub proof fn lemma_lane_totals(row: Seq<u32>, sums: Seq<u32>, bounds: Seq<int>, l: int)
    requires
        0 <= l < bounds.len(),
        l <= sums.len(),
        bounds[0] == 0,
        forall|j: int| 0 <= j < l ==> bounds[j] <= #[trigger] bounds[j + 1],
        forall|j: int| 0 <= j < l ==> #[trigger] sums[j] == word_sum(row, bounds[j], bounds[j + 1]),
    ensures
        0 <= bounds[l],
        word_sum(sums, 0, l) == word_sum(row, 0, bounds[l]),
    decreases l,
{
    if l > 0 {
        lemma_lane_totals(row, sums, bounds, l - 1);
        lemma_word_sum_step(sums, 0, l - 1);
        assert(bounds[l - 1] <= bounds[l]);
        lemma_word_sum_split(row, 0, bounds[l - 1], bounds[l]);
        lemma_add_mod_noop(word_sum(row, 0, bounds[l - 1]) as int, exact_sum(row, bounds[l - 1], bounds[l]) as int, 0x1_0000_0000);
        lemma_add_mod_noop(exact_sum(row, 0, bounds[l - 1]) as int, exact_sum(row, bounds[l - 1], bounds[l]) as int, 0x1_0000_0000);
    }
}

/// Exclusive prefix and total of one row, scanned by one workgroup of
/// `lanes` lanes: each lane owns a contiguous chunk of the row, so only the
/// lane totals cross lanes.
pub fn row_exclusive_sum(row: &Vec<u32>, lanes: usize, plane_dim: usize) -> (r: (Vec<u32>, u32))
    requires
        0 < lanes <= MAX_LANES,
        plane_dim > 0,
    ensures
        r.0.len() == row.len(),
        forall|k: int| 0 <= k < row.len() ==> r.0[k] == word_sum(row@, 0, k),
        r.1 == word_sum(row@, 0, row.len() as int),
{
    let width = row.len();
    let ghost s = row@;
    let chunk = if width == 0 {
        0
    } else {
        (width - 1) / lanes + 1
    };
    proof {
        if width > 0 {
            assert(lanes * chunk >= width) by (nonlinear_arith)
                requires
                    lanes > 0,
                    chunk == (width - 1) / lanes as int + 1,
            ;
        }
    }
    // Each lane sums its chunk.
    let mut sums: Vec<u32> = Vec::new();
    let ghost mut bounds: Seq<int> = seq![0int];
    let mut start: usize = 0;
    let mut lane: usize = 0;
    while lane < lanes
        invariant
            width == row.len() == s.len(),
            s == row@,
            0 < lanes <= MAX_LANES,
            lane <= lanes,
            start <= width,
            sums.len() == lane,
            bounds.len() == lane + 1,
            bounds[0] == 0,
            bounds[lane as int] == start,
            forall|j: int| 0 <= j <= lane ==> 0 <= #[trigger] bounds[j] <= width,
            forall|j: int| 0 <= j < lane ==> bounds[j] <= #[trigger] bounds[j + 1],
            forall|j: int| 0 <= j < lane ==> #[trigger] sums[j] == word_sum(s, bounds[j], bounds[j + 1]),
            forall|j: int| 0 <= j < lane ==> #[trigger] bounds[j + 1] == if width - bounds[j] > chunk {
                bounds[j] + chunk
            } else {
                width as int
            },
            width > 0 ==> lanes * chunk >= width,
            width > 0 ==> start == width || start == lane * chunk,
        decreases lanes - lane,
    {
        let end = if width - start > chunk {
            start + chunk
        } else {
            width
        };
        let mut total: u32 = 0;
        let mut i = start;
        while i < end
            invariant
                width == row.len() == s.len(),
                s == row@,
                start <= i <= end <= width,
                total == word_sum(s, start as int, i as int),
            decreases end - i,
        {
            proof {
                lemma_word_sum_step(s, start as int, i as int);
            }
            total = total.wrapping_add(row[i]);
            i = i + 1;
        }
        sums.push(total);
        proof {
            bounds = bounds.push(end as int);
            if width > 0 && end < width {
                assert((lane + 1) * chunk == lane * chunk + chunk) by (nonlinear_arith);
            }
        }
        start = end;
        lane = lane + 1;
    }
    proof {
        if width > 0 && start < width {
            assert(lane * chunk >= width);
        }
        lemma_lane_totals(s, sums@, bounds, lanes as int);
    }
    let (prefixes, total) = block_exclusive_sum(&sums, plane_dim);
    // Each lane writes the running prefix over its chunk.
    let mut out: Vec<u32> = Vec::new();
    let mut lane: usize = 0;
    let mut start: usize = 0;
    while lane < lanes
        invariant
            width == row.len() == s.len(),
            s == row@,
            chunk == (if width == 0 { 0 } else { (width - 1) / lanes as int + 1 }),
            sums.len() == lanes,
            prefixes.len() == lanes,
            0 < lanes <= MAX_LANES,
            lane <= lanes,
            bounds.len() == lanes + 1,
            bounds[0] == 0,
            bounds[lanes as int] == width,
            forall|j: int| 0 <= j < lanes ==> bounds[j] <= #[trigger] bounds[j + 1],
            forall|j: int| 0 <= j < lanes ==> #[trigger] sums[j] == word_sum(s, bounds[j], bounds[j + 1]),
            forall|j: int| 0 <= j < lanes ==> #[trigger] prefixes[j] == word_sum(sums@, 0, j),
            forall|j: int| 0 <= j < lanes ==> #[trigger] bounds[j + 1] == if width - bounds[j] > chunk {
                bounds[j] + chunk
            } else {
                width as int
            },
            start == bounds[lane as int],
            forall|j: int| 0 <= j <= lanes ==> 0 <= #[trigger] bounds[j] <= width,
            out.len() == start,
            forall|k: int| 0 <= k < start ==> out[k] == word_sum(s, 0, k),
        decreases lanes - lane,
    {
        let end = if width - start > chunk {
            start + chunk
        } else {
            width
        };
        let mut current = prefixes[lane];
        proof {
            lemma_lane_totals(s, sums@, bounds, lane as int);
        }
        let mut i = start;
        while i < end
            invariant
                width == row.len() == s.len(),
                s == row@,
                start <= i <= end <= width,
                out.len() == i,
                forall|k: int| 0 <= k < i ==> out[k] == word_sum(s, 0, k),
                current == word_sum(s, 0, i as int),
            decreases end - i,
        {
            out.push(current);
            proof {
                lemma_word_sum_step(s, 0, i as int);
            }
            current = current.wrapping_add(row[i]);
            i = i + 1;
        }
        start = end;
        lane = lane + 1;
    }
    proof {
        lemma_lane_totals(s, sums@, bounds, lanes as int);
    }
    (out, total)
}

} // verus!

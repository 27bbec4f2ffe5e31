use vstd::prelude::*;

use crate::cross_val;
use crate::point_in_polygon::inside_polygon;

verus! {

// ---------------------------------------------------------------------------
// Candidate ordering
// ---------------------------------------------------------------------------

/// Total order on candidate indices: by x ascending, then y ascending, then
/// by the index itself, so equal keys mean equal indices.
pub open spec fn key_le(coords: Seq<(int, int)>, a: usize, b: usize) -> bool {
    ||| coords[a as int].0 < coords[b as int].0
    ||| (coords[a as int].0 == coords[b as int].0 && (coords[a as int].1 < coords[b as int].1 || (
    coords[a as int].1 == coords[b as int].1 && a <= b)))
}

/// Insert index v into an ascending run, scanning from the right.
pub open spec fn insert_sorted(coords: Seq<(int, int)>, s: Seq<usize>, v: usize) -> Seq<usize>
    decreases s.len(),
{
    if s.len() == 0 || key_le(coords, s.last(), v) {
        s.push(v)
    } else {
        insert_sorted(coords, s.drop_last(), v).push(s.last())
    }
}

/// Insertion sort of a candidate index sequence under key_le.
pub open spec fn sort_spec(coords: Seq<(int, int)>, cands: Seq<usize>) -> Seq<usize>
    decreases cands.len(),
{
    if cands.len() == 0 {
        Seq::empty()
    } else {
        insert_sorted(coords, sort_spec(coords, cands.drop_last()), cands.last())
    }
}

/// Whether an index sequence is ascending under the (x, y, index) key.
pub open spec fn sorted_by_key(coords: Seq<(int, int)>, s: Seq<usize>) -> bool {
    forall|a: int, b: int| 0 <= a < b < s.len() ==> key_le(coords, s[a], s[b])
}

/// Insertion into an ascending run keeps it ascending, and the contents
/// gain exactly the inserted index.
proof fn lemma_insert_sorted_ordered(coords: Seq<(int, int)>, s: Seq<usize>, v: usize)
    requires
        sorted_by_key(coords, s),
    ensures
        sorted_by_key(coords, insert_sorted(coords, s, v)),
        insert_sorted(coords, s, v).to_multiset() == s.to_multiset().insert(v),
        forall|m: int|
            0 <= m < insert_sorted(coords, s, v).len()
                ==> #[trigger] insert_sorted(coords, s, v)[m] == v || s.contains(
                insert_sorted(coords, s, v)[m],
            ),
    decreases s.len(),
{
    s.to_multiset_ensures();
    let r = insert_sorted(coords, s, v);
    if s.len() == 0 || key_le(coords, s.last(), v) {
        assert forall|m: int| 0 <= m < r.len() implies #[trigger] r[m] == v || s.contains(
            r[m],
        ) by {
            if m < s.len() {
                assert(s[m] == r[m]);
            }
        }
        assert forall|a: int, b: int| 0 <= a < b < r.len() implies key_le(
            coords,
            r[a],
            r[b],
        ) by {
            if b == r.len() - 1 {
                assert(key_le(coords, s[a], s[s.len() - 1]));
            }
        }
    } else {
        let inner = insert_sorted(coords, s.drop_last(), v);
        lemma_insert_sorted_ordered(coords, s.drop_last(), v);
        s.drop_last().to_multiset_ensures();
        inner.to_multiset_ensures();
        assert(s =~= s.drop_last().push(s.last()));
        assert(s.to_multiset() == s.drop_last().to_multiset().insert(s.last()));
        assert(r.to_multiset() =~= s.to_multiset().insert(v));
        assert forall|m: int| 0 <= m < r.len() implies #[trigger] r[m] == v || s.contains(
            r[m],
        ) by {
            if m < inner.len() {
                assert(r[m] == inner[m]);
                if inner[m] != v {
                    let w = choose|j: int|
                        0 <= j < s.drop_last().len() && s.drop_last()[j] == inner[m];
                    assert(s[w] == inner[m]);
                }
            } else {
                assert(r[m] == s[s.len() - 1]);
            }
        }
        assert forall|a: int, b: int| 0 <= a < b < r.len() implies key_le(
            coords,
            r[a],
            r[b],
        ) by {
            if b == r.len() - 1 {
                // the re-appended final element dominates every inner entry
                if r[a] == v {
                    assert(key_le(coords, v, s.last()));
                } else {
                    let w = choose|j: int|
                        0 <= j < s.drop_last().len() && s.drop_last()[j] == r[a];
                    assert(s[w] == r[a]);
                    assert(key_le(coords, s[w], s[s.len() - 1]));
                }
            }
        }
    }
}

/// The sort really sorts: its output is ascending under the (x, y, index)
/// key and holds exactly the input indices, multiplicity included.
pub proof fn lemma_sort_spec_sorted(coords: Seq<(int, int)>, cands: Seq<usize>)
    ensures
        sorted_by_key(coords, sort_spec(coords, cands)),
        sort_spec(coords, cands).to_multiset() == cands.to_multiset(),
    decreases cands.len(),
{
    cands.to_multiset_ensures();
    if cands.len() == 0 {
        assert(sort_spec(coords, cands) =~= cands);
    } else {
        lemma_sort_spec_sorted(coords, cands.drop_last());
        lemma_insert_sorted_ordered(coords, sort_spec(coords, cands.drop_last()), cands.last());
        cands.drop_last().to_multiset_ensures();
        assert(cands =~= cands.drop_last().push(cands.last()));
        assert(cands.to_multiset() == cands.drop_last().to_multiset().insert(cands.last()));
    }
}

// ---------------------------------------------------------------------------
// Monotone chains
// ---------------------------------------------------------------------------

/// Extend a chain by one candidate: pop trailing points while the last two
/// chain points and the candidate form a non-clockwise turn, then append.
pub open spec fn chain_push(coords: Seq<(int, int)>, chain: Seq<usize>, c: usize) -> Seq<usize>
    decreases chain.len(),
{
    if chain.len() >= 2 && cross_val(
        coords[chain[chain.len() - 2] as int],
        coords[chain[chain.len() - 1] as int],
        coords[c as int],
    ) <= 0 {
        chain_push(coords, chain.drop_last(), c)
    } else {
        chain.push(c)
    }
}

/// Build a whole chain by pushing the candidates in order.
pub open spec fn chain_fold(coords: Seq<(int, int)>, cands: Seq<usize>) -> Seq<usize>
    decreases cands.len(),
{
    if cands.len() == 0 {
        Seq::empty()
    } else {
        chain_push(coords, chain_fold(coords, cands.drop_last()), cands.last())
    }
}

/// The hull of a candidate index sequence: sort, build the two chains (the
/// second over the reversed order), drop each chain's final point and
/// concatenate.
pub open spec fn hull_spec(coords: Seq<(int, int)>, cands: Seq<usize>) -> Seq<usize> {
    if cands.len() == 0 {
        Seq::empty()
    } else {
        let s = sort_spec(coords, cands);
        let lower = chain_fold(coords, s);
        let upper = chain_fold(coords, s.reverse());
        lower.drop_last() + upper.drop_last()
    }
}

// ---------------------------------------------------------------------------
// Extremal culling
// ---------------------------------------------------------------------------

/// First index among the first k points whose x is minimal (strict
/// comparisons keep the earliest index on ties).
pub open spec fn min_x_scan(coords: Seq<(int, int)>, k: int) -> int
    decreases k,
{
    if k <= 1 {
        0
    } else {
        let p = min_x_scan(coords, k - 1);
        if coords[k - 1].0 < coords[p].0 {
            k - 1
        } else {
            p
        }
    }
}

/// First index among the first k points whose x is maximal.
pub open spec fn max_x_scan(coords: Seq<(int, int)>, k: int) -> int
    decreases k,
{
    if k <= 1 {
        0
    } else {
        let p = max_x_scan(coords, k - 1);
        if coords[k - 1].0 > coords[p].0 {
            k - 1
        } else {
            p
        }
    }
}

/// First index among the first k points whose y is minimal.
pub open spec fn min_y_scan(coords: Seq<(int, int)>, k: int) -> int
    decreases k,
{
    if k <= 1 {
        0
    } else {
        let p = min_y_scan(coords, k - 1);
        if coords[k - 1].1 < coords[p].1 {
            k - 1
        } else {
            p
        }
    }
}

/// First index among the first k points whose y is maximal.
pub open spec fn max_y_scan(coords: Seq<(int, int)>, k: int) -> int
    decreases k,
{
    if k <= 1 {
        0
    } else {
        let p = max_y_scan(coords, k - 1);
        if coords[k - 1].1 > coords[p].1 {
            k - 1
        } else {
            p
        }
    }
}

/// The culling boundary: the four extremal points in the fixed order
/// leftmost, lowest, rightmost, highest.  The order is a heuristic for the
/// even-odd containment filter only; it need not describe a simple polygon.
pub open spec fn quad_spec(coords: Seq<(int, int)>) -> Seq<(int, int)> {
    let n = coords.len() as int;
    seq![
        coords[min_x_scan(coords, n)],
        coords[min_y_scan(coords, n)],
        coords[max_x_scan(coords, n)],
        coords[max_y_scan(coords, n)],
    ]
}

/// Indices among the first k points whose point fails the even-odd
/// containment test against the culling boundary, in ascending order.
pub open spec fn outside_list(coords: Seq<(int, int)>, quad: Seq<(int, int)>, k: int) -> Seq<
    usize,
>
    decreases k,
{
    if k <= 0 {
        Seq::empty()
    } else {
        outside_list(coords, quad, k - 1) + if !inside_polygon(coords[k - 1], quad) {
            seq![(k - 1) as usize]
        } else {
            Seq::empty()
        }
    }
}

/// The candidate set: the four extremal indices, then every index whose
/// point lies outside the culling boundary.
pub open spec fn cand_spec(coords: Seq<(int, int)>) -> Seq<usize> {
    let n = coords.len() as int;
    seq![
        min_x_scan(coords, n) as usize,
        min_y_scan(coords, n) as usize,
        max_x_scan(coords, n) as usize,
        max_y_scan(coords, n) as usize,
    ] + outside_list(coords, quad_spec(coords), n)
}

/// The whole pipeline at the specification level: extremal culling followed
/// by the monotone-chain hull of the candidates.
pub open spec fn hull_pipeline(coords: Seq<(int, int)>) -> Seq<usize> {
    hull_spec(coords, cand_spec(coords))
}

// ---------------------------------------------------------------------------
// Index validity
// ---------------------------------------------------------------------------

/// Whether every entry of an index sequence is below n.
pub open spec fn all_below(s: Seq<usize>, n: int) -> bool {
    forall|k: int| 0 <= k < s.len() ==> (#[trigger] s[k]) < n
}

/// Insertion keeps the length one larger and every entry below the bound.
pub proof fn lemma_insert_sorted_below(coords: Seq<(int, int)>, s: Seq<usize>, v: usize, n: int)
    requires
        all_below(s, n),
        v < n,
    ensures
        insert_sorted(coords, s, v).len() == s.len() + 1,
        all_below(insert_sorted(coords, s, v), n),
    decreases s.len(),
{
    if s.len() == 0 || key_le(coords, s.last(), v) {
    } else {
        lemma_insert_sorted_below(coords, s.drop_last(), v, n);
    }
}

/// Sorting keeps the length and every entry below the bound.
pub proof fn lemma_sort_spec_below(coords: Seq<(int, int)>, cands: Seq<usize>, n: int)
    requires
        all_below(cands, n),
    ensures
        sort_spec(coords, cands).len() == cands.len(),
        all_below(sort_spec(coords, cands), n),
    decreases cands.len(),
{
    if cands.len() == 0 {
    } else {
        lemma_sort_spec_below(coords, cands.drop_last(), n);
        lemma_insert_sorted_below(coords, sort_spec(coords, cands.drop_last()), cands.last(), n);
    }
}

/// A chain extension stays nonempty, grows by at most one, and keeps every
/// entry below the bound.
pub proof fn lemma_chain_push_below(coords: Seq<(int, int)>, chain: Seq<usize>, c: usize, n: int)
    requires
        all_below(chain, n),
        c < n,
    ensures
        1 <= chain_push(coords, chain, c).len() <= chain.len() + 1,
        all_below(chain_push(coords, chain, c), n),
    decreases chain.len(),
{
    if chain.len() >= 2 && cross_val(
        coords[chain[chain.len() - 2] as int],
        coords[chain[chain.len() - 1] as int],
        coords[c as int],
    ) <= 0 {
        lemma_chain_push_below(coords, chain.drop_last(), c, n);
    }
}

/// A whole chain is nonempty when its input is, and keeps every entry below
/// the bound.
pub proof fn lemma_chain_fold_below(coords: Seq<(int, int)>, cands: Seq<usize>, n: int)
    requires
        all_below(cands, n),
    ensures
        all_below(chain_fold(coords, cands), n),
        cands.len() >= 1 ==> chain_fold(coords, cands).len() >= 1,
    decreases cands.len(),
{
    if cands.len() == 0 {
    } else {
        lemma_chain_fold_below(coords, cands.drop_last(), n);
        lemma_chain_push_below(coords, chain_fold(coords, cands.drop_last()), cands.last(), n);
    }
}

/// Every hull entry is a valid index below the bound.
pub proof fn lemma_hull_spec_below(coords: Seq<(int, int)>, cands: Seq<usize>, n: int)
    requires
        all_below(cands, n),
    ensures
        all_below(hull_spec(coords, cands), n),
{
    if cands.len() == 0 {
    } else {
        let s = sort_spec(coords, cands);
        lemma_sort_spec_below(coords, cands, n);
        assert(all_below(s.reverse(), n));
        lemma_chain_fold_below(coords, s, n);
        lemma_chain_fold_below(coords, s.reverse(), n);
    }
}

// ---------------------------------------------------------------------------
// Degenerate inputs: at most two distinct coordinate pairs
// ---------------------------------------------------------------------------

/// Whether every coordinate pair in the sequence is one of two values.
pub open spec fn two_valued(coords: Seq<(int, int)>, p: (int, int), q: (int, int)) -> bool {
    forall|i: int| 0 <= i < coords.len() ==> #[trigger] coords[i] == p || coords[i] == q
}

/// The orientation of a triple with a repeated point vanishes.
proof fn lemma_cross_repeat(a: (int, int), b: (int, int), c: (int, int))
    by (nonlinear_arith)
    requires
        a == b || b == c || a == c,
    ensures
        cross_val(a, b, c) == 0,
{
}

/// Three coordinate pairs drawn from only two values always contain a
/// repeat, so their orientation vanishes.
proof fn lemma_cross_two_values(
    a: (int, int),
    b: (int, int),
    c: (int, int),
    p: (int, int),
    q: (int, int),
)
    requires
        a == p || a == q,
        b == p || b == q,
        c == p || c == q,
    ensures
        cross_val(a, b, c) == 0,
{
    lemma_cross_repeat(a, b, c);
}

/// Whether every triple of points in the sequence is collinear.
pub open spec fn all_collinear(coords: Seq<(int, int)>) -> bool {
    forall|i: int, j: int, k: int|
        0 <= i < coords.len() && 0 <= j < coords.len() && 0 <= k < coords.len()
            ==> #[trigger] cross_val(coords[i], coords[j], coords[k]) == 0
}

/// A sequence drawn from only two coordinate values is all collinear.
pub proof fn lemma_two_valued_collinear(coords: Seq<(int, int)>, p: (int, int), q: (int, int))
    requires
        two_valued(coords, p, q),
    ensures
        all_collinear(coords),
{
    assert forall|i: int, j: int, k: int|
        0 <= i < coords.len() && 0 <= j < coords.len() && 0 <= k
            < coords.len() implies #[trigger] cross_val(coords[i], coords[j], coords[k]) == 0 by {
        lemma_cross_two_values(coords[i], coords[j], coords[k], p, q);
    }
}

/// Over an all-collinear point set a chain never grows past two entries:
/// any third point closes a vanishing turn and pops.
proof fn lemma_chain_push_collinear(coords: Seq<(int, int)>, chain: Seq<usize>, c: usize)
    requires
        all_collinear(coords),
        all_below(chain, coords.len() as int),
        c < coords.len(),
        chain.len() <= 2,
    ensures
        chain_push(coords, chain, c).len() <= 2,
    decreases chain.len(),
{
    if chain.len() >= 2 {
        assert(cross_val(
            coords[chain[chain.len() - 2] as int],
            coords[chain[chain.len() - 1] as int],
            coords[c as int],
        ) == 0);
        lemma_chain_push_collinear(coords, chain.drop_last(), c);
    }
}

/// Over an all-collinear point set a whole chain has at most two entries.
proof fn lemma_chain_fold_collinear(coords: Seq<(int, int)>, cands: Seq<usize>)
    requires
        all_collinear(coords),
        all_below(cands, coords.len() as int),
    ensures
        chain_fold(coords, cands).len() <= 2,
    decreases cands.len(),
{
    if cands.len() > 0 {
        lemma_chain_fold_collinear(coords, cands.drop_last());
        lemma_chain_fold_below(coords, cands.drop_last(), coords.len() as int);
        lemma_chain_push_collinear(coords, chain_fold(coords, cands.drop_last()), cands.last());
    }
}

/// An all-collinear point set yields a hull of at most two entries,
/// whatever candidate list is offered: collinear boundary points are pruned
/// and only the extremes can survive.
pub proof fn lemma_collinear_hull_len(coords: Seq<(int, int)>, cands: Seq<usize>)
    requires
        all_collinear(coords),
        all_below(cands, coords.len() as int),
    ensures
        hull_spec(coords, cands).len() <= 2,
{
    if cands.len() > 0 {
        let s = sort_spec(coords, cands);
        lemma_sort_spec_below(coords, cands, coords.len() as int);
        assert(all_below(s.reverse(), coords.len() as int));
        lemma_chain_fold_below(coords, s, coords.len() as int);
        lemma_chain_fold_below(coords, s.reverse(), coords.len() as int);
        lemma_chain_fold_collinear(coords, s);
        lemma_chain_fold_collinear(coords, s.reverse());
    }
}

/// An all-collinear point set yields at most two entries from the whole
/// pipeline, culling included.
pub proof fn lemma_collinear_small_hull(coords: Seq<(int, int)>)
    requires
        1 <= coords.len() <= usize::MAX as int,
        all_collinear(coords),
    ensures
        hull_pipeline(coords).len() <= 2,
{
    lemma_cand_spec_below(coords);
    lemma_collinear_hull_len(coords, cand_spec(coords));
}

/// A chain extension keeps the chain's first entry (the candidate seeds a
/// fresh chain) and always ends with the pushed candidate.
proof fn lemma_chain_push_ends(coords: Seq<(int, int)>, chain: Seq<usize>, c: usize)
    ensures
        chain_push(coords, chain, c)[0] == if chain.len() == 0 {
            c
        } else {
            chain[0]
        },
        chain_push(coords, chain, c).last() == c,
    decreases chain.len(),
{
    if chain.len() >= 2 && cross_val(
        coords[chain[chain.len() - 2] as int],
        coords[chain[chain.len() - 1] as int],
        coords[c as int],
    ) <= 0 {
        lemma_chain_push_ends(coords, chain.drop_last(), c);
    }
}

/// A whole chain starts at the first candidate and ends at the last.
proof fn lemma_chain_fold_ends(coords: Seq<(int, int)>, cands: Seq<usize>)
    requires
        cands.len() >= 1,
    ensures
        chain_fold(coords, cands)[0] == cands[0],
        chain_fold(coords, cands).last() == cands.last(),
    decreases cands.len(),
{
    lemma_chain_push_ends(coords, chain_fold(coords, cands.drop_last()), cands.last());
    if cands.len() >= 2 {
        lemma_chain_fold_ends(coords, cands.drop_last());
        lemma_chain_fold_min2(coords, cands.drop_last());
    }
}

/// Over an all-collinear point set the hull is exactly the two candidates
/// extreme under the sort key, in that order: the first and last entries of
/// the sorted candidate run, and nothing between them.
pub proof fn lemma_collinear_hull_exact(coords: Seq<(int, int)>, cands: Seq<usize>)
    requires
        all_collinear(coords),
        all_below(cands, coords.len() as int),
        cands.len() >= 2,
    ensures
        hull_spec(coords, cands) =~= seq![
            sort_spec(coords, cands)[0],
            sort_spec(coords, cands).last(),
        ],
{
    let s = sort_spec(coords, cands);
    lemma_sort_spec_below(coords, cands, coords.len() as int);
    assert(all_below(s.reverse(), coords.len() as int));
    let lower = chain_fold(coords, s);
    let upper = chain_fold(coords, s.reverse());
    lemma_chain_fold_collinear(coords, s);
    lemma_chain_fold_collinear(coords, s.reverse());
    lemma_chain_fold_min2(coords, s);
    lemma_chain_fold_min2(coords, s.reverse());
    lemma_chain_fold_ends(coords, s);
    lemma_chain_fold_ends(coords, s.reverse());
    assert(lower.len() == 2 && upper.len() == 2);
    assert(s.reverse()[0] == s.last() && s.reverse().last() == s[0]);
    assert(lower[1] == lower.last());
    assert(upper[1] == upper.last());
}

/// Over an all-collinear point set the whole pipeline returns exactly the
/// two sort-key extremes of the candidate set.
pub proof fn lemma_collinear_pipeline_exact(coords: Seq<(int, int)>)
    requires
        1 <= coords.len() <= usize::MAX as int,
        all_collinear(coords),
    ensures
        hull_pipeline(coords) =~= seq![
            sort_spec(coords, cand_spec(coords))[0],
            sort_spec(coords, cand_spec(coords)).last(),
        ],
{
    lemma_cand_spec_below(coords);
    lemma_collinear_hull_exact(coords, cand_spec(coords));
}

/// A point set with at most two distinct coordinate pairs yields a hull of
/// at most two entries, whatever candidate list is offered: no point is
/// fabricated and no degenerate polygon survives.
pub proof fn lemma_two_values_hull_len(
    coords: Seq<(int, int)>,
    cands: Seq<usize>,
    p: (int, int),
    q: (int, int),
)
    requires
        two_valued(coords, p, q),
        all_below(cands, coords.len() as int),
    ensures
        hull_spec(coords, cands).len() <= 2,
{
    lemma_two_valued_collinear(coords, p, q);
    lemma_collinear_hull_len(coords, cands);
}

/// A point set with at most two distinct coordinate pairs yields a hull of
/// at most two entries from the whole pipeline, culling included.
pub proof fn lemma_few_distinct_small_hull(coords: Seq<(int, int)>, p: (int, int), q: (int, int))
    requires
        1 <= coords.len() <= usize::MAX as int,
        two_valued(coords, p, q),
    ensures
        hull_pipeline(coords).len() <= 2,
{
    lemma_cand_spec_below(coords);
    lemma_two_values_hull_len(coords, cand_spec(coords), p, q);
}

// ---------------------------------------------------------------------------
// Candidate coverage
// ---------------------------------------------------------------------------

/// Each extremal scan lands strictly inside the scanned prefix.
pub proof fn lemma_scans_below(coords: Seq<(int, int)>, k: int)
    requires
        k >= 1,
    ensures
        0 <= min_x_scan(coords, k) < k,
        0 <= max_x_scan(coords, k) < k,
        0 <= min_y_scan(coords, k) < k,
        0 <= max_y_scan(coords, k) < k,
    decreases k,
{
    if k > 1 {
        lemma_scans_below(coords, k - 1);
    }
}

/// Every entry of the outside filter is an index into the scanned prefix.
proof fn lemma_outside_list_below(coords: Seq<(int, int)>, quad: Seq<(int, int)>, k: int, n: int)
    requires
        k <= n,
    ensures
        all_below(outside_list(coords, quad, k), n),
    decreases k,
{
    if k > 0 {
        lemma_outside_list_below(coords, quad, k - 1, n);
    }
}

/// Every candidate is a valid index into the point sequence.
pub proof fn lemma_cand_spec_below(coords: Seq<(int, int)>)
    requires
        coords.len() >= 1,
    ensures
        all_below(cand_spec(coords), coords.len() as int),
{
    let n = coords.len() as int;
    lemma_scans_below(coords, n);
    lemma_outside_list_below(coords, quad_spec(coords), n, n);
}

/// The outside filter records exactly the prefix indices that fail the
/// containment test.
proof fn lemma_outside_list_contains(
    coords: Seq<(int, int)>,
    quad: Seq<(int, int)>,
    k: int,
    i: int,
)
    requires
        0 <= i < k,
        !inside_polygon(coords[i], quad),
    ensures
        outside_list(coords, quad, k).contains(i as usize),
    decreases k,
{
    let whole = outside_list(coords, quad, k);
    if i == k - 1 {
        assert(whole[whole.len() - 1] == (k - 1) as usize);
    } else {
        lemma_outside_list_contains(coords, quad, k - 1, i);
        let prefix = outside_list(coords, quad, k - 1);
        let w = choose|j: int| 0 <= j < prefix.len() && prefix[j] == i as usize;
        assert(whole[w] == i as usize);
    }
}

/// The candidate set is a sufficient superset seed: it holds the four
/// extremal indices, and every point that fails the containment test
/// against the culling region appears in it.  Points the hull step never
/// sees were accepted by the containment filter.
pub proof fn lemma_candidates_cover(coords: Seq<(int, int)>)
    requires
        1 <= coords.len() <= usize::MAX as int,
    ensures
        cand_spec(coords)[0] as int == min_x_scan(coords, coords.len() as int),
        cand_spec(coords)[1] as int == min_y_scan(coords, coords.len() as int),
        cand_spec(coords)[2] as int == max_x_scan(coords, coords.len() as int),
        cand_spec(coords)[3] as int == max_y_scan(coords, coords.len() as int),
        forall|i: int|
            0 <= i < coords.len() && !inside_polygon(#[trigger] coords[i], quad_spec(coords))
                ==> cand_spec(coords).contains(i as usize),
{
    let n = coords.len() as int;
    lemma_scans_below(coords, n);
    let head = seq![
        min_x_scan(coords, n) as usize,
        min_y_scan(coords, n) as usize,
        max_x_scan(coords, n) as usize,
        max_y_scan(coords, n) as usize,
    ];
    assert(cand_spec(coords)[0] == head[0]);
    assert(cand_spec(coords)[1] == head[1]);
    assert(cand_spec(coords)[2] == head[2]);
    assert(cand_spec(coords)[3] == head[3]);
    assert forall|i: int|
        0 <= i < n && !inside_polygon(#[trigger] coords[i], quad_spec(coords)) implies cand_spec(
        coords,
    ).contains(i as usize) by {
        lemma_outside_list_contains(coords, quad_spec(coords), n, i);
        let tail = outside_list(coords, quad_spec(coords), n);
        let w = choose|j: int| 0 <= j < tail.len() && tail[j] == i as usize;
        assert(cand_spec(coords)[4 + w] == i as usize);
    }
}

// ---------------------------------------------------------------------------
// Local convexity of the chains
// ---------------------------------------------------------------------------

/// Whether every three consecutive entries of a chain turn strictly
/// clockwise.
pub open spec fn chain_convex(coords: Seq<(int, int)>, ch: Seq<usize>) -> bool {
    forall|m: int|
        0 <= m && m + 2 < ch.len() ==> #[trigger] cross_val(
            coords[ch[m] as int],
            coords[ch[m + 1] as int],
            coords[ch[m + 2] as int],
        ) > 0
}

/// A chain extension keeps every consecutive triple strictly clockwise:
/// popping removes exactly the entries that would close a non-clockwise
/// turn with the new candidate.
proof fn lemma_chain_push_convex(coords: Seq<(int, int)>, chain: Seq<usize>, c: usize)
    requires
        chain_convex(coords, chain),
    ensures
        chain_convex(coords, chain_push(coords, chain, c)),
    decreases chain.len(),
{
    let r = chain_push(coords, chain, c);
    if chain.len() >= 2 && cross_val(
        coords[chain[chain.len() - 2] as int],
        coords[chain[chain.len() - 1] as int],
        coords[c as int],
    ) <= 0 {
        assert(chain_convex(coords, chain.drop_last()));
        lemma_chain_push_convex(coords, chain.drop_last(), c);
    } else {
        assert forall|m: int| 0 <= m && m + 2 < r.len() implies #[trigger] cross_val(
            coords[r[m] as int],
            coords[r[m + 1] as int],
            coords[r[m + 2] as int],
        ) > 0 by {
            if m + 2 < chain.len() {
                assert(cross_val(
                    coords[chain[m] as int],
                    coords[chain[m + 1] as int],
                    coords[chain[m + 2] as int],
                ) > 0);
            }
        }
    }
}

/// Every chain the fold builds turns strictly clockwise at each interior
/// entry: no collinear or counter-clockwise triple survives.
pub proof fn lemma_chain_fold_convex(coords: Seq<(int, int)>, cands: Seq<usize>)
    ensures
        chain_convex(coords, chain_fold(coords, cands)),
    decreases cands.len(),
{
    if cands.len() > 0 {
        lemma_chain_fold_convex(coords, cands.drop_last());
        lemma_chain_push_convex(coords, chain_fold(coords, cands.drop_last()), cands.last());
    }
}

// ---------------------------------------------------------------------------
// Hull entries come from the candidate list
// ---------------------------------------------------------------------------

/// A chain extension introduces no index beyond the chain and the pushed
/// candidate.
proof fn lemma_chain_push_members(coords: Seq<(int, int)>, chain: Seq<usize>, c: usize)
    ensures
        forall|m: int|
            0 <= m < chain_push(coords, chain, c).len()
                ==> #[trigger] chain_push(coords, chain, c)[m] == c || chain.contains(
                chain_push(coords, chain, c)[m],
            ),
    decreases chain.len(),
{
    let r = chain_push(coords, chain, c);
    if chain.len() >= 2 && cross_val(
        coords[chain[chain.len() - 2] as int],
        coords[chain[chain.len() - 1] as int],
        coords[c as int],
    ) <= 0 {
        lemma_chain_push_members(coords, chain.drop_last(), c);
        let inner = chain_push(coords, chain.drop_last(), c);
        assert forall|m: int| 0 <= m < r.len() implies #[trigger] r[m] == c || chain.contains(
            r[m],
        ) by {
            assert(inner[m] == r[m]);
            if r[m] != c {
                assert(chain.drop_last().contains(inner[m]));
                let w = choose|j: int|
                    0 <= j < chain.drop_last().len() && chain.drop_last()[j] == r[m];
                assert(chain[w] == r[m]);
            }
        }
    } else {
        assert forall|m: int| 0 <= m < r.len() implies #[trigger] r[m] == c || chain.contains(
            r[m],
        ) by {
            if m < chain.len() {
                assert(chain[m] == r[m]);
            }
        }
    }
}

/// A whole chain holds only candidate indices.
proof fn lemma_chain_fold_members(coords: Seq<(int, int)>, cands: Seq<usize>)
    ensures
        forall|m: int|
            0 <= m < chain_fold(coords, cands).len() ==> cands.contains(
                #[trigger] chain_fold(coords, cands)[m],
            ),
    decreases cands.len(),
{
    let r = chain_fold(coords, cands);
    if cands.len() > 0 {
        let prior = chain_fold(coords, cands.drop_last());
        lemma_chain_fold_members(coords, cands.drop_last());
        lemma_chain_push_members(coords, prior, cands.last());
        assert forall|m: int| 0 <= m < r.len() implies cands.contains(#[trigger] r[m]) by {
            if r[m] == cands.last() {
                assert(cands[cands.len() - 1] == r[m]);
            } else {
                let w = choose|j: int| 0 <= j < prior.len() && prior[j] == r[m];
                let w2 = choose|j: int|
                    0 <= j < cands.drop_last().len() && cands.drop_last()[j] == prior[w];
                assert(cands[w2] == r[m]);
            }
        }
    }
}

/// Every hull entry is drawn from the candidate list: the hull fabricates
/// no index, so mapped back to coordinates it visits input points only.
pub proof fn lemma_hull_spec_members(coords: Seq<(int, int)>, cands: Seq<usize>)
    ensures
        forall|m: int|
            0 <= m < hull_spec(coords, cands).len() ==> cands.contains(
                #[trigger] hull_spec(coords, cands)[m],
            ),
{
    if cands.len() == 0 {
    } else {
        let s = sort_spec(coords, cands);
        let r = hull_spec(coords, cands);
        let lower = chain_fold(coords, s);
        let upper = chain_fold(coords, s.reverse());
        lemma_sort_spec_sorted(coords, cands);
        cands.to_multiset_ensures();
        s.to_multiset_ensures();
        lemma_chain_fold_members(coords, s);
        lemma_chain_fold_members(coords, s.reverse());
        assert(s.len() == cands.len());
        lemma_chain_fold_min2(coords, s);
        lemma_chain_fold_min2(coords, s.reverse());
        assert(lower.len() >= 1 && upper.len() >= 1);
        assert(r == lower.drop_last() + upper.drop_last());
        assert forall|m: int| 0 <= m < r.len() implies cands.contains(#[trigger] r[m]) by {
            let x = r[m];
            if m < lower.drop_last().len() {
                assert(r[m] == lower.drop_last()[m]);
                assert(lower.drop_last()[m] == lower[m]);
                assert(s.contains(x));
            } else {
                let m2 = m - lower.drop_last().len();
                assert(upper[m2] == x);
                assert(s.reverse().contains(x));
                let w = choose|j: int| 0 <= j < s.reverse().len() && s.reverse()[j] == x;
                assert(s[s.len() - 1 - w] == x);
                assert(s.contains(x));
            }
            assert(s.to_multiset().count(x) > 0);
            assert(cands.to_multiset().count(x) > 0);
        }
    }
}

// ---------------------------------------------------------------------------
// The hull is never empty
// ---------------------------------------------------------------------------

/// A chain extension always leaves at least one entry.
proof fn lemma_chain_push_nonempty(coords: Seq<(int, int)>, chain: Seq<usize>, c: usize)
    ensures
        chain_push(coords, chain, c).len() >= 1,
    decreases chain.len(),
{
    if chain.len() >= 2 && cross_val(
        coords[chain[chain.len() - 2] as int],
        coords[chain[chain.len() - 1] as int],
        coords[c as int],
    ) <= 0 {
        lemma_chain_push_nonempty(coords, chain.drop_last(), c);
    }
}

/// A chain extension of a nonempty chain leaves at least two entries: the
/// chain's first point is never popped, and the candidate is appended.
proof fn lemma_chain_push_min2(coords: Seq<(int, int)>, chain: Seq<usize>, c: usize)
    requires
        chain.len() >= 1,
    ensures
        chain_push(coords, chain, c).len() >= 2,
    decreases chain.len(),
{
    if chain.len() >= 2 && cross_val(
        coords[chain[chain.len() - 2] as int],
        coords[chain[chain.len() - 1] as int],
        coords[c as int],
    ) <= 0 {
        lemma_chain_push_min2(coords, chain.drop_last(), c);
    }
}

/// A chain over a nonempty candidate list is nonempty, and over two or more
/// candidates holds at least two entries.
proof fn lemma_chain_fold_min2(coords: Seq<(int, int)>, cands: Seq<usize>)
    ensures
        cands.len() >= 1 ==> chain_fold(coords, cands).len() >= 1,
        cands.len() >= 2 ==> chain_fold(coords, cands).len() >= 2,
    decreases cands.len(),
{
    if cands.len() >= 2 {
        lemma_chain_fold_min2(coords, cands.drop_last());
        lemma_chain_push_min2(coords, chain_fold(coords, cands.drop_last()), cands.last());
    } else if cands.len() == 1 {
        lemma_chain_push_nonempty(coords, chain_fold(coords, cands.drop_last()), cands.last());
    }
}

/// The hull of two or more candidates holds at least two entries.
pub proof fn lemma_hull_spec_min2(coords: Seq<(int, int)>, cands: Seq<usize>)
    requires
        cands.len() >= 2,
    ensures
        hull_spec(coords, cands).len() >= 2,
{
    let s = sort_spec(coords, cands);
    let big = usize::MAX as int + 1;
    assert(all_below(cands, big));
    lemma_sort_spec_below(coords, cands, big);
    lemma_chain_fold_min2(coords, s);
    lemma_chain_fold_min2(coords, s.reverse());
}

/// The whole pipeline never returns an empty hull: even a single repeated
/// point yields a (degenerate) two-entry boundary, and callers always get a
/// polygon to walk.
pub proof fn lemma_hull_never_empty(coords: Seq<(int, int)>)
    requires
        1 <= coords.len() <= usize::MAX as int,
    ensures
        hull_pipeline(coords).len() >= 2,
{
    lemma_hull_spec_min2(coords, cand_spec(coords));
}

// ---------------------------------------------------------------------------
// Determinism
// ---------------------------------------------------------------------------

/// The hull pipeline is a function of the coordinate sequence alone: two
/// runs over equal coordinates give equal index sequences, so repeating a
/// computation on an unchanged input repeats its output.
pub proof fn lemma_hull_idempotent(a: Seq<(int, int)>, b: Seq<(int, int)>)
    requires
        a == b,
    ensures
        hull_pipeline(a) == hull_pipeline(b),
{
}

} // verus!

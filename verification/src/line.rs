//! The slide/merge rule for one line of the grid.
//!
//! A line is four 8-bit exponent cells (0 = empty, `n >= 1` = a tile of value
//! `2^n`). Sliding a line towards index 0 makes three passes: compact the
//! non-zero cells to the front preserving order, merge each adjacent equal
//! pair (left to right, each cell in at most one merge) into the left cell
//! with the exponent incremented, and compact again. The specification-level
//! model of the three passes is `slide_spec`, built from `compact_spec` and
//! `merge_rec`.

use vstd::prelude::*;

verus! {

/// Number of cells along one side of the grid, and in one line.
pub const GRID: usize = 4;

/// 1 for an occupied cell, 0 for an empty one.
pub open spec fn nz(x: u8) -> int {
    if x == 0 {
        0int
    } else {
        1int
    }
}

/// The non-zero cells of `s`, in order.
pub open spec fn nonzeros(s: Seq<u8>) -> Seq<u8>
    decreases s.len(),
{
    if s.len() == 0 {
        Seq::empty()
    } else if s.last() == 0 {
        nonzeros(s.drop_last())
    } else {
        nonzeros(s.drop_last()).push(s.last())
    }
}

/// How many cells of `s` are occupied.
pub open spec fn occ(s: Seq<u8>) -> int {
    nonzeros(s).len() as int
}

/// No empty cell stands before an occupied one.
pub open spec fn is_compacted(s: Seq<u8>) -> bool {
    forall|i: int, j: int| 0 <= i < j < s.len() && s[i] == 0 ==> s[j] == 0
}

/// The non-zero cells of `s` shifted to the front, order kept, zeros after.
pub open spec fn compact_spec(s: Seq<u8>) -> Seq<u8> {
    nonzeros(s) + Seq::new((s.len() - nonzeros(s).len()) as nat, |i: int| 0u8)
}

/// No merge is possible at or after position `i`: no two adjacent equal
/// occupied cells.
pub open spec fn merge_free_from(s: Seq<u8>, i: int) -> bool {
    forall|j: int| i <= j < s.len() - 1 ==> !(#[trigger] s[j] != 0 && s[j] == s[j + 1])
}

/// No merge is possible anywhere in `s`.
pub open spec fn merge_free(s: Seq<u8>) -> bool {
    merge_free_from(s, 0)
}

/// The single left-to-right merge pass, resumed at position `i`: an adjacent
/// equal occupied pair merges into its left cell with the exponent
/// incremented, the right cell becomes empty, and the scan continues after
/// the merged-into cell, so no cell merges twice.
pub open spec fn merge_rec(s: Seq<u8>, i: int) -> Seq<u8>
    decreases s.len() - i when 0 <= i
{
    if i + 1 >= s.len() {
        s
    } else if s[i] != 0 && s[i] == s[i + 1] {
        merge_rec(s.update(i, (s[i] + 1) as u8).update(i + 1, 0u8), i + 1)
    } else {
        merge_rec(s, i + 1)
    }
}

/// The full slide of a line towards index 0: compact, merge once, compact.
pub open spec fn slide_spec(s: Seq<u8>) -> Seq<u8> {
    compact_spec(merge_rec(compact_spec(s), 0))
}

/// The line read back to front.
pub open spec fn rev4(s: Seq<u8>) -> Seq<u8> {
    Seq::new(s.len(), |i: int| s[s.len() - 1 - i])
}

pub proof fn lemma_nonzeros_len(s: Seq<u8>)
    ensures
        nonzeros(s).len() <= s.len(),
    decreases s.len(),
{
    if s.len() > 0 {
        lemma_nonzeros_len(s.drop_last());
    }
}

pub proof fn lemma_nonzeros_all_nonzero(s: Seq<u8>)
    ensures
        forall|k: int| 0 <= k < nonzeros(s).len() ==> nonzeros(s)[k] != 0,
    decreases s.len(),
{
    if s.len() > 0 {
        let dl = s.drop_last();
        lemma_nonzeros_all_nonzero(dl);
        if s.last() != 0 {
            assert forall|k: int| 0 <= k < nonzeros(s).len() implies nonzeros(s)[k] != 0 by {
                assert(nonzeros(s) == nonzeros(dl).push(s.last()));
                if k < nonzeros(dl).len() {
                    assert(nonzeros(s)[k] == nonzeros(dl)[k]);
                }
            }
        }
    }
}

/// Every cell of `nonzeros(s)` is a cell of `s`, so bounds on the cells of
/// `s` carry over.
pub proof fn lemma_nonzeros_bounded(s: Seq<u8>, b: u8)
    requires
        forall|j: int| 0 <= j < s.len() ==> s[j] < b,
    ensures
        forall|k: int| 0 <= k < nonzeros(s).len() ==> nonzeros(s)[k] < b,
    decreases s.len(),
{
    if s.len() > 0 {
        let dl = s.drop_last();
        assert(forall|j: int| 0 <= j < dl.len() ==> #[trigger] dl[j] == s[j]);
        lemma_nonzeros_bounded(dl, b);
        if s.last() != 0 {
            assert forall|k: int| 0 <= k < nonzeros(s).len() implies nonzeros(s)[k] < b by {
                assert(nonzeros(s) == nonzeros(dl).push(s.last()));
                if k < nonzeros(dl).len() {
                    assert(nonzeros(s)[k] == nonzeros(dl)[k]);
                } else {
                    assert(nonzeros(s)[k] == s.last());
                    assert(s[s.len() - 1] < b);
                }
            }
        }
    }
}

/// As `lemma_nonzeros_bounded`, with an inclusive bound.
pub proof fn lemma_nonzeros_bounded_le(s: Seq<u8>, b: u8)
    requires
        forall|j: int| 0 <= j < s.len() ==> s[j] <= b,
    ensures
        forall|k: int| 0 <= k < nonzeros(s).len() ==> nonzeros(s)[k] <= b,
    decreases s.len(),
{
    if s.len() > 0 {
        let dl = s.drop_last();
        assert(forall|j: int| 0 <= j < dl.len() ==> #[trigger] dl[j] == s[j]);
        lemma_nonzeros_bounded_le(dl, b);
        if s.last() != 0 {
            assert forall|k: int| 0 <= k < nonzeros(s).len() implies nonzeros(s)[k] <= b by {
                assert(nonzeros(s) == nonzeros(dl).push(s.last()));
                if k < nonzeros(dl).len() {
                    assert(nonzeros(s)[k] == nonzeros(dl)[k]);
                } else {
                    assert(nonzeros(s)[k] == s.last());
                    assert(s[s.len() - 1] <= b);
                }
            }
        }
    }
}

pub proof fn lemma_nonzeros_push(s: Seq<u8>, x: u8)
    ensures
        x == 0 ==> nonzeros(s.push(x)) == nonzeros(s),
        x != 0 ==> nonzeros(s.push(x)) == nonzeros(s).push(x),
{
    assert(s.push(x).drop_last() =~= s);
    assert(s.push(x).last() == x);
}

pub proof fn lemma_nonzeros_all_id(s: Seq<u8>)
    requires
        forall|j: int| 0 <= j < s.len() ==> s[j] != 0,
    ensures
        nonzeros(s) == s,
    decreases s.len(),
{
    if s.len() == 0 {
        assert(nonzeros(s) =~= s);
    } else {
        lemma_nonzeros_all_id(s.drop_last());
        assert(nonzeros(s) =~= s);
    }
}

/// Occupancy counts the whole line exactly when no cell is empty.
pub proof fn lemma_occ_full(s: Seq<u8>)
    ensures
        (occ(s) == s.len()) <==> (forall|j: int| 0 <= j < s.len() ==> s[j] != 0),
    decreases s.len(),
{
    lemma_nonzeros_len(s);
    if s.len() > 0 {
        let dl = s.drop_last();
        lemma_nonzeros_len(dl);
        lemma_occ_full(dl);
        assert(forall|j: int| 0 <= j < dl.len() ==> #[trigger] dl[j] == s[j]);
        if s.last() == 0 {
            assert(s[s.len() - 1] == 0);
            assert(occ(s) == occ(dl) < s.len());
        } else {
            assert(occ(s) == occ(dl) + 1);
            if occ(s) == s.len() {
                assert(occ(dl) == dl.len());
                assert forall|j: int| 0 <= j < s.len() implies s[j] != 0 by {
                    if j < s.len() - 1 {
                        assert(dl[j] != 0);
                        assert(dl[j] == s[j]);
                    } else {
                        assert(s[j] == s.last());
                    }
                }
            }
            if forall|j: int| 0 <= j < s.len() ==> s[j] != 0 {
                assert(forall|j: int| 0 <= j < dl.len() ==> #[trigger] dl[j] != 0);
            }
        }
    }
}

/// Replacing one cell changes occupancy by exactly the difference of the two
/// cells' occupation.
pub proof fn lemma_occ_update(s: Seq<u8>, i: int, v: u8)
    requires
        0 <= i < s.len(),
    ensures
        occ(s.update(i, v)) == occ(s) - nz(s[i]) + nz(v),
    decreases s.len(),
{
    if i == s.len() - 1 {
        assert(s.update(i, v) =~= s.drop_last().push(v));
        assert(s =~= s.drop_last().push(s.last()));
        lemma_nonzeros_push(s.drop_last(), v);
        lemma_nonzeros_push(s.drop_last(), s.last());
    } else {
        lemma_occ_update(s.drop_last(), i, v);
        assert(s.update(i, v).drop_last() =~= s.drop_last().update(i, v));
        assert(s.update(i, v).last() == s.last());
    }
}

pub proof fn lemma_nonzeros_concat(a: Seq<u8>, b: Seq<u8>)
    ensures
        nonzeros(a + b) == nonzeros(a) + nonzeros(b),
    decreases b.len(),
{
    if b.len() == 0 {
        assert(a + b =~= a);
        assert(nonzeros(a) + nonzeros(b) =~= nonzeros(a));
    } else {
        lemma_nonzeros_concat(a, b.drop_last());
        assert((a + b).drop_last() =~= a + b.drop_last());
        assert((a + b).last() == b.last());
        assert(b =~= b.drop_last().push(b.last()));
        lemma_nonzeros_push(b.drop_last(), b.last());
        if b.last() != 0 {
            assert(nonzeros(a) + nonzeros(b) =~= (nonzeros(a) + nonzeros(b.drop_last())).push(
                b.last(),
            ));
        }
    }
}

pub proof fn lemma_nonzeros_zeros(n: nat)
    ensures
        nonzeros(Seq::new(n, |i: int| 0u8)) == Seq::<u8>::empty(),
    decreases n,
{
    if n > 0 {
        lemma_nonzeros_zeros((n - 1) as nat);
        assert(Seq::new(n, |i: int| 0u8).drop_last() =~= Seq::new((n - 1) as nat, |i: int| 0u8));
    }
}

/// What compaction does: same length, same occupancy, the occupied cells in
/// order at the front, zeros after, and the result is compacted.
pub proof fn lemma_compact_props(s: Seq<u8>)
    ensures
        compact_spec(s).len() == s.len(),
        nonzeros(compact_spec(s)) == nonzeros(s),
        occ(compact_spec(s)) == occ(s),
        is_compacted(compact_spec(s)),
        forall|k: int| 0 <= k < occ(s) ==> compact_spec(s)[k] == nonzeros(s)[k],
        forall|k: int| occ(s) <= k < s.len() ==> compact_spec(s)[k] == 0,
{
    lemma_nonzeros_len(s);
    lemma_nonzeros_all_nonzero(s);
    let z = Seq::new((s.len() - nonzeros(s).len()) as nat, |i: int| 0u8);
    lemma_nonzeros_concat(nonzeros(s), z);
    lemma_nonzeros_all_id(nonzeros(s));
    lemma_nonzeros_zeros(z.len());
    assert(nonzeros(s) + Seq::<u8>::empty() =~= nonzeros(s));
}

/// A compacted line is already its own compaction.
pub proof fn lemma_compacted_id(s: Seq<u8>)
    requires
        is_compacted(s),
    ensures
        compact_spec(s) == s,
    decreases s.len(),
{
    lemma_nonzeros_len(s);
    if s.len() == 0 {
        assert(compact_spec(s) =~= s);
    } else if s.last() == 0 {
        let dl = s.drop_last();
        assert(is_compacted(dl)) by {
            assert(forall|i: int, j: int|
                0 <= i < j < dl.len() && #[trigger] dl[i] == 0 ==> s[i] == 0 && #[trigger] s[j]
                    == dl[j]);
        }
        lemma_compacted_id(dl);
        lemma_compact_props(dl);
        lemma_compact_props(s);
        lemma_nonzeros_len(dl);
        assert(nonzeros(s) == nonzeros(dl));
        assert forall|k: int| 0 <= k < s.len() implies compact_spec(s)[k] == s[k] by {
            if k < occ(s) {
                assert(compact_spec(s)[k] == nonzeros(s)[k]);
                assert(compact_spec(dl)[k] == nonzeros(dl)[k]);
                assert(dl[k] == s[k]);
            } else if k < s.len() - 1 {
                assert(compact_spec(s)[k] == 0);
                assert(compact_spec(dl)[k] == 0);
                assert(dl[k] == s[k]);
            } else {
                assert(s[k] == 0);
            }
        }
        assert(compact_spec(s) =~= s);
    } else {
        assert(forall|j: int| 0 <= j < s.len() ==> s[j] != 0) by {
            assert(s[s.len() - 1] != 0);
        }
        lemma_nonzeros_all_id(s);
        assert(compact_spec(s) =~= s);
    }
}

pub proof fn lemma_merge_len(s: Seq<u8>, i: int)
    requires
        0 <= i,
    ensures
        merge_rec(s, i).len() == s.len(),
    decreases s.len() - i,
{
    if i + 1 < s.len() {
        if s[i] != 0 && s[i] == s[i + 1] {
            lemma_merge_len(s.update(i, (s[i] + 1) as u8).update(i + 1, 0u8), i + 1);
        } else {
            lemma_merge_len(s, i + 1);
        }
    }
}

/// Merging never raises occupancy, and lowers it strictly as soon as any
/// merge is possible in the scanned part.
pub proof fn lemma_merge_occ(s: Seq<u8>, i: int)
    requires
        0 <= i,
    ensures
        occ(merge_rec(s, i)) <= occ(s),
        !merge_free_from(s, i) ==> occ(merge_rec(s, i)) < occ(s),
    decreases s.len() - i,
{
    if i + 1 >= s.len() {
        assert(merge_free_from(s, i));
    } else if s[i] != 0 && s[i] == s[i + 1] {
        let s1 = s.update(i, (s[i] + 1) as u8).update(i + 1, 0u8);
        lemma_occ_update(s, i, (s[i] + 1) as u8);
        lemma_occ_update(s.update(i, (s[i] + 1) as u8), i + 1, 0u8);
        lemma_merge_occ(s1, i + 1);
        assert(!merge_free_from(s, i));
    } else {
        lemma_merge_occ(s, i + 1);
        if !merge_free_from(s, i) {
            assert(!merge_free_from(s, i + 1)) by {
                let j = choose|j: int|
                    i <= j < s.len() - 1 && #[trigger] s[j] != 0 && s[j] == s[j + 1];
                assert(j != i);
                assert(i + 1 <= j < s.len() - 1 && s[j] != 0 && s[j] == s[j + 1]);
            }
        }
    }
}

/// Where no merge is possible, the merge pass changes nothing.
pub proof fn lemma_merge_free_id(s: Seq<u8>, i: int)
    requires
        0 <= i,
        merge_free_from(s, i),
    ensures
        merge_rec(s, i) == s,
    decreases s.len() - i,
{
    if i + 1 < s.len() {
        lemma_merge_free_id(s, i + 1);
    }
}

/// Sliding a line is idempotent exactly on the lines whose slide leaves no
/// adjacent equal occupied pair behind: sliding such a result again returns
/// it unchanged, while a result that still holds a mergeable pair slides to
/// something new.
pub proof fn lemma_slide_idempotent(l: Seq<u8>)
    ensures
        merge_free(slide_spec(l)) ==> slide_spec(slide_spec(l)) == slide_spec(l),
        !merge_free(slide_spec(l)) ==> slide_spec(slide_spec(l)) != slide_spec(l),
{
    let m = slide_spec(l);
    lemma_compact_props(merge_rec(compact_spec(l), 0));
    assert(is_compacted(m));
    lemma_compacted_id(m);
    assert(slide_spec(m) == compact_spec(merge_rec(m, 0)));
    if merge_free(m) {
        lemma_merge_free_id(m, 0);
        lemma_compacted_id(m);
    } else {
        lemma_merge_occ(m, 0);
        lemma_compact_props(merge_rec(m, 0));
        assert(occ(slide_spec(m)) < occ(m));
    }
}

pub proof fn lemma_slide_len(s: Seq<u8>)
    ensures
        slide_spec(s).len() == s.len(),
{
    lemma_compact_props(s);
    lemma_merge_len(compact_spec(s), 0);
    lemma_compact_props(merge_rec(compact_spec(s), 0));
}

/// Sliding a line never raises its occupancy.
pub proof fn lemma_slide_occ(s: Seq<u8>)
    ensures
        occ(slide_spec(s)) <= occ(s),
{
    lemma_compact_props(s);
    lemma_merge_occ(compact_spec(s), 0);
    lemma_compact_props(merge_rec(compact_spec(s), 0));
}

/// The single merge pass raises no cell above `b` when the unscanned cells
/// are below `b` and the scanned ones at most `b`: each merge increments an
/// unscanned cell once and never revisits it.
pub proof fn lemma_merge_bounded(s: Seq<u8>, i: int, b: u8)
    requires
        0 <= i,
        b < 255,
        forall|j: int| i <= j < s.len() ==> s[j] < b,
        forall|j: int| 0 <= j < i ==> s[j] <= b,
    ensures
        forall|j: int| 0 <= j < merge_rec(s, i).len() ==> merge_rec(s, i)[j] <= b,
    decreases s.len() - i,
{
    if i + 1 >= s.len() {
        assert(merge_rec(s, i) == s);
        assert(forall|j: int| 0 <= j < s.len() ==> s[j] <= b);
    } else if s[i] != 0 && s[i] == s[i + 1] {
        let s1 = s.update(i, (s[i] + 1) as u8).update(i + 1, 0u8);
        assert(b > 0);
        assert(s1[i] == s[i] + 1 && s1[i + 1] == 0);
        assert(forall|j: int| i + 1 <= j < s1.len() ==> s1[j] < b);
        assert(forall|j: int| 0 <= j < i + 1 ==> s1[j] <= b);
        lemma_merge_bounded(s1, i + 1, b);
        assert(merge_rec(s, i) == merge_rec(s1, i + 1));
    } else {
        lemma_merge_bounded(s, i + 1, b);
        assert(merge_rec(s, i) == merge_rec(s, i + 1));
    }
}

/// Sliding a line whose cells are all below `b` leaves every cell at most
/// `b`: a cell grows only by merging, and merges once at most.
pub proof fn lemma_slide_bounded(s: Seq<u8>, b: u8)
    requires
        b < 255,
        forall|j: int| 0 <= j < s.len() ==> s[j] < b,
    ensures
        forall|j: int| 0 <= j < slide_spec(s).len() ==> slide_spec(s)[j] <= b,
{
    lemma_compact_props(s);
    lemma_nonzeros_bounded(s, b);
    let comp = compact_spec(s);
    assert(forall|j: int| 0 <= j < comp.len() ==> comp[j] < b);
    lemma_merge_bounded(comp, 0, b);
    let merged = merge_rec(comp, 0);
    lemma_merge_len(comp, 0);
    lemma_compact_props(merged);
    lemma_nonzeros_bounded_le(merged, b);
}

/// On a four-cell line, occupancy is the plain sum of the cells' occupation.
pub proof fn lemma_occ4_eq(s: Seq<u8>)
    requires
        s.len() == 4,
    ensures
        occ(s) == nz(s[0]) + nz(s[1]) + nz(s[2]) + nz(s[3]),
{
    let s3 = s.drop_last();
    let s2 = s3.drop_last();
    let s1 = s2.drop_last();
    let s0 = s1.drop_last();
    assert(s0.len() == 0);
    assert(nonzeros(s0).len() == 0);
    assert(s1.last() == s[0] && s2.last() == s[1] && s3.last() == s[2] && s.last() == s[3]);
    assert(nonzeros(s1).len() == nz(s[0]));
    assert(nonzeros(s2).len() == nz(s[0]) + nz(s[1]));
    assert(nonzeros(s3).len() == nz(s[0]) + nz(s[1]) + nz(s[2]));
}

/// Reading a line back to front does not change its occupancy.
pub proof fn lemma_occ_rev4(s: Seq<u8>)
    requires
        s.len() == 4,
    ensures
        occ(rev4(s)) == occ(s),
{
    lemma_occ4_eq(s);
    assert(rev4(s).len() == 4);
    lemma_occ4_eq(rev4(s));
    assert(rev4(s)[0] == s[3] && rev4(s)[1] == s[2] && rev4(s)[2] == s[1] && rev4(s)[3] == s[0]);
}

/// Compact the occupied cells of the line to the front, preserving their
/// order; reports whether any cell changed position.
fn compact_line(line: &mut Vec<u8>) -> (shifted: bool)
    requires
        old(line)@.len() == GRID,
    ensures
        final(line)@ == compact_spec(old(line)@),
        shifted == !is_compacted(old(line)@),
{
    let ghost orig = line@;
    let mut shifted = false;
    let mut target: usize = 0;
    let mut i: usize = 0;
    while i < GRID
        invariant
            orig.len() == GRID,
            line@.len() == GRID,
            target <= i <= GRID,
            target == occ(orig.subrange(0, i as int)),
            line@.subrange(0, target as int) == nonzeros(orig.subrange(0, i as int)),
            forall|j: int| target <= j < i ==> line@[j] == 0,
            forall|j: int| i <= j < GRID ==> line@[j] == orig[j],
            shifted == !is_compacted(orig.subrange(0, i as int)),
        decreases GRID - i,
    {
        let ghost pre = orig.subrange(0, i as int);
        let ghost post = orig.subrange(0, i as int + 1);
        proof {
            assert(post =~= pre.push(orig[i as int]));
            lemma_nonzeros_push(pre, orig[i as int]);
            lemma_nonzeros_len(pre);
            lemma_occ_full(pre);
        }
        if line[i] != 0 {
            if i != target {
                let v = line[i];
                line[target] = v;
                line[i] = 0;
                proof {
                    assert(!is_compacted(post)) by {
                        let z = choose|z: int| 0 <= z < pre.len() && #[trigger] pre[z] == 0;
                        assert(post[z] == 0 && post[i as int] != 0);
                    }
                }
                shifted = true;
            } else {
                proof {
                    assert(is_compacted(post)) by {
                        assert(forall|j: int| 0 <= j < pre.len() ==> pre[j] != 0);
                    }
                }
            }
            target = target + 1;
        } else {
            proof {
                assert(is_compacted(post) == is_compacted(pre)) by {
                    if is_compacted(pre) {
                        assert(forall|a: int, b: int|
                            0 <= a < b < post.len() && post[a] == 0 ==> post[b] == 0);
                    } else {
                        let (a0, b0) = choose|a0: int, b0: int|
                            0 <= a0 < b0 < pre.len() && #[trigger] pre[a0] == 0 && #[trigger] pre[b0]
                                != 0;
                        assert(post[a0] == 0 && post[b0] != 0);
                    }
                }
            }
        }
        i = i + 1;
        proof {
            assert(line@.subrange(0, target as int) =~= nonzeros(orig.subrange(0, i as int)));
        }
    }
    proof {
        assert(orig.subrange(0, GRID as int) =~= orig);
        lemma_compact_props(orig);
        assert(line@ =~= compact_spec(orig));
    }
    shifted
}

/// Slide one line towards index 0: compact, merge adjacent equal pairs once
/// (left to right, each cell in at most one merge), compact again. Returns
/// whether any cell changed value or position.
pub fn slide_line(line: &mut Vec<u8>) -> (moved: bool)
    requires
        old(line)@.len() == GRID,
        forall|i: int| 0 <= i < GRID ==> old(line)@[i] < 255,
    ensures
        final(line)@.len() == GRID,
        final(line)@ == slide_spec(old(line)@),
        moved == (final(line)@ != old(line)@),
        occ(final(line)@) <= occ(old(line)@),
{
    let ghost orig = line@;
    let shifted = compact_line(line);
    let ghost comp = line@;
    proof {
        lemma_compact_props(orig);
        lemma_nonzeros_bounded(orig, 255);
        assert(forall|j: int| 0 <= j < GRID ==> comp[j] < 255) by {
            assert(forall|k: int| 0 <= k < occ(orig) ==> comp[k] == nonzeros(orig)[k]);
        }
    }
    let mut merged = false;
    let mut i: usize = 0;
    while i < GRID - 1
        invariant
            line@.len() == GRID,
            i <= GRID - 1,
            merge_rec(line@, i as int) == merge_rec(comp, 0),
            occ(line@) <= occ(comp),
            merged ==> occ(line@) < occ(comp),
            !merged ==> line@ == comp,
            forall|j: int| i <= j < GRID ==> line@[j] < 255,
        decreases GRID - 1 - i,
    {
        let ghost before = line@;
        if line[i] != 0 && line[i] == line[i + 1] {
            let v = line[i];
            line[i] = v + 1;
            line[i + 1] = 0;
            merged = true;
            proof {
                assert(line@ =~= before.update(i as int, (before[i as int] + 1) as u8).update(
                    i as int + 1,
                    0u8,
                ));
                lemma_occ_update(before, i as int, (before[i as int] + 1) as u8);
                lemma_occ_update(
                    before.update(i as int, (before[i as int] + 1) as u8),
                    i as int + 1,
                    0u8,
                );
                assert(merge_rec(before, i as int) == merge_rec(line@, i as int + 1));
            }
        } else {
            proof {
                assert(merge_rec(before, i as int) == merge_rec(before, i as int + 1));
            }
        }
        i = i + 1;
    }
    proof {
        assert(merge_rec(line@, GRID - 1) == line@);
    }
    let ghost after_merge = line@;
    let _ = compact_line(line);
    let moved = shifted || merged;
    proof {
        assert(after_merge == merge_rec(comp, 0));
        assert(line@ == slide_spec(orig));
        lemma_compact_props(after_merge);
        if merged {
            assert(occ(line@) < occ(orig));
            assert(line@ != orig);
        } else {
            assert(after_merge == compact_spec(orig));
            lemma_compacted_id(after_merge);
            assert(line@ == compact_spec(orig));
            if shifted {
                assert(line@ != orig) by {
                    if compact_spec(orig) == orig {
                        assert(is_compacted(orig));
                    }
                }
            } else {
                lemma_compacted_id(orig);
                assert(line@ == orig);
            }
        }
    }
    moved
}

} // verus!

//! The line transform: pack, merge, pack again.
//!
//! A move acts on each of the four lines of the grid independently.  This
//! module models one line as a sequence of four cells, slid toward index 0
//! (`slide_line`) or toward index 3 (`slide_line_back`), and provides the
//! executable transforms together with the conservation laws.

use vstd::prelude::*;
use vstd::multiset::Multiset;
use vstd::multiset::group_multiset_axioms;

verus! {

/// Tile value at which the game is won.
pub const WIN_TILE: u32 = 2048;

/// Upper bound on the sum of all tiles of a well-formed grid.  Keeping the
/// sum below this bound guarantees that a merge result `2 * v` never
/// overflows a `u32`, because a merge needs two cells of value `v`.
pub const MAX_GRID_SUM: u32 = 0x8000_0000;

/// A power of two (1, 2, 4, ...).
pub open spec fn is_pow2(v: int) -> bool
    decreases v,
{
    if v <= 0 {
        false
    } else if v == 1 {
        true
    } else {
        v % 2 == 0 && is_pow2(v / 2)
    }
}

/// A legal cell value: empty, or a power of two that is at least 2.
pub open spec fn valid_tile(v: u32) -> bool {
    v == 0 || (v >= 2 && is_pow2(v as int))
}

/// Sum of the values of a sequence of cells.
pub open spec fn sum_vals(s: Seq<u32>) -> int
    decreases s.len(),
{
    if s.len() == 0 {
        0
    } else {
        s.first() + sum_vals(s.drop_first())
    }
}

pub proof fn lemma_sum_nonneg(s: Seq<u32>)
    ensures
        sum_vals(s) >= 0,
    decreases s.len(),
{
    if s.len() > 0 {
        lemma_sum_nonneg(s.drop_first());
    }
}

pub proof fn lemma_sum_push(s: Seq<u32>, x: u32)
    ensures
        sum_vals(s.push(x)) == sum_vals(s) + x,
    decreases s.len(),
{
    if s.len() == 0 {
        assert(s.push(x).len() == 1);
        assert(s.push(x)[0] == x);
        assert(s.push(x).drop_first() =~= Seq::<u32>::empty());
        assert(sum_vals(Seq::<u32>::empty()) == 0);
    } else {
        assert(s.push(x)[0] == s[0]);
        assert(s.push(x).drop_first() =~= s.drop_first().push(x));
        lemma_sum_push(s.drop_first(), x);
    }
}

pub proof fn lemma_sum_update(s: Seq<u32>, i: int, x: u32)
    requires
        0 <= i < s.len(),
    ensures
        sum_vals(s.update(i, x)) == sum_vals(s) - s[i] + x,
    decreases s.len(),
{
    if i == 0 {
        assert(s.update(0, x).drop_first() =~= s.drop_first());
    } else {
        assert(s.update(i, x).drop_first() =~= s.drop_first().update(i - 1, x));
        lemma_sum_update(s.drop_first(), i - 1, x);
    }
}

/// Every cell is bounded by the sum of its line.
pub proof fn lemma_elem_le_sum(s: Seq<u32>, i: int)
    requires
        0 <= i < s.len(),
    ensures
        s[i] <= sum_vals(s),
    decreases s.len(),
{
    lemma_sum_nonneg(s.drop_first());
    if i > 0 {
        lemma_elem_le_sum(s.drop_first(), i - 1);
    }
}

/// Unfolded form of `sum_vals` for a four-cell line.
pub proof fn lemma_sum4(s: Seq<u32>)
    requires
        s.len() == 4,
    ensures
        sum_vals(s) == s[0] + s[1] + s[2] + s[3],
{
    let s1 = s.drop_first();
    let s2 = s1.drop_first();
    let s3 = s2.drop_first();
    assert(s1.len() == 3 && s1[0] == s[1] && s1[1] == s[2] && s1[2] == s[3]);
    assert(s2.len() == 2 && s2[0] == s[2] && s2[1] == s[3]);
    assert(s3.len() == 1 && s3[0] == s[3]);
    assert(s3.drop_first() =~= Seq::<u32>::empty());
    assert(sum_vals(Seq::<u32>::empty()) == 0);
    assert(sum_vals(s) == s[0] + sum_vals(s1));
    assert(sum_vals(s1) == s[1] + sum_vals(s2));
    assert(sum_vals(s2) == s[2] + sum_vals(s3));
    assert(sum_vals(s3) == s[3]);
}

pub proof fn lemma_sum_reverse(s: Seq<u32>)
    ensures
        sum_vals(s.reverse()) == sum_vals(s),
    decreases s.len(),
{
    if s.len() > 0 {
        let r = s.reverse();
        assert(r =~= seq![s.last()] + s.drop_last().reverse());
        assert(r[0] == s.last());
        assert(r.drop_first() =~= s.drop_last().reverse());
        assert(sum_vals(r) == s.last() + sum_vals(s.drop_last().reverse()));
        lemma_sum_reverse(s.drop_last());
        assert(s =~= s.drop_last().push(s.last()));
        lemma_sum_push(s.drop_last(), s.last());
    }
}

/// Pack the non-zero cells of a line toward index 0, keeping their order;
/// the freed cells become zeros at the far end.
pub open spec fn compact(l: Seq<u32>) -> Seq<u32>
    decreases l.len(),
{
    if l.len() == 0 {
        Seq::<u32>::empty()
    } else if l.first() == 0 {
        compact(l.drop_first()).push(0)
    } else {
        seq![l.first()] + compact(l.drop_first())
    }
}

pub proof fn lemma_compact_len(l: Seq<u32>)
    ensures
        compact(l).len() == l.len(),
    decreases l.len(),
{
    if l.len() > 0 {
        lemma_compact_len(l.drop_first());
    }
}

pub proof fn lemma_compact_sum(l: Seq<u32>)
    ensures
        sum_vals(compact(l)) == sum_vals(l),
    decreases l.len(),
{
    if l.len() > 0 {
        lemma_compact_sum(l.drop_first());
        if l.first() == 0 {
            lemma_sum_push(compact(l.drop_first()), 0);
        } else {
            let c = seq![l.first()] + compact(l.drop_first());
            assert(c.drop_first() =~= compact(l.drop_first()));
        }
    }
}

/// One merging pass over a line, scanning from index 0: each adjacent equal
/// pair of non-zero cells becomes a doubled cell followed by a zero, and a
/// cell that was just doubled is never examined again as the left partner.
pub open spec fn merge(l: Seq<u32>) -> Seq<u32>
    decreases l.len(),
{
    if l.len() < 2 {
        l
    } else if l.first() != 0 && l.first() == l[1] {
        seq![(2 * l.first()) as u32, 0u32] + merge(l.skip(2))
    } else {
        seq![l.first()] + merge(l.drop_first())
    }
}

/// The values merged by the pass: one entry of value `v` per pair of cells
/// of value `v` that became a single cell of value `2 * v`.
pub open spec fn merged_values(l: Seq<u32>) -> Seq<u32>
    decreases l.len(),
{
    if l.len() < 2 {
        Seq::<u32>::empty()
    } else if l.first() != 0 && l.first() == l[1] {
        seq![l.first()] + merged_values(l.skip(2))
    } else {
        merged_values(l.drop_first())
    }
}

/// Whether the merging pass produces a cell of value `target`.
pub open spec fn merge_makes(l: Seq<u32>, target: u32) -> bool
    decreases l.len(),
{
    if l.len() < 2 {
        false
    } else if l.first() != 0 && l.first() == l[1] {
        (2 * l.first()) as u32 == target || merge_makes(l.skip(2), target)
    } else {
        merge_makes(l.drop_first(), target)
    }
}

pub proof fn lemma_merge_len(l: Seq<u32>)
    ensures
        merge(l).len() == l.len(),
    decreases l.len(),
{
    if l.len() >= 2 {
        if l.first() != 0 && l.first() == l[1] {
            lemma_merge_len(l.skip(2));
        } else {
            lemma_merge_len(l.drop_first());
        }
    }
}

/// The merging pass keeps the sum of the line: a pair of cells of value `v`
/// becomes one cell of value `2 * v` and one empty cell.  The score gained
/// is twice the sum of the merged values and never exceeds the line sum.
pub proof fn lemma_merge_sum(l: Seq<u32>)
    requires
        sum_vals(l) <= MAX_GRID_SUM as int,
    ensures
        sum_vals(merge(l)) == sum_vals(l),
        2 * sum_vals(merged_values(l)) <= sum_vals(l),
    decreases l.len(),
{
    lemma_sum_nonneg(l);
    if l.len() < 2 {
        assert(sum_vals(merged_values(l)) == 0);
    } else {
        let rest1 = l.drop_first();
        assert(sum_vals(l) == l[0] + sum_vals(rest1));
        lemma_sum_nonneg(rest1);
        if l.first() != 0 && l.first() == l[1] {
            let rest2 = l.skip(2);
            assert(rest1.drop_first() =~= rest2);
            assert(sum_vals(rest1) == l[1] + sum_vals(rest2));
            lemma_sum_nonneg(rest2);
            lemma_merge_sum(rest2);
            // no truncation: the pair fits inside the bounded line sum
            assert(2 * l.first() <= sum_vals(l));
            let m = seq![(2 * l.first()) as u32, 0u32] + merge(rest2);
            assert(m[0] == (2 * l.first()) as u32);
            assert(m.drop_first() =~= seq![0u32] + merge(rest2));
            assert(m.drop_first()[0] == 0);
            assert(m.drop_first().drop_first() =~= merge(rest2));
            assert(sum_vals(m.drop_first()) == 0 + sum_vals(merge(rest2)));
            assert(sum_vals(m) == (2 * l.first()) as u32 + sum_vals(m.drop_first()));
            let mv = seq![l.first()] + merged_values(rest2);
            assert(mv.drop_first() =~= merged_values(rest2));
            assert(sum_vals(mv) == l.first() + sum_vals(merged_values(rest2)));
        } else {
            lemma_merge_sum(rest1);
            let m = seq![l.first()] + merge(rest1);
            assert(m.drop_first() =~= merge(rest1));
            assert(sum_vals(m) == l.first() + sum_vals(merge(rest1)));
        }
    }
}

/// Both passes keep cells legal: packing only moves cells, and a merge turns
/// a power of two `v >= 2` into the power of two `2 * v`.
pub proof fn lemma_compact_valid(l: Seq<u32>)
    requires
        forall|i: int| 0 <= i < l.len() ==> valid_tile(#[trigger] l[i]),
    ensures
        forall|i: int| 0 <= i < compact(l).len() ==> valid_tile(#[trigger] compact(l)[i]),
    decreases l.len(),
{
    if l.len() > 0 {
        assert(forall|i: int|
            0 <= i < l.drop_first().len() ==> valid_tile(#[trigger] l.drop_first()[i]));
        lemma_compact_valid(l.drop_first());
        let c = compact(l.drop_first());
        if l.first() == 0 {
            assert forall|i: int| 0 <= i < compact(l).len() implies valid_tile(
                #[trigger] compact(l)[i],
            ) by {
                if i < c.len() {
                    assert(compact(l)[i] == c[i]);
                } else {
                    assert(compact(l)[i] == 0);
                }
            }
        } else {
            assert forall|i: int| 0 <= i < compact(l).len() implies valid_tile(
                #[trigger] compact(l)[i],
            ) by {
                if i == 0 {
                    assert(compact(l)[0] == l[0]);
                } else {
                    assert(compact(l)[i] == c[i - 1]);
                }
            }
        }
    }
}

pub proof fn lemma_merge_valid(l: Seq<u32>)
    requires
        sum_vals(l) <= MAX_GRID_SUM as int,
        forall|i: int| 0 <= i < l.len() ==> valid_tile(#[trigger] l[i]),
    ensures
        forall|i: int| 0 <= i < merge(l).len() ==> valid_tile(#[trigger] merge(l)[i]),
    decreases l.len(),
{
    if l.len() >= 2 {
        let rest1 = l.drop_first();
        assert(forall|i: int| 0 <= i < rest1.len() ==> valid_tile(#[trigger] rest1[i]));
        lemma_sum_nonneg(rest1);
        if l.first() != 0 && l.first() == l[1] {
            let rest2 = l.skip(2);
            assert(rest1.drop_first() =~= rest2);
            assert(sum_vals(l) == l[0] + sum_vals(rest1));
            assert(sum_vals(rest1) == l[1] + sum_vals(rest2));
            lemma_sum_nonneg(rest2);
            assert(forall|i: int| 0 <= i < rest2.len() ==> valid_tile(#[trigger] rest2[i]));
            lemma_merge_valid(rest2);
            assert(2 * l.first() <= sum_vals(l));
            let d = (2 * l.first()) as u32;
            assert(d as int == 2 * (l.first() as int));
            assert(is_pow2(l.first() as int));
            assert(d as int % 2 == 0 && (d as int) / 2 == l.first() as int);
            assert(is_pow2(d as int));
            assert(valid_tile(d));
            assert forall|i: int| 0 <= i < merge(l).len() implies valid_tile(
                #[trigger] merge(l)[i],
            ) by {
                if i == 0 {
                    assert(merge(l)[0] == d);
                } else if i == 1 {
                    assert(merge(l)[1] == 0u32);
                } else {
                    assert(merge(l)[i] == merge(rest2)[i - 2]);
                }
            }
        } else {
            assert(sum_vals(l) == l[0] + sum_vals(rest1));
            lemma_merge_valid(rest1);
            assert forall|i: int| 0 <= i < merge(l).len() implies valid_tile(
                #[trigger] merge(l)[i],
            ) by {
                if i == 0 {
                    assert(merge(l)[0] == l[0]);
                } else {
                    assert(merge(l)[i] == merge(rest1)[i - 1]);
                }
            }
        }
    }
}

/// Slide a line toward index 0: pack, merge once, pack again.
pub open spec fn slide_line(l: Seq<u32>) -> Seq<u32> {
    compact(merge(compact(l)))
}

/// Slide a line toward its far end, the mirror image of `slide_line`.
pub open spec fn slide_line_back(l: Seq<u32>) -> Seq<u32> {
    slide_line(l.reverse()).reverse()
}

/// Score gained by sliding a line toward index 0.
pub open spec fn line_gain(l: Seq<u32>) -> int {
    2 * sum_vals(merged_values(compact(l)))
}

/// Score gained by sliding a line toward its far end.
pub open spec fn line_gain_back(l: Seq<u32>) -> int {
    line_gain(l.reverse())
}

/// Whether sliding a line toward index 0 produces a cell of value `target`.
pub open spec fn line_makes(l: Seq<u32>, target: u32) -> bool {
    merge_makes(compact(l), target)
}

/// Whether sliding a line toward its far end produces a cell of value `target`.
pub open spec fn line_makes_back(l: Seq<u32>, target: u32) -> bool {
    line_makes(l.reverse(), target)
}

/// Law: sliding a line conserves the sum of its cells, and the score gained
/// (twice the sum of the merged values) never exceeds the line sum.
pub proof fn lemma_slide_conservation(l: Seq<u32>)
    requires
        sum_vals(l) <= MAX_GRID_SUM as int,
    ensures
        sum_vals(slide_line(l)) == sum_vals(l),
        0 <= line_gain(l) <= sum_vals(l),
    decreases l.len(),
{
    lemma_compact_sum(l);
    lemma_merge_sum(compact(l));
    lemma_compact_sum(merge(compact(l)));
    lemma_sum_nonneg(merged_values(compact(l)));
}

/// Multiset of the non-zero cells of a line.
pub open spec fn nz_ms(s: Seq<u32>) -> Multiset<u32>
    decreases s.len(),
{
    if s.len() == 0 {
        Multiset::empty()
    } else if s.first() == 0 {
        nz_ms(s.drop_first())
    } else {
        nz_ms(s.drop_first()).insert(s.first())
    }
}

/// Two cells of value `v` for every merged value `v`.
pub open spec fn pairs_ms(m: Seq<u32>) -> Multiset<u32>
    decreases m.len(),
{
    if m.len() == 0 {
        Multiset::empty()
    } else {
        pairs_ms(m.drop_first()).insert(m.first()).insert(m.first())
    }
}

/// One cell of value `2 * v` for every merged value `v`.
pub open spec fn doubles_ms(m: Seq<u32>) -> Multiset<u32>
    decreases m.len(),
{
    if m.len() == 0 {
        Multiset::empty()
    } else {
        doubles_ms(m.drop_first()).insert((2 * m.first()) as u32)
    }
}

proof fn lemma_nz_ms_push_zero(s: Seq<u32>)
    ensures
        nz_ms(s.push(0)) == nz_ms(s),
    decreases s.len(),
{
    if s.len() == 0 {
        assert(s.push(0).len() == 1);
        assert(s.push(0)[0] == 0u32);
        assert(s.push(0).drop_first() =~= Seq::<u32>::empty());
        assert(nz_ms(Seq::<u32>::empty()) == Multiset::<u32>::empty());
    } else {
        assert(s.push(0)[0] == s[0]);
        assert(s.push(0).drop_first() =~= s.drop_first().push(0));
        lemma_nz_ms_push_zero(s.drop_first());
    }
}

/// Packing a line moves cells without creating or destroying any.
pub proof fn lemma_compact_nz_ms(l: Seq<u32>)
    ensures
        nz_ms(compact(l)) == nz_ms(l),
    decreases l.len(),
{
    if l.len() > 0 {
        lemma_compact_nz_ms(l.drop_first());
        if l.first() == 0 {
            lemma_nz_ms_push_zero(compact(l.drop_first()));
        } else {
            let c = seq![l.first()] + compact(l.drop_first());
            assert(c[0] == l.first());
            assert(c.drop_first() =~= compact(l.drop_first()));
        }
    }
}

/// One merging pass turns the non-zero cells of the line into the non-zero
/// cells of the result by replacing, for each merged value `v`, exactly two
/// cells of value `v` with one cell of value `2 * v`.  No cell takes part in
/// more than one merge.
pub proof fn lemma_merge_pairing(l: Seq<u32>)
    requires
        sum_vals(l) <= MAX_GRID_SUM as int,
    ensures
        nz_ms(l).add(doubles_ms(merged_values(l))) == nz_ms(merge(l)).add(
            pairs_ms(merged_values(l)),
        ),
    decreases l.len(),
{
    broadcast use group_multiset_axioms;

    if l.len() < 2 {
        assert(nz_ms(l).add(Multiset::empty()) =~= nz_ms(l));
    } else {
        let rest1 = l.drop_first();
        lemma_sum_nonneg(rest1);
        assert(sum_vals(l) == l[0] + sum_vals(rest1));
        if l.first() != 0 && l.first() == l[1] {
            let v = l.first();
            let rest2 = l.skip(2);
            assert(rest1.drop_first() =~= rest2);
            assert(rest1[0] == l[1]);
            assert(sum_vals(rest1) == l[1] + sum_vals(rest2));
            lemma_sum_nonneg(rest2);
            lemma_merge_pairing(rest2);
            // the doubled value is non-zero because it did not overflow
            assert(2 * v <= sum_vals(l));
            let d = (2 * v) as u32;
            assert(d != 0);
            assert(nz_ms(l) == nz_ms(rest1).insert(v));
            assert(nz_ms(rest1) == nz_ms(rest2).insert(v));
            let mv = seq![v] + merged_values(rest2);
            assert(merged_values(l) =~= mv);
            assert(mv[0] == v);
            assert(mv.drop_first() =~= merged_values(rest2));
            assert(doubles_ms(mv) == doubles_ms(merged_values(rest2)).insert(d));
            assert(pairs_ms(mv) == pairs_ms(merged_values(rest2)).insert(v).insert(v));
            let m = seq![d, 0u32] + merge(rest2);
            assert(merge(l) =~= m);
            assert(m[0] == d);
            assert(m.drop_first() =~= seq![0u32] + merge(rest2));
            assert(m.drop_first()[0] == 0u32);
            assert(m.drop_first().drop_first() =~= merge(rest2));
            assert(nz_ms(m) == nz_ms(m.drop_first()).insert(d));
            assert(nz_ms(m.drop_first()) == nz_ms(m.drop_first().drop_first()));
            assert(nz_ms(m) == nz_ms(merge(rest2)).insert(d));
            let d2 = doubles_ms(merged_values(rest2));
            let p2 = pairs_ms(merged_values(rest2));
            assert(nz_ms(l).add(doubles_ms(merged_values(l))) =~= nz_ms(rest2).add(d2).insert(
                v,
            ).insert(v).insert(d));
            assert(nz_ms(merge(l)).add(pairs_ms(merged_values(l))) =~= nz_ms(merge(rest2)).add(
                p2,
            ).insert(v).insert(v).insert(d));
            assert(nz_ms(l).add(doubles_ms(merged_values(l))) =~= nz_ms(merge(l)).add(
                pairs_ms(merged_values(l)),
            ));
        } else {
            lemma_merge_pairing(rest1);
            let m = seq![l.first()] + merge(rest1);
            assert(merge(l) =~= m);
            assert(m[0] == l.first());
            assert(m.drop_first() =~= merge(rest1));
            let dd = doubles_ms(merged_values(l));
            let pp = pairs_ms(merged_values(l));
            assert(merged_values(l) == merged_values(rest1));
            if l.first() == 0 {
                assert(nz_ms(l) == nz_ms(rest1));
                assert(nz_ms(m) == nz_ms(merge(rest1)));
            } else {
                assert(nz_ms(l) == nz_ms(rest1).insert(l.first()));
                assert(nz_ms(m) == nz_ms(merge(rest1)).insert(l.first()));
                assert(nz_ms(l).add(dd) =~= nz_ms(rest1).add(dd).insert(l.first()));
                assert(nz_ms(merge(l)).add(pp) =~= nz_ms(merge(rest1)).add(pp).insert(
                    l.first(),
                ));
            }
            assert(nz_ms(l).add(doubles_ms(merged_values(l))) =~= nz_ms(merge(l)).add(
                pairs_ms(merged_values(l)),
            ));
        }
    }
}

/// Law: in one slide no resulting tile comes from more than one merge.  The
/// non-zero cells of the result are the non-zero cells of the input with, for
/// each merged value `v`, exactly two cells of value `v` replaced by a single
/// cell of value `2 * v`.
pub proof fn lemma_at_most_one_merge(l: Seq<u32>)
    requires
        sum_vals(l) <= MAX_GRID_SUM as int,
    ensures
        nz_ms(l).add(doubles_ms(merged_values(compact(l)))) == nz_ms(slide_line(l)).add(
            pairs_ms(merged_values(compact(l))),
        ),
{
    lemma_compact_nz_ms(l);
    lemma_compact_sum(l);
    lemma_merge_pairing(compact(l));
    lemma_compact_nz_ms(merge(compact(l)));
}

/// Law: sliding preserves line length and cell legality.
pub proof fn lemma_slide_shape(l: Seq<u32>)
    requires
        sum_vals(l) <= MAX_GRID_SUM as int,
        forall|i: int| 0 <= i < l.len() ==> valid_tile(#[trigger] l[i]),
    ensures
        slide_line(l).len() == l.len(),
        forall|i: int| 0 <= i < slide_line(l).len() ==> valid_tile(#[trigger] slide_line(l)[i]),
{
    lemma_compact_len(l);
    lemma_compact_sum(l);
    lemma_merge_len(compact(l));
    lemma_compact_len(merge(compact(l)));
    lemma_compact_valid(l);
    lemma_merge_valid(compact(l));
    lemma_compact_valid(merge(compact(l)));
}

/// Pack four cells toward index 0, the executable form of `compact`.
fn pack4(a: u32, b: u32, c: u32, d: u32) -> (out: Vec<u32>)
    ensures
        out@ == compact(seq![a, b, c, d]),
        out@.len() == 4,
{
    let mut out: Vec<u32> = Vec::new();
    if a != 0 {
        out.push(a);
    }
    if b != 0 {
        out.push(b);
    }
    if c != 0 {
        out.push(c);
    }
    if d != 0 {
        out.push(d);
    }
    if out.len() < 4 {
        out.push(0);
    }
    if out.len() < 4 {
        out.push(0);
    }
    if out.len() < 4 {
        out.push(0);
    }
    if out.len() < 4 {
        out.push(0);
    }
    proof {
        reveal_with_fuel(compact, 6);
        assert(out@ =~= compact(seq![a, b, c, d]));
    }
    out
}

/// Slide a four-cell line toward index 0: pack the non-zero cells, merge
/// adjacent equal pairs once each, pack again.  Returns the new line, the
/// score gained and whether a merge produced the winning tile.
pub fn slide_row_left(row: &Vec<u32>) -> (res: (Vec<u32>, u32, bool))
    requires
        row@.len() == 4,
        sum_vals(row@) <= MAX_GRID_SUM as int,
    ensures
        res.0@ == slide_line(row@),
        res.0@.len() == 4,
        res.1 as int == line_gain(row@),
        res.2 == line_makes(row@, WIN_TILE),
{
    proof {
        lemma_sum4(row@);
    }
    let packed = pack4(row[0], row[1], row[2], row[3]);
    proof {
        assert(row@ =~= seq![row@[0], row@[1], row@[2], row@[3]]);
        assert(packed@ == compact(row@));
        lemma_compact_sum(row@);
        lemma_sum4(packed@);
    }
    let mut m0 = packed[0];
    let mut m1 = packed[1];
    let mut m2 = packed[2];
    let mut m3 = packed[3];
    let mut gain: u32 = 0;
    let mut hit = false;
    if m0 != 0 && m0 == m1 {
        m0 = 2 * m0;
        gain = gain + m0;
        if m0 == WIN_TILE {
            hit = true;
        }
        m1 = 0;
    }
    if m1 != 0 && m1 == m2 {
        m1 = 2 * m1;
        gain = gain + m1;
        if m1 == WIN_TILE {
            hit = true;
        }
        m2 = 0;
    }
    if m2 != 0 && m2 == m3 {
        m2 = 2 * m2;
        gain = gain + m2;
        if m2 == WIN_TILE {
            hit = true;
        }
        m3 = 0;
    }
    proof {
        reveal_with_fuel(merge, 6);
        reveal_with_fuel(merged_values, 6);
        reveal_with_fuel(merge_makes, 6);
        reveal_with_fuel(sum_vals, 6);
        assert(seq![m0, m1, m2, m3] =~= merge(packed@));
        assert(gain as int == 2 * sum_vals(merged_values(packed@)));
        assert(hit == merge_makes(packed@, WIN_TILE));
    }
    let out = pack4(m0, m1, m2, m3);
    proof {
        assert(out@ == compact(merge(packed@)));
        assert(out@ == slide_line(row@));
    }
    (out, gain, hit)
}

/// Slide a four-cell line toward index 3: the mirror image of
/// `slide_row_left`, obtained by reversing the line around the transform.
pub fn slide_row_right(row: &Vec<u32>) -> (res: (Vec<u32>, u32, bool))
    requires
        row@.len() == 4,
        sum_vals(row@) <= MAX_GRID_SUM as int,
    ensures
        res.0@ == slide_line_back(row@),
        res.0@.len() == 4,
        res.1 as int == line_gain_back(row@),
        res.2 == line_makes_back(row@, WIN_TILE),
{
    let mut rev: Vec<u32> = Vec::new();
    rev.push(row[3]);
    rev.push(row[2]);
    rev.push(row[1]);
    rev.push(row[0]);
    proof {
        assert(rev@ =~= row@.reverse());
        lemma_sum_reverse(row@);
    }
    let slid = slide_row_left(&rev);
    let mut out: Vec<u32> = Vec::new();
    out.push(slid.0[3]);
    out.push(slid.0[2]);
    out.push(slid.0[1]);
    out.push(slid.0[0]);
    proof {
        assert(out@ =~= slid.0@.reverse());
    }
    (out, slid.1, slid.2)
}

} // verus!

//! Facts about the layout model used by the operations' proofs.
use vstd::prelude::*;
use crate::grid::{
    across_head, across_start, across_starts, cell_ok, down_head, down_start, down_starts,
    entry_ok, is_start, label_num, layout, same_derived, starts_before, structure_ok, EntryVariant,
    Puzzle, PuzzleEntry, Square,
};

verus! {

/// The across starts below `n` are exactly the across starts, each once, ascending.
pub proof fn lemma_across_starts(b: Seq<bool>, d: int, n: int)
    ensures
        forall|k: int|
            0 <= k < across_starts(b, d, n).len() ==> 0 <= #[trigger] across_starts(b, d, n)[k] < n
                && across_start(b, d, across_starts(b, d, n)[k]),
        forall|k: int, l: int|
            0 <= k < l < across_starts(b, d, n).len() ==> #[trigger] across_starts(b, d, n)[k]
                < #[trigger] across_starts(b, d, n)[l],
        forall|h: int|
            0 <= h < n && #[trigger] across_start(b, d, h) ==> exists|k: int|
                0 <= k < across_starts(b, d, n).len() && #[trigger] across_starts(b, d, n)[k] == h,
    decreases n,
{
    if n > 0 {
        lemma_across_starts(b, d, n - 1);
        let s0 = across_starts(b, d, n - 1);
        let s = across_starts(b, d, n);
        assert forall|h: int| 0 <= h < n && #[trigger] across_start(b, d, h) implies exists|k: int|
            0 <= k < s.len() && #[trigger] s[k] == h by {
            if h < n - 1 {
                let k = choose|k: int| 0 <= k < s0.len() && #[trigger] s0[k] == h;
                assert(s[k] == h);
            } else {
                assert(s[s.len() - 1] == h);
            }
        }
    }
}

/// The down starts below `n` are exactly the down starts, each once, ascending.
pub proof fn lemma_down_starts(b: Seq<bool>, d: int, n: int)
    ensures
        forall|k: int|
            0 <= k < down_starts(b, d, n).len() ==> 0 <= #[trigger] down_starts(b, d, n)[k] < n
                && down_start(b, d, down_starts(b, d, n)[k]),
        forall|k: int, l: int|
            0 <= k < l < down_starts(b, d, n).len() ==> #[trigger] down_starts(b, d, n)[k]
                < #[trigger] down_starts(b, d, n)[l],
        forall|h: int|
            0 <= h < n && #[trigger] down_start(b, d, h) ==> exists|k: int|
                0 <= k < down_starts(b, d, n).len() && #[trigger] down_starts(b, d, n)[k] == h,
    decreases n,
{
    if n > 0 {
        lemma_down_starts(b, d, n - 1);
        let s0 = down_starts(b, d, n - 1);
        let s = down_starts(b, d, n);
        assert forall|h: int| 0 <= h < n && #[trigger] down_start(b, d, h) implies exists|k: int|
            0 <= k < s.len() && #[trigger] s[k] == h by {
            if h < n - 1 {
                let k = choose|k: int| 0 <= k < s0.len() && #[trigger] s0[k] == h;
                assert(s[k] == h);
            } else {
                assert(s[s.len() - 1] == h);
            }
        }
    }
}

/// Structure that holds of one grid holds of another with the same layout and
/// the same derived fields.
pub proof fn lemma_structure_transfer(
    c1: Seq<Square>,
    c2: Seq<Square>,
    d: int,
    a: Seq<PuzzleEntry>,
    dn: Seq<PuzzleEntry>,
)
    requires
        structure_ok(c1, d, a, dn),
        c1.len() == c2.len(),
        layout(c1) == layout(c2),
        forall|i: int| 0 <= i < c1.len() ==> #[trigger] same_derived(c1[i], c2[i]),
    ensures
        structure_ok(c2, d, a, dn),
{
    let b = layout(c1);
    let n = c1.len() as int;
    lemma_across_starts(b, d, n);
    lemma_down_starts(b, d, n);
    assert forall|i: int| 0 <= i < c2.len() implies #[trigger] cell_ok(b, c2[i], d, i) by {
        assert(cell_ok(b, c1[i], d, i));
        assert(same_derived(c1[i], c2[i]));
    }
    let sa = across_starts(b, d, n);
    let sd = down_starts(b, d, n);
    assert forall|k: int| 0 <= k < a.len() implies #[trigger] entry_ok(a[k], c2, d, sa[k], EntryVariant::Across) by {
        assert(entry_ok(a[k], c1, d, sa[k], EntryVariant::Across));
        assert(same_derived(c1[sa[k]], c2[sa[k]]));
    }
    assert forall|k: int| 0 <= k < dn.len() implies #[trigger] entry_ok(dn[k], c2, d, sd[k], EntryVariant::Down) by {
        assert(entry_ok(dn[k], c1, d, sd[k], EntryVariant::Down));
        assert(same_derived(c1[sd[k]], c2[sd[k]]));
    }
}

/// At most one start per cell.
pub proof fn lemma_starts_before_bound(b: Seq<bool>, d: int, n: int)
    requires
        n >= 0,
    ensures
        starts_before(b, d, n) <= n,
    decreases n,
{
    if n > 0 {
        lemma_starts_before_bound(b, d, n - 1);
    }
}

/// A start cell counts towards every later count.
pub proof fn lemma_starts_before_grows(b: Seq<bool>, d: int, i: int, j: int)
    requires
        0 <= i < j,
        is_start(b, d, i),
    ensures
        starts_before(b, d, i) + 1 <= starts_before(b, d, j),
    decreases j - i,
{
    if j > i + 1 {
        lemma_starts_before_grows(b, d, i, j - 1);
    }
}

/// Start cells carry strictly increasing labels in row-major order.
pub proof fn lemma_label_order(b: Seq<bool>, d: int, i: int, j: int)
    requires
        0 <= i < j < b.len(),
        b.len() <= 441,
        is_start(b, d, i),
    ensures
        label_num(b, d, i) < label_num(b, d, j),
{
    lemma_starts_before_grows(b, d, i, j);
    lemma_starts_before_bound(b, d, j);
}

/// The grid of a well-formed puzzle has at most 441 cells.
pub proof fn lemma_cells_bound(p: Puzzle)
    requires
        p.shape_ok(),
    ensures
        p.squares@.len() <= 441,
        0 < p.dim <= 21,
{
    let d = p.dim as int;
    assert(d * d <= 441) by (nonlinear_arith)
        requires
            d <= 21,
            d >= 0,
    ;
}

/// The entries along either axis carry strictly increasing labels.
pub proof fn lemma_entry_labels_increase(p: Puzzle, v: EntryVariant)
    requires
        p.wf(),
    ensures
        forall|k: int, l: int|
            0 <= k < l < p.entries_of(v).len() ==> #[trigger] p.entries_of(v)[k].label
                < #[trigger] p.entries_of(v)[l].label,
{
    let b = layout(p.squares@);
    let d = p.dim as int;
    let n = p.squares@.len() as int;
    lemma_cells_bound(p);
    lemma_across_starts(b, d, n);
    lemma_down_starts(b, d, n);
    let sa = across_starts(b, d, n);
    let sd = down_starts(b, d, n);
    assert forall|k: int, l: int| 0 <= k < l < p.entries_of(v).len() implies #[trigger] p.entries_of(v)[k].label
        < #[trigger] p.entries_of(v)[l].label by {
        if v == EntryVariant::Across {
            assert(entry_ok(p.across_entries@[k], p.squares@, d, sa[k], EntryVariant::Across));
            assert(entry_ok(p.across_entries@[l], p.squares@, d, sa[l], EntryVariant::Across));
            lemma_label_order(b, d, sa[k], sa[l]);
        } else {
            assert(entry_ok(p.down_entries@[k], p.squares@, d, sd[k], EntryVariant::Down));
            assert(entry_ok(p.down_entries@[l], p.squares@, d, sd[l], EntryVariant::Down));
            lemma_label_order(b, d, sd[k], sd[l]);
        }
    }
}

/// The across run through a letter cell starts at an across start no later than it.
pub proof fn lemma_across_head(b: Seq<bool>, d: int, i: int)
    requires
        0 <= i < b.len(),
        !b[i],
        d > 0,
    ensures
        0 <= across_head(b, d, i) <= i,
        across_start(b, d, across_head(b, d, i)),
    decreases i,
{
    if !(i <= 0 || i % d == 0 || b[i - 1]) {
        lemma_across_head(b, d, i - 1);
    } else {
        assert(i == 0 ==> i % d == 0);
    }
}

/// The down run through a letter cell starts at a down start no later than it.
pub proof fn lemma_down_head(b: Seq<bool>, d: int, i: int)
    requires
        0 <= i < b.len(),
        !b[i],
        d > 0,
    ensures
        0 <= down_head(b, d, i) <= i,
        down_start(b, d, down_head(b, d, i)),
    decreases i,
{
    if !(d <= 0 || i < d || b[i - d]) {
        lemma_down_head(b, d, i - d);
    }
}

} // verus!

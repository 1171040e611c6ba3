//! Properties of the engine that relate its operations, stated and proved.
use vstd::prelude::*;
use crate::builder::rebuilt;
use crate::grid::{
    across_start, down_start,
    across_len, across_members, across_starts, cell_ok, dim_of, down_len, down_members,
    down_starts, entry_ok, label_num, layout, letters, modifier, EntryVariant, Puzzle,
    PuzzleEntry, Square,
};
use crate::oracle::{cell_text, grid_text, text_hash};
use crate::persist::{
    clue_after, clue_label, clue_pairs_are, clue_pairs_ok, contents_are, decode_square, doc_cell,
    doc_error, doc_layout, label_exists, lemma_decode_encode, lemma_variant_round_trip,
    loaded_from, saved_from, target_of, LoadedDoc, SavedPuzzle,
};
use crate::text::{decimal, lemma_decimal_digits, lemma_parse_decimal};
use crate::lemmas::{
    lemma_across_starts, lemma_cells_bound, lemma_down_starts, lemma_entry_labels_increase,
    lemma_label_order,
};

verus! {

/// Every well-formed puzzle has `dim * dim` cells, with `dim` 5, 15 or 21 as its
/// kind says.
pub proof fn lemma_cell_count(p: Puzzle)
    requires
        p.wf(),
    ensures
        p.squares@.len() == dim_of(p.variant) * dim_of(p.variant),
        dim_of(p.variant) == 5 || dim_of(p.variant) == 15 || dim_of(p.variant) == 21,
{
}

/// Labels increase strictly in row-major order, so no two cells share one.
pub proof fn lemma_labels_increase(p: Puzzle, i: int, j: int)
    requires
        p.wf(),
        0 <= i < j < p.squares@.len(),
        p.squares@[i].label is Some,
        p.squares@[j].label is Some,
    ensures
        p.squares@[i].label->0 < p.squares@[j].label->0,
{
    let b = layout(p.squares@);
    let d = p.dim as int;
    lemma_cells_bound(p);
    assert(cell_ok(b, p.squares@[i], d, i));
    assert(cell_ok(b, p.squares@[j], d, j));
    lemma_label_order(b, d, i, j);
}

/// Both entry lists are sorted by strictly increasing label.
pub proof fn lemma_entries_sorted(p: Puzzle)
    requires
        p.wf(),
    ensures
        forall|k: int, l: int|
            0 <= k < l < p.across_entries@.len() ==> #[trigger] p.across_entries@[k].label
                < #[trigger] p.across_entries@[l].label,
        forall|k: int, l: int|
            0 <= k < l < p.down_entries@.len() ==> #[trigger] p.down_entries@[k].label
                < #[trigger] p.down_entries@[l].label,
{
    lemma_entry_labels_increase(p, EntryVariant::Across);
    lemma_entry_labels_increase(p, EntryVariant::Down);
    assert forall|k: int, l: int| 0 <= k < l < p.across_entries@.len() implies #[trigger] p.across_entries@[k].label
        < #[trigger] p.across_entries@[l].label by {
        assert(p.entries_of(EntryVariant::Across)[k].label < p.entries_of(EntryVariant::Across)[l].label);
    }
    assert forall|k: int, l: int| 0 <= k < l < p.down_entries@.len() implies #[trigger] p.down_entries@[k].label
        < #[trigger] p.down_entries@[l].label by {
        assert(p.entries_of(EntryVariant::Down)[k].label < p.entries_of(EntryVariant::Down)[l].label);
    }
}

/// The two cells carry the same label, entry ids and links.
pub open spec fn same_cell_structure(s1: Square, s2: Square) -> bool {
    &&& s1.label == s2.label
    &&& s1.across_entry == s2.across_entry
    &&& s1.down_entry == s2.down_entry
    &&& s1.next_across == s2.next_across
    &&& s1.prev_across == s2.prev_across
    &&& s1.next_down == s2.next_down
    &&& s1.prev_down == s2.prev_down
}

/// The two entries carry the same label, axis, members and clue.
pub open spec fn same_entry(e1: PuzzleEntry, e2: PuzzleEntry) -> bool {
    &&& e1.label == e2.label
    &&& e1.variant == e2.variant
    &&& e1.member_indices@ == e2.member_indices@
    &&& e1.clue@ == e2.clue@
}

/// The two puzzles have the same labels, links and entries.
pub open spec fn same_structure(p: Puzzle, q: Puzzle) -> bool {
    &&& p.squares@.len() == q.squares@.len()
    &&& forall|i: int| 0 <= i < p.squares@.len() ==> #[trigger] same_cell_structure(p.squares@[i], q.squares@[i])
    &&& p.across_entries@.len() == q.across_entries@.len()
    &&& forall|k: int| 0 <= k < p.across_entries@.len() ==> #[trigger] same_entry(p.across_entries@[k], q.across_entries@[k])
    &&& p.down_entries@.len() == q.down_entries@.len()
    &&& forall|k: int| 0 <= k < p.down_entries@.len() ==> #[trigger] same_entry(p.down_entries@[k], q.down_entries@[k])
}

/// Rebuilding the entries of a well-formed puzzle changes no label, link or
/// entry.
pub proof fn lemma_rebuild_keeps_structure(p: Puzzle, q: Puzzle)
    requires
        p.wf(),
        rebuilt(p, q),
    ensures
        same_structure(p, q),
{
    let b = layout(p.squares@);
    let d = p.dim as int;
    let n = p.squares@.len() as int;
    assert(layout(q.squares@) =~= b);
    lemma_across_starts(b, d, n);
    lemma_down_starts(b, d, n);
    assert forall|i: int| 0 <= i < n implies #[trigger] same_cell_structure(p.squares@[i], q.squares@[i]) by {
        assert(cell_ok(b, p.squares@[i], d, i));
        assert(cell_ok(b, q.squares@[i], d, i));
    }
    let sa = across_starts(b, d, n);
    let sd = down_starts(b, d, n);
    assert forall|k: int| 0 <= k < p.across_entries@.len() implies #[trigger] same_entry(p.across_entries@[k], q.across_entries@[k]) by {
        assert(entry_ok(p.across_entries@[k], p.squares@, d, sa[k], EntryVariant::Across));
        assert(entry_ok(q.across_entries@[k], q.squares@, d, sa[k], EntryVariant::Across));
        assert(q.squares@[sa[k]].across_clue_text is Some);
    }
    assert forall|k: int| 0 <= k < p.down_entries@.len() implies #[trigger] same_entry(p.down_entries@[k], q.down_entries@[k]) by {
        assert(entry_ok(p.down_entries@[k], p.squares@, d, sd[k], EntryVariant::Down));
        assert(entry_ok(q.down_entries@[k], q.squares@, d, sd[k], EntryVariant::Down));
        assert(q.squares@[sd[k]].down_clue_text is Some);
    }
}

/// Running the entry builder twice in a row gives the same labels, links and
/// entries as running it once.
pub proof fn lemma_rebuild_idempotent(p0: Puzzle, p1: Puzzle, p2: Puzzle)
    requires
        p0.shape_ok(),
        rebuilt(p0, p1),
        rebuilt(p1, p2),
    ensures
        same_structure(p1, p2),
{
    assert forall|i: int| 0 <= i < p1.squares@.len() implies #[trigger] p1.squares@[i].x == i % (p1.dim as int)
        && p1.squares@[i].y == i / (p1.dim as int) by {
        assert(p0.squares@[i].x == i % (p0.dim as int));
        assert(p1.squares@[i].content == p0.squares@[i].content);
    }
    assert(p1.wf());
    lemma_rebuild_keeps_structure(p1, p2);
}

/// The cells of an across run are letter cells within the grid, none of them
/// but the first at a row's start, and the run ends at the row's end, the
/// grid's end or a blocker.
proof fn lemma_across_run(b: Seq<bool>, d: int, i: int)
    requires
        d > 0,
        0 <= i,
    ensures
        forall|t: int| 0 <= t < across_len(b, d, i) ==> i + t < b.len() && !b[#[trigger] (i + t)],
        forall|t: int| 1 <= t < across_len(b, d, i) ==> #[trigger] ((i + t) % d) != 0,
        across_len(b, d, i) > 0 ==> i + across_len(b, d, i) >= b.len() || (i + across_len(b, d, i)) % d == 0
            || b[i + across_len(b, d, i)],
    decreases b.len() - i,
{
    if i < b.len() && !b[i] && (i + 1) % d != 0 {
        lemma_across_run(b, d, i + 1);
        let l = across_len(b, d, i);
        assert forall|t: int| 0 <= t < l implies i + t < b.len() && !b[#[trigger] (i + t)] by {
            if t > 0 {
                assert(i + t == (i + 1) + (t - 1));
            }
        }
        assert forall|t: int| 1 <= t < l implies #[trigger] ((i + t) % d) != 0 by {
            if t > 1 {
                assert(i + t == (i + 1) + (t - 1));
            }
        }
    }
}

/// The cells of a down run are letter cells within the grid, and the run ends
/// at the grid's end or a blocker.
proof fn lemma_down_run(b: Seq<bool>, d: int, i: int)
    requires
        d > 0,
        0 <= i,
    ensures
        forall|t: int| 0 <= t < down_len(b, d, i) ==> i + t * d < b.len() && !b[#[trigger] (i + t * d)],
        down_len(b, d, i) > 0 ==> i + down_len(b, d, i) * d >= b.len() || b[i + down_len(b, d, i) * d],
    decreases b.len() - i,
{
    if i < b.len() && !b[i] && i + d < b.len() {
        lemma_down_run(b, d, i + d);
        let l = down_len(b, d, i);
        assert forall|t: int| 0 <= t < l implies i + t * d < b.len() && !b[#[trigger] (i + t * d)] by {
            if t > 0 {
                assert(i + t * d == (i + d) + (t - 1) * d) by (nonlinear_arith);
            } else {
                assert(i + t * d == i) by (nonlinear_arith)
                    requires
                        t == 0,
                ;
            }
        }
        assert(i + l * d == (i + d) + (l - 1) * d) by (nonlinear_arith);
    } else if i < b.len() && !b[i] {
        assert(i + 1 * d == i + d) by (nonlinear_arith);
        assert(i + 0 * d == i) by (nonlinear_arith);
    }
}

/// The link to the next member along axis `v`.
pub open spec fn next_in(c: Square, v: EntryVariant) -> Option<usize> {
    match v {
        EntryVariant::Across => c.next_across,
        EntryVariant::Down => c.next_down,
    }
}

/// The link to the previous member along axis `v`.
pub open spec fn prev_in(c: Square, v: EntryVariant) -> Option<usize> {
    match v {
        EntryVariant::Across => c.prev_across,
        EntryVariant::Down => c.prev_down,
    }
}

/// Following the links from an entry's first member visits its members in
/// order, each once, and ends at none; following the back links from its last
/// member visits them in reverse.
pub proof fn lemma_entry_traversal(p: Puzzle, v: EntryVariant, k: int)
    requires
        p.wf(),
        0 <= k < p.entries_of(v).len(),
    ensures
        p.entries_of(v)[k].member_indices@.len() >= 1,
        forall|j: int|
            0 <= j < p.entries_of(v)[k].member_indices@.len() ==> #[trigger] p.entries_of(v)[k].member_indices@[j]
                < p.squares@.len(),
        forall|j: int, l: int|
            0 <= j < l < p.entries_of(v)[k].member_indices@.len() ==> #[trigger] p.entries_of(v)[k].member_indices@[j]
                < #[trigger] p.entries_of(v)[k].member_indices@[l],
        forall|j: int|
            0 <= j < p.entries_of(v)[k].member_indices@.len() ==> next_in(
                p.squares@[#[trigger] p.entries_of(v)[k].member_indices@[j] as int],
                v,
            ) == if j + 1 < p.entries_of(v)[k].member_indices@.len() {
                Some(p.entries_of(v)[k].member_indices@[j + 1])
            } else {
                None
            },
        forall|j: int|
            0 <= j < p.entries_of(v)[k].member_indices@.len() ==> prev_in(
                p.squares@[#[trigger] p.entries_of(v)[k].member_indices@[j] as int],
                v,
            ) == if j > 0 {
                Some(p.entries_of(v)[k].member_indices@[j - 1])
            } else {
                None
            },
{
    let b = layout(p.squares@);
    let d = p.dim as int;
    let n = p.squares@.len() as int;
    lemma_cells_bound(p);
    lemma_across_starts(b, d, n);
    lemma_down_starts(b, d, n);
    let m = p.entries_of(v)[k].member_indices@;
    if v == EntryVariant::Across {
        let h = across_starts(b, d, n)[k];
        assert(entry_ok(p.across_entries@[k], p.squares@, d, h, EntryVariant::Across));
        lemma_across_run(b, d, h);
        let l = across_len(b, d, h);
        assert(m == across_members(b, d, h));
        assert forall|j: int| 0 <= j < l implies #[trigger] m[j] == h + j && h + j < n by {
            assert(!b[h + j]);
        }
        assert forall|j: int| 0 <= j < l implies next_in(p.squares@[#[trigger] m[j] as int], v) == if j + 1 < l {
            Some(m[j + 1])
        } else {
            None
        } by {
            assert(cell_ok(b, p.squares@[h + j], d, h + j));
            assert(!b[h + j]);
            if j + 1 < l {
                assert(!b[h + (j + 1)]);
                assert(((h + (j + 1)) % d) != 0);
            }
        }
        assert forall|j: int| 0 <= j < l implies prev_in(p.squares@[#[trigger] m[j] as int], v) == if j > 0 {
            Some(m[j - 1])
        } else {
            None
        } by {
            assert(cell_ok(b, p.squares@[h + j], d, h + j));
            assert(!b[h + j]);
            if j > 0 {
                assert(!b[h + (j - 1)]);
                assert(((h + j) % d) != 0);
            }
        }
    } else {
        let h = down_starts(b, d, n)[k];
        assert(entry_ok(p.down_entries@[k], p.squares@, d, h, EntryVariant::Down));
        lemma_down_run(b, d, h);
        let l = down_len(b, d, h);
        assert(m == down_members(b, d, h));
        assert forall|j: int| 0 <= j < l implies #[trigger] m[j] == h + j * d && h + j * d < n by {
            assert(!b[h + j * d]);
        }
        assert forall|j: int, i: int| 0 <= j < i < l implies #[trigger] m[j] < #[trigger] m[i] by {
            assert(h + j * d < h + i * d) by (nonlinear_arith)
                requires
                    j < i,
                    d > 0,
            ;
        }
        assert forall|j: int| 0 <= j < l implies next_in(p.squares@[#[trigger] m[j] as int], v) == if j + 1 < l {
            Some(m[j + 1])
        } else {
            None
        } by {
            assert(h + (j + 1) * d == h + j * d + d) by (nonlinear_arith);
            assert(cell_ok(b, p.squares@[h + j * d], d, h + j * d));
            assert(!b[h + j * d]);
            if j + 1 < l {
                assert(!b[h + (j + 1) * d]);
            }
        }
        assert forall|j: int| 0 <= j < l implies prev_in(p.squares@[#[trigger] m[j] as int], v) == if j > 0 {
            Some(m[j - 1])
        } else {
            None
        } by {
            assert(h + (j - 1) * d == h + j * d - d) by (nonlinear_arith);
            assert(j > 0 ==> h + j * d >= d) by (nonlinear_arith)
                requires
                    h >= 0,
                    d > 0,
            ;
            assert(h + 0 * d == h) by (nonlinear_arith);
            assert(cell_ok(b, p.squares@[h + j * d], d, h + j * d));
            assert(!b[h + j * d]);
            if j > 0 {
                assert(!b[h + (j - 1) * d]);
            }
        }
    }
}

/// `doc` is what reading back the document `s` gives: every field present, each
/// holding what was written.
pub open spec fn reads_back(s: SavedPuzzle, doc: LoadedDoc) -> bool {
    &&& doc.variant is Some && doc.variant->0@ == s.variant@
    &&& doc.squares is Some && doc.squares->0@.len() == s.squares@.len()
    &&& forall|i: int|
        0 <= i < s.squares@.len() ==> (#[trigger] doc.squares->0@[i]) is Some && doc.squares->0@[i]->0@
            == s.squares@[i]@
    &&& doc.across_clues is Some && doc.across_clues->0@.len() == s.across_clues@.len()
    &&& forall|k: int|
        0 <= k < s.across_clues@.len() ==> (#[trigger] doc.across_clues->0@[k]).0@ == s.across_clues@[k].0@
            && doc.across_clues->0@[k].1 is Some && doc.across_clues->0@[k].1->0@ == s.across_clues@[k].1@
    &&& doc.down_clues is Some && doc.down_clues->0@.len() == s.down_clues@.len()
    &&& forall|k: int|
        0 <= k < s.down_clues@.len() ==> (#[trigger] doc.down_clues->0@[k]).0@ == s.down_clues@[k].0@
            && doc.down_clues->0@[k].1 is Some && doc.down_clues->0@[k].1->0@ == s.down_clues@[k].1@
    &&& doc.hash_string is Some && doc.hash_string->0@ == s.hash_string@
}

/// Applying clue pairs that name distinct labels, one per entry, gives each
/// entry its own clue.
proof fn lemma_clue_after_distinct(
    pairs: Seq<(String, Option<String>)>,
    entries: Seq<PuzzleEntry>,
    m: int,
    k: int,
    dflt: Seq<char>,
)
    requires
        pairs.len() == entries.len(),
        0 <= m <= pairs.len(),
        0 <= k < pairs.len(),
        forall|j: int|
            0 <= j < pairs.len() ==> clue_label((#[trigger] pairs[j]).0@) == Some(entries[j].label)
                && pairs[j].1 is Some && pairs[j].1->0@ == entries[j].clue@,
        forall|j: int, l: int| 0 <= j < l < entries.len() ==> #[trigger] entries[j].label < #[trigger] entries[l].label,
    ensures
        clue_after(pairs.subrange(0, m), entries[k].label, dflt) == if k < m {
            entries[k].clue@
        } else {
            dflt
        },
    decreases m,
{
    if m > 0 {
        let t = pairs.subrange(0, m);
        assert(t.drop_last() =~= pairs.subrange(0, m - 1));
        assert(t.last() == pairs[m - 1]);
        if m - 1 != k {
            if m - 1 < k {
                assert(entries[m - 1].label < entries[k].label);
            } else {
                assert(entries[k].label < entries[m - 1].label);
            }
        }
        lemma_clue_after_distinct(pairs, entries, m - 1, k, dflt);
    } else {
        assert(pairs.subrange(0, 0) =~= Seq::<(String, Option<String>)>::empty());
    }
}

/// The clue pairs read back for one axis name existing entries in order.
proof fn lemma_read_pairs(
    p: Puzzle,
    v: EntryVariant,
    written: Seq<(String, String)>,
    read: Seq<(String, Option<String>)>,
)
    requires
        p.wf(),
        clue_pairs_are(written, p.entries_of(v)),
        read.len() == written.len(),
        forall|k: int|
            0 <= k < written.len() ==> (#[trigger] read[k]).0@ == written[k].0@ && read[k].1 is Some
                && read[k].1->0@ == written[k].1@,
    ensures
        forall|j: int|
            0 <= j < read.len() ==> clue_label((#[trigger] read[j]).0@) == Some(p.entries_of(v)[j].label)
                && read[j].1 is Some && read[j].1->0@ == p.entries_of(v)[j].clue@,
        clue_pairs_ok(read, layout(p.squares@), p.dim as int, v),
{
    let b = layout(p.squares@);
    let d = p.dim as int;
    let n = p.squares@.len() as int;
    lemma_cells_bound(p);
    lemma_across_starts(b, d, n);
    lemma_down_starts(b, d, n);
    assert forall|j: int| 0 <= j < read.len() implies clue_label((#[trigger] read[j]).0@) == Some(p.entries_of(v)[j].label)
        && read[j].1 is Some && read[j].1->0@ == p.entries_of(v)[j].clue@ by {
        assert(written[j].0@ == decimal(p.entries_of(v)[j].label as nat));
        lemma_parse_decimal(p.entries_of(v)[j].label as nat, u32::MAX as nat);
    }
    assert forall|j: int| 0 <= j < read.len() implies {
        &&& clue_label((#[trigger] read[j]).0@) is Some
        &&& read[j].1 is Some
        &&& label_exists(b, d, v, clue_label(read[j].0@)->0)
    } by {
        if v == EntryVariant::Across {
            let h = across_starts(b, d, n)[j];
            assert(entry_ok(p.across_entries@[j], p.squares@, d, h, EntryVariant::Across));
            assert(label_num(b, d, h) == p.entries_of(v)[j].label);
        } else {
            let h = down_starts(b, d, n)[j];
            assert(entry_ok(p.down_entries@[j], p.squares@, d, h, EntryVariant::Down));
            assert(label_num(b, d, h) == p.entries_of(v)[j].label);
        }
    }
}

/// Saving a puzzle and loading what was saved gives back its kind, the kind
/// and mark of each cell, and every clue. Without `strip` the letters come back
/// too (provided none holds the slash that separates them from the mark) and no
/// target is recorded; with `strip` every letter cell comes back empty and the
/// loaded puzzle is fill-only, its target the fingerprint of the grid saved.
pub proof fn lemma_round_trip(p: Puzzle, strip: bool, s: SavedPuzzle, doc: LoadedDoc, q: Puzzle)
    requires
        p.wf(),
        !strip ==> forall|i: int| 0 <= i < p.squares@.len() ==> !(#[trigger] letters(p.squares@[i].content)).contains('/'),
        saved_from(p, strip, s),
        reads_back(s, doc),
    ensures
        doc_error(doc) is None,
        loaded_from(doc, q) ==> {
            &&& q.variant == p.variant
            &&& q.squares@.len() == p.squares@.len()
            &&& forall|i: int|
                0 <= i < p.squares@.len() ==> {
                    &&& (#[trigger] q.squares@[i].content is Blocker) == (p.squares@[i].content is Blocker)
                    &&& modifier(q.squares@[i].content) == modifier(p.squares@[i].content)
                    &&& letters(q.squares@[i].content) == if strip {
                        Seq::<char>::empty()
                    } else {
                        letters(p.squares@[i].content)
                    }
                }
            &&& q.across_entries@.len() == p.across_entries@.len()
            &&& forall|k: int|
                0 <= k < p.across_entries@.len() ==> (#[trigger] q.across_entries@[k]).label == p.across_entries@[k].label
                    && q.across_entries@[k].clue@ == p.across_entries@[k].clue@
            &&& q.down_entries@.len() == p.down_entries@.len()
            &&& forall|k: int|
                0 <= k < p.down_entries@.len() ==> (#[trigger] q.down_entries@[k]).label == p.down_entries@[k].label
                    && q.down_entries@[k].clue@ == p.down_entries@[k].clue@
            &&& !strip ==> q.solved_hash is None && !q.fill_only
            &&& strip ==> q.fill_only && q.solved_hash == Some(text_hash(grid_text(p.squares@)))
        },
{
    let b = layout(p.squares@);
    let d = p.dim as int;
    let n = p.squares@.len() as int;
    lemma_cells_bound(p);
    reveal_strlit("mini");
    reveal_strlit("weekday");
    reveal_strlit("weekday_asymmetric");
    reveal_strlit("sunday");
    reveal_strlit("NULL");
    lemma_variant_round_trip(p.variant);
    let sq = doc.squares->0@;
    assert forall|i: int| 0 <= i < n implies {
        &&& (#[trigger] sq[i]) is Some
        &&& decode_square(sq[i]->0@) is Some
        &&& doc_cell(sq, i).blocker == b[i]
        &&& !b[i] ==> doc_cell(sq, i).letters == (if strip {
            Seq::<char>::empty()
        } else {
            letters(p.squares@[i].content)
        }) && doc_cell(sq, i).modifier == modifier(p.squares@[i].content)
    } by {
        assert(sq[i]->0@ == s.squares@[i]@);
        if !strip {
            assert(!letters(p.squares@[i].content).contains('/'));
        }
        lemma_decode_encode(p.squares@[i].content, strip);
    }
    assert(doc_layout(sq, n) =~= b);
    lemma_read_pairs(p, EntryVariant::Across, s.across_clues@, doc.across_clues->0@);
    lemma_read_pairs(p, EntryVariant::Down, s.down_clues@, doc.down_clues->0@);
    if strip {
        let h = text_hash(grid_text(p.squares@));
        lemma_parse_decimal(h as nat, u64::MAX as nat);
        lemma_decimal_digits(h as nat);
        assert(decimal(h as nat)[0] != 'N');
        assert(doc.hash_string->0@ != "NULL"@);
        assert(target_of(doc.hash_string) == Some(Some(h)));
    } else {
        assert(target_of(doc.hash_string) == Some(None::<u64>));
    }
    assert(doc_error(doc) is None);
    if loaded_from(doc, q) {
        let bq = layout(q.squares@);
        assert(bq =~= b) by {
            assert forall|i: int| 0 <= i < n implies bq[i] == b[i] by {
                assert(contents_are(q.squares@[i].content, doc_cell(sq, i)));
                assert(sq[i] is Some);
            }
        }
        lemma_across_starts(b, d, n);
        lemma_down_starts(b, d, n);
        lemma_entries_sorted(p);
        let sa = across_starts(b, d, n);
        let sd = down_starts(b, d, n);
        assert forall|k: int| 0 <= k < p.across_entries@.len() implies (#[trigger] q.across_entries@[k]).label
            == p.across_entries@[k].label && q.across_entries@[k].clue@ == p.across_entries@[k].clue@ by {
            assert(entry_ok(p.across_entries@[k], p.squares@, d, sa[k], EntryVariant::Across));
            assert(entry_ok(q.across_entries@[k], q.squares@, d, sa[k], EntryVariant::Across));
            lemma_clue_after_distinct(doc.across_clues->0@, p.across_entries@, p.across_entries@.len() as int, k, Seq::empty());
            assert(doc.across_clues->0@.subrange(0, p.across_entries@.len() as int) =~= doc.across_clues->0@);
        }
        assert forall|k: int| 0 <= k < p.down_entries@.len() implies (#[trigger] q.down_entries@[k]).label
            == p.down_entries@[k].label && q.down_entries@[k].clue@ == p.down_entries@[k].clue@ by {
            assert(entry_ok(p.down_entries@[k], p.squares@, d, sd[k], EntryVariant::Down));
            assert(entry_ok(q.down_entries@[k], q.squares@, d, sd[k], EntryVariant::Down));
            lemma_clue_after_distinct(doc.down_clues->0@, p.down_entries@, p.down_entries@.len() as int, k, Seq::empty());
            assert(doc.down_clues->0@.subrange(0, p.down_entries@.len() as int) =~= doc.down_clues->0@);
        }
        assert forall|i: int| 0 <= i < p.squares@.len() implies {
            &&& (#[trigger] q.squares@[i].content is Blocker) == (p.squares@[i].content is Blocker)
            &&& modifier(q.squares@[i].content) == modifier(p.squares@[i].content)
            &&& letters(q.squares@[i].content) == if strip {
                Seq::<char>::empty()
            } else {
                letters(p.squares@[i].content)
            }
        } by {
            assert(contents_are(q.squares@[i].content, doc_cell(sq, i)));
            assert(sq[i] is Some);
        }
    }
}

/// A puzzle loaded from a template (no target fingerprint) records no target,
/// so it is not solved, and is not fill-only.
pub proof fn lemma_template_load_unsolved(doc: LoadedDoc, q: Puzzle)
    requires
        loaded_from(doc, q),
        target_of(doc.hash_string) == Some(None::<u64>),
    ensures
        q.solved_hash is None,
        !q.fill_only,
{
}

/// Grids whose cells hold the same texts have the same text.
proof fn lemma_grid_text_cellwise(c1: Seq<Square>, c2: Seq<Square>)
    requires
        c1.len() == c2.len(),
        forall|i: int| 0 <= i < c1.len() ==> cell_text(#[trigger] c1[i].content) == cell_text(c2[i].content),
    ensures
        grid_text(c1) == grid_text(c2),
    decreases c1.len(),
{
    if c1.len() > 0 {
        assert forall|i: int| 0 <= i < c1.drop_last().len() implies cell_text(#[trigger] c1.drop_last()[i].content)
            == cell_text(c2.drop_last()[i].content) by {
            assert(c1.drop_last()[i] == c1[i]);
            assert(c2.drop_last()[i] == c2[i]);
        }
        lemma_grid_text_cellwise(c1.drop_last(), c2.drop_last());
        assert(cell_text(c1.last().content) == cell_text(c2.last().content));
    }
}

/// A puzzle whose target is the fingerprint of a grid `p` is solved once each
/// of its cells reproduces the letters (or blocker) of the same cell of `p`.
pub proof fn lemma_solved_when_reproduced(q: Puzzle, p: Puzzle)
    requires
        q.solved_hash == Some(text_hash(grid_text(p.squares@))),
        q.squares@.len() == p.squares@.len(),
        forall|i: int| 0 <= i < p.squares@.len() ==> cell_text(#[trigger] q.squares@[i].content) == cell_text(p.squares@[i].content),
    ensures
        q.solved_hash == Some(text_hash(grid_text(q.squares@))),
{
    lemma_grid_text_cellwise(q.squares@, p.squares@);
}

/// Where the start cells of two layouts agree but for one cell that starts an
/// across entry only in the first, the second has one across start fewer.
proof fn lemma_across_starts_drop(b: Seq<bool>, b2: Seq<bool>, d: int, i: int, m: int)
    requires
        b.len() == b2.len(),
        across_start(b, d, i),
        !across_start(b2, d, i),
        forall|j: int| 0 <= j < b.len() && j != i ==> #[trigger] across_start(b2, d, j) == across_start(b, d, j),
    ensures
        across_starts(b2, d, m).len() + (if 0 <= i < m { 1int } else { 0int }) == across_starts(b, d, m).len(),
    decreases m,
{
    if m > 0 {
        lemma_across_starts_drop(b, b2, d, i, m - 1);
        if m - 1 != i && m - 1 < b.len() {
            assert(across_start(b2, d, m - 1) == across_start(b, d, m - 1));
        }
    }
}

/// Where the start cells of two layouts agree but for one cell that starts a
/// down entry only in the first, the second has one down start fewer.
proof fn lemma_down_starts_drop(b: Seq<bool>, b2: Seq<bool>, d: int, i: int, m: int)
    requires
        b.len() == b2.len(),
        down_start(b, d, i),
        !down_start(b2, d, i),
        forall|j: int| 0 <= j < b.len() && j != i ==> #[trigger] down_start(b2, d, j) == down_start(b, d, j),
    ensures
        down_starts(b2, d, m).len() + (if 0 <= i < m { 1int } else { 0int }) == down_starts(b, d, m).len(),
    decreases m,
{
    if m > 0 {
        lemma_down_starts_drop(b, b2, d, i, m - 1);
        if m - 1 != i && m - 1 < b.len() {
            assert(down_start(b2, d, m - 1) == down_start(b, d, m - 1));
        }
    }
}

/// Blocking a letter cell that is on its own both across and down (each a
/// one-cell entry) removes exactly those two entries: one entry fewer on each
/// axis, none holding the cell, and the cell has no label or entry ids.
pub proof fn lemma_block_lone_cell(p: Puzzle, q: Puzzle, i: int)
    requires
        p.wf(),
        q.wf(),
        q.dim == p.dim,
        0 <= i < p.squares@.len(),
        q.squares@.len() == p.squares@.len(),
        forall|j: int|
            0 <= j < p.squares@.len() ==> (#[trigger] q.squares@[j].content is Blocker) == (j == i
                || p.squares@[j].content is Blocker),
        exists|k: int| 0 <= k < p.across_entries@.len() && #[trigger] p.across_entries@[k].member_indices@ == seq![i as usize],
        exists|k: int| 0 <= k < p.down_entries@.len() && #[trigger] p.down_entries@[k].member_indices@ == seq![i as usize],
    ensures
        q.across_entries@.len() == p.across_entries@.len() - 1,
        q.down_entries@.len() == p.down_entries@.len() - 1,
        q.squares@[i].label is None,
        q.squares@[i].across_entry is None,
        q.squares@[i].down_entry is None,
        forall|k: int| 0 <= k < q.across_entries@.len() ==> !(#[trigger] q.across_entries@[k].member_indices@).contains(i as usize),
        forall|k: int| 0 <= k < q.down_entries@.len() ==> !(#[trigger] q.down_entries@[k].member_indices@).contains(i as usize),
{
    let b = layout(p.squares@);
    let b2 = layout(q.squares@);
    let d = p.dim as int;
    let n = p.squares@.len() as int;
    lemma_cells_bound(p);
    lemma_across_starts(b, d, n);
    lemma_down_starts(b, d, n);
    lemma_across_starts(b2, d, n);
    lemma_down_starts(b2, d, n);
    assert(b2 =~= b.update(i, true)) by {
        assert forall|j: int| 0 <= j < n implies b2[j] == b.update(i, true)[j] by {
            assert(q.squares@[j].content is Blocker == (j == i || p.squares@[j].content is Blocker));
        }
    }
    let ka = choose|k: int| 0 <= k < p.across_entries@.len() && #[trigger] p.across_entries@[k].member_indices@ == seq![i as usize];
    let kd = choose|k: int| 0 <= k < p.down_entries@.len() && #[trigger] p.down_entries@[k].member_indices@ == seq![i as usize];
    let ha = across_starts(b, d, n)[ka];
    let hd = down_starts(b, d, n)[kd];
    assert(entry_ok(p.across_entries@[ka], p.squares@, d, ha, EntryVariant::Across));
    assert(entry_ok(p.down_entries@[kd], p.squares@, d, hd, EntryVariant::Down));
    assert(p.across_entries@[ka].member_indices@ == across_members(b, d, ha));
    assert(p.down_entries@[kd].member_indices@ == down_members(b, d, hd));
    assert(across_members(b, d, ha).len() == 1);
    assert(down_members(b, d, hd).len() == 1);
    assert(across_members(b, d, ha)[0] == seq![i as usize][0]);
    assert(down_members(b, d, hd)[0] == seq![i as usize][0]);
    assert(ha == i);
    assert(hd == i);
    assert(across_len(b, d, i) == 1);
    assert(down_len(b, d, i) == 1);
    assert(0 + 0 * d == 0) by (nonlinear_arith);
    lemma_across_run(b, d, i);
    lemma_down_run(b, d, i);
    assert(i + 1 * d == i + d) by (nonlinear_arith);
    assert(i + 1 < n && (i + 1) % d != 0 ==> b[i + 1]);
    assert(i + d < n ==> b[i + d]);
    assert forall|j: int| 0 <= j < n && j != i implies #[trigger] across_start(b2, d, j) == across_start(b, d, j) by {
        assert(b2[j] == b[j]);
        if j == 0 {
            assert(0int % d == 0) by (nonlinear_arith)
                requires
                    d > 0,
            ;
        } else if j - 1 != i {
            assert(b2[j - 1] == b[j - 1]);
        } else if j % d != 0 {
            assert(b[j]);
        }
    }
    assert forall|j: int| 0 <= j < n && j != i implies #[trigger] down_start(b2, d, j) == down_start(b, d, j) by {
        assert(b2[j] == b[j]);
        if j >= d && j - d != i {
            assert(b2[j - d] == b[j - d]);
        } else if j == i + d {
            assert(b[j]);
        }
    }
    lemma_across_starts_drop(b, b2, d, i, n);
    lemma_down_starts_drop(b, b2, d, i, n);
    assert(cell_ok(b2, q.squares@[i], d, i));
    assert forall|k: int| 0 <= k < q.across_entries@.len() implies !(#[trigger] q.across_entries@[k].member_indices@).contains(i as usize) by {
        let h = across_starts(b2, d, n)[k];
        assert(entry_ok(q.across_entries@[k], q.squares@, d, h, EntryVariant::Across));
        lemma_across_run(b2, d, h);
        if q.across_entries@[k].member_indices@.contains(i as usize) {
            let t = choose|t: int| 0 <= t < q.across_entries@[k].member_indices@.len() && q.across_entries@[k].member_indices@[t] == i as usize;
            assert(!b2[h + t]);
        }
    }
    assert forall|k: int| 0 <= k < q.down_entries@.len() implies !(#[trigger] q.down_entries@[k].member_indices@).contains(i as usize) by {
        let h = down_starts(b2, d, n)[k];
        assert(entry_ok(q.down_entries@[k], q.squares@, d, h, EntryVariant::Down));
        lemma_down_run(b2, d, h);
        if q.down_entries@[k].member_indices@.contains(i as usize) {
            let t = choose|t: int| 0 <= t < q.down_entries@[k].member_indices@.len() && q.down_entries@[k].member_indices@[t] == i as usize;
            assert(!b2[h + t * d]);
        }
    }
}

} // verus!

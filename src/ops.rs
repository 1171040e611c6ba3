//! Construction, coordinate access and the edits of a puzzle.
use vstd::prelude::*;
use crate::builder::rebuilt;
use crate::grid::{
    across_head, across_len, across_members, across_starts, cell_ok, clue_text_of, dim_of,
    down_head, down_len, down_members, down_starts, entry_ok, index_of, is_symmetric, layout,
    letters, match_puzzle_dim, modifier, next_modifier, same_derived, structure_ok, text_or_empty,
    EntryVariant, Puzzle, PuzzleEntry, PuzzleType, Square, SquareContents, SquareModifier,
};
use crate::lemmas::{
    lemma_across_head, lemma_across_starts, lemma_cells_bound, lemma_down_head, lemma_down_starts,
    lemma_entry_labels_increase, lemma_label_order, lemma_structure_transfer,
};
use crate::text::{decimal, decimal_string, push_char};

verus! {

/// Whether cell `j` flips when cell `i` of `p` is toggled: `i` itself, and on a
/// symmetric kind (unless the toggle is already a mirrored one) the cell rotated
/// half a turn about the grid's centre.
pub open spec fn toggled_by(p: Puzzle, i: int, nested: bool, j: int) -> bool {
    j == i || (is_symmetric(p.variant) && !nested && j == p.squares@.len() - 1 - i)
}

/// How an entry is read out: its label, then `axis` (`"A: "` or `"D: "`), then its clue.
pub open spec fn readout(e: PuzzleEntry, axis: Seq<char>) -> Seq<char> {
    decimal(e.label as nat) + axis + e.clue@
}

/// The readout of `e` along `axis`, or an empty string where there is no entry.
fn entry_readout(e: Option<&PuzzleEntry>, axis: &str) -> (r: String)
    ensures
        e is None ==> r@ == Seq::<char>::empty(),
        e is Some ==> r@ == readout(*e->0, axis@),
{
    match e {
        Some(entry) => {
            let mut s = decimal_string(entry.label as u64);
            s.append(axis);
            s.append(entry.clue.as_str());
            s
        },
        None => String::new(),
    }
}

/// After a rebuild of cells that anchored no clue text, every clue is empty.
pub(crate) proof fn lemma_fresh_clues_empty(p0: Puzzle, p: Puzzle)
    requires
        p0.shape_ok(),
        rebuilt(p0, p),
        forall|i: int| 0 <= i < p0.squares@.len() ==> #[trigger] p0.squares@[i].across_clue_text is None
            && p0.squares@[i].down_clue_text is None,
    ensures
        forall|k: int| 0 <= k < p.across_entries@.len() ==> #[trigger] p.across_entries@[k].clue@
            == Seq::<char>::empty(),
        forall|k: int| 0 <= k < p.down_entries@.len() ==> #[trigger] p.down_entries@[k].clue@
            == Seq::<char>::empty(),
{
    let b = layout(p.squares@);
    let d = p.dim as int;
    let n = p.squares@.len() as int;
    lemma_across_starts(b, d, n);
    lemma_down_starts(b, d, n);
    assert forall|k: int| 0 <= k < p.across_entries@.len() implies #[trigger] p.across_entries@[k].clue@
        == Seq::<char>::empty() by {
        let h = across_starts(b, d, n)[k];
        assert(entry_ok(p.across_entries@[k], p.squares@, d, h, EntryVariant::Across));
        assert(p.squares@[h].across_clue_text is Some);
    }
    assert forall|k: int| 0 <= k < p.down_entries@.len() implies #[trigger] p.down_entries@[k].clue@
        == Seq::<char>::empty() by {
        let h = down_starts(b, d, n)[k];
        assert(entry_ok(p.down_entries@[k], p.squares@, d, h, EntryVariant::Down));
        assert(p.squares@[h].down_clue_text is Some);
    }
}

/// The first entry of `entries` that carries `label`, if any.
pub(crate) fn find_entry(entries: &Vec<PuzzleEntry>, label: u32) -> (r: Option<&PuzzleEntry>)
    ensures
        r is None <==> forall|k: int| 0 <= k < entries@.len() ==> #[trigger] entries@[k].label != label,
        r is Some ==> exists|k: int| 0 <= k < entries@.len() && #[trigger] entries@[k] == *r->0 && entries@[k].label == label,
{
    let mut k: usize = 0;
    while k < entries.len()
        invariant
            k <= entries@.len(),
            forall|l: int| 0 <= l < k ==> #[trigger] entries@[l].label != label,
        decreases entries@.len() - k,
    {
        if entries[k].label == label {
            return Some(&entries[k]);
        }
        k = k + 1;
    }
    None
}

/// `q` is `p` with at most cell `i` changed, and only in its contents.
pub open spec fn unchanged_except_cell(p: Puzzle, q: Puzzle, i: int) -> bool {
    &&& q.title == p.title
    &&& q.dim == p.dim
    &&& q.variant == p.variant
    &&& q.fill_only == p.fill_only
    &&& q.solved_hash == p.solved_hash
    &&& q.across_entries == p.across_entries
    &&& q.down_entries == p.down_entries
    &&& q.squares@.len() == p.squares@.len()
    &&& forall|j: int| 0 <= j < p.squares@.len() && j != i ==> #[trigger] q.squares@[j] == p.squares@[j]
    &&& same_derived(p.squares@[i], q.squares@[i])
}

impl Square {
    /// An empty letter cell at `(x, y)` with nothing derived yet.
    pub(crate) fn new(x: u32, y: u32) -> (r: Square)
        ensures
            r.x == x,
            r.y == y,
            r.label is None,
            r.across_entry is None,
            r.down_entry is None,
            r.next_across is None,
            r.prev_across is None,
            r.next_down is None,
            r.prev_down is None,
            r.content is TextContent,
            letters(r.content) == Seq::<char>::empty(),
            modifier(r.content) is None,
            r.across_clue_text is None,
            r.down_clue_text is None,
    {
        Square {
            content: SquareContents::TextContent(String::new(), None),
            label: None,
            x,
            y,
            across_entry: None,
            next_across: None,
            prev_across: None,
            across_clue_text: None,
            down_entry: None,
            next_down: None,
            prev_down: None,
            down_clue_text: None,
        }
    }
}

impl Puzzle {
    /// A puzzle of the given kind whose cells are all empty letter cells, with
    /// its entries built and every clue empty.
    pub fn new(variant: PuzzleType) -> (r: Puzzle)
        ensures
            r.wf(),
            r.variant == variant,
            r.dim == dim_of(variant),
            r.squares@.len() == dim_of(variant) * dim_of(variant),
            r.title@ == "New Puzzle"@,
            !r.fill_only,
            r.solved_hash is None,
            forall|i: int|
                0 <= i < r.squares@.len() ==> #[trigger] r.squares@[i].content is TextContent
                    && letters(r.squares@[i].content) == Seq::<char>::empty()
                    && modifier(r.squares@[i].content) is None,
            forall|k: int|
                0 <= k < r.across_entries@.len() ==> #[trigger] r.across_entries@[k].clue@
                    == Seq::<char>::empty(),
            forall|k: int|
                0 <= k < r.down_entries@.len() ==> #[trigger] r.down_entries@[k].clue@
                    == Seq::<char>::empty(),
    {
        let d = match_puzzle_dim(&variant);
        let n = d * d;
        let mut v: Vec<Square> = Vec::new();
        let mut i: usize = 0;
        while i < n
            invariant
                d == dim_of(variant),
                n == d * d,
                i <= n,
                v@.len() == i,
                forall|j: int|
                    0 <= j < i ==> {
                        &&& #[trigger] v@[j].x == j % (d as int)
                        &&& v@[j].y == j / (d as int)
                        &&& v@[j].content is TextContent
                        &&& letters(v@[j].content) == Seq::<char>::empty()
                        &&& modifier(v@[j].content) is None
                        &&& v@[j].across_clue_text is None
                        &&& v@[j].down_clue_text is None
                    },
            decreases n - i,
        {
            assert(i / d < d) by (nonlinear_arith)
                requires
                    i < d * d,
                    d > 0,
            ;
            v.push(Square::new((i % d) as u32, (i / d) as u32));
            i = i + 1;
        }
        let mut p = Puzzle {
            title: String::from_str("New Puzzle"),
            dim: d,
            variant,
            squares: v,
            across_entries: Vec::new(),
            down_entries: Vec::new(),
            fill_only: false,
            solved_hash: None,
        };
        assert forall|j: int| 0 <= j < p.squares@.len() implies #[trigger] p.squares@[j].x == j % (
        p.dim as int) && p.squares@[j].y == j / (p.dim as int) by {
            assert(v@[j].x == j % (d as int));
        }
        assert forall|j: int| 0 <= j < p.squares@.len() implies #[trigger] p.squares@[j].across_clue_text is None
            && p.squares@[j].down_clue_text is None by {
            assert(v@[j].x == j % (d as int));
        }
        let ghost p0 = p;
        p.calculate_clues();
        proof {
            lemma_fresh_clues_empty(p0, p);
            assert forall|i: int| 0 <= i < p.squares@.len() implies #[trigger] p.squares@[i].content is TextContent
                && letters(p.squares@[i].content) == Seq::<char>::empty()
                && modifier(p.squares@[i].content) is None by {
                assert(p.squares@[i].content == p0.squares@[i].content);
            }
        }
        p
    }

    /// The side length of the grid.
    pub fn dim(&self) -> (r: usize)
        ensures
            r == self.dim,
    {
        self.dim
    }

    fn xy_to_index(&self, x: u32, y: u32) -> (r: usize)
        requires
            self.shape_ok(),
            x < self.dim,
            y < self.dim,
        ensures
            r == index_of(x as int, y as int, self.dim as int),
            r < self.squares@.len(),
    {
        let d = self.dim;
        assert((y as int) * (d as int) + (x as int) < d * d) by (nonlinear_arith)
            requires
                x < d,
                y < d,
        ;
        assert((y as int) * (d as int) <= 21 * 21) by (nonlinear_arith)
            requires
                y < d,
                d <= 21,
        ;
        (y as usize) * d + (x as usize)
    }

    /// Replaces the contents of cell `idx` by others of the same kind (letters
    /// for letters), which leaves the derived structure as it is.
    fn replace_letters(&mut self, idx: usize, c: SquareContents)
        requires
            old(self).wf(),
            idx < old(self).squares@.len(),
            c is TextContent,
            old(self).squares@[idx as int].content is TextContent,
        ensures
            final(self).wf(),
            unchanged_except_cell(*old(self), *final(self), idx as int),
            final(self).squares@[idx as int].content == c,
    {
        let ghost c1 = self.squares@;
        self.squares[idx].content = c;
        proof {
            assert(layout(self.squares@) =~= layout(c1));
            assert forall|i: int| 0 <= i < c1.len() implies #[trigger] same_derived(c1[i], self.squares@[i]) by {}
            lemma_structure_transfer(c1, self.squares@, self.dim as int, self.across_entries@, self.down_entries@);
        }
    }

    /// Flips cell `i` between blocker and empty letter cell; a new blocker loses
    /// its clue texts.
    fn toggle_cell(&mut self, i: usize)
        requires
            old(self).shape_ok(),
            i < old(self).squares@.len(),
        ensures
            final(self).shape_ok(),
            final(self).title == old(self).title,
            final(self).variant == old(self).variant,
            final(self).fill_only == old(self).fill_only,
            final(self).solved_hash == old(self).solved_hash,
            final(self).squares@.len() == old(self).squares@.len(),
            forall|j: int| 0 <= j < old(self).squares@.len() && j != i ==> #[trigger] final(self).squares@[j] == old(self).squares@[j],
            old(self).squares@[i as int].content is Blocker ==> {
                &&& final(self).squares@[i as int].content is TextContent
                &&& letters(final(self).squares@[i as int].content) == Seq::<char>::empty()
                &&& modifier(final(self).squares@[i as int].content) is None
                &&& final(self).squares@[i as int].across_clue_text == old(self).squares@[i as int].across_clue_text
                &&& final(self).squares@[i as int].down_clue_text == old(self).squares@[i as int].down_clue_text
            },
            old(self).squares@[i as int].content is TextContent ==> {
                &&& final(self).squares@[i as int].content is Blocker
                &&& final(self).squares@[i as int].across_clue_text is None
                &&& final(self).squares@[i as int].down_clue_text is None
            },
            final(self).squares@[i as int].x == old(self).squares@[i as int].x,
            final(self).squares@[i as int].y == old(self).squares@[i as int].y,
    {
        if self.squares[i].content.is_blocker() {
            self.squares[i].content = SquareContents::TextContent(String::new(), None);
        } else {
            self.squares[i].across_clue_text = None;
            self.squares[i].down_clue_text = None;
            self.squares[i].content = SquareContents::Blocker;
        }
        assert forall|j: int| 0 <= j < self.squares@.len() implies #[trigger] self.squares@[j].x == j % (
        self.dim as int) && self.squares@[j].y == j / (self.dim as int) by {
            assert(old(self).squares@[j].x == j % (self.dim as int));
            if j != i {
                assert(self.squares@[j] == old(self).squares@[j]);
            }
        }
        assert(self.dim == old(self).dim);
        assert(self.variant == old(self).variant);
        assert(self.squares@.len() == self.dim * self.dim);
        assert(self.dim == dim_of(self.variant));
        assert(self.shape_ok());
    }

    /// Flips the cell at `(x, y)` between blocker and empty letter cell, and on a
    /// symmetric kind (unless `nested`) also its half-turn mirror, the centre
    /// only once; then rebuilds the entries. Clue texts stay with the start
    /// cells that keep starting an entry. Fill-only puzzles are left as they are.
    pub fn cycle_blocker(&mut self, x: u32, y: u32, nested: bool)
        requires
            old(self).wf(),
            x < old(self).dim,
            y < old(self).dim,
        ensures
            old(self).fill_only ==> *final(self) == *old(self),
            !old(self).fill_only ==> {
                let i = index_of(x as int, y as int, old(self).dim as int);
                let p = *old(self);
                let q = *final(self);
                &&& q.wf()
                &&& q.title == p.title
                &&& q.variant == p.variant
                &&& q.fill_only == p.fill_only
                &&& q.solved_hash == p.solved_hash
                &&& q.squares@.len() == p.squares@.len()
                &&& (q.squares@[i].content is Blocker) == !(p.squares@[i].content is Blocker)
                &&& (is_symmetric(p.variant) && !nested) ==> (q.squares@[p.squares@.len() - 1 - i].content is Blocker)
                    == !(p.squares@[p.squares@.len() - 1 - i].content is Blocker)
                &&& forall|j: int| 0 <= j < p.squares@.len() ==> {
                    &&& (#[trigger] toggled_by(p, i, nested, j) && p.squares@[j].content is Blocker) ==> {
                        &&& q.squares@[j].content is TextContent
                        &&& letters(q.squares@[j].content) == Seq::<char>::empty()
                        &&& modifier(q.squares@[j].content) is None
                    }
                    &&& (toggled_by(p, i, nested, j) && p.squares@[j].content is TextContent) ==> q.squares@[j].content is Blocker
                    &&& !toggled_by(p, i, nested, j) ==> q.squares@[j].content == p.squares@[j].content
                    &&& q.squares@[j].across_clue_text is Some ==> q.squares@[j].across_clue_text->0@ == if toggled_by(p, i, nested, j) {
                        Seq::<char>::empty()
                    } else {
                        text_or_empty(p.squares@[j].across_clue_text)
                    }
                    &&& q.squares@[j].down_clue_text is Some ==> q.squares@[j].down_clue_text->0@ == if toggled_by(p, i, nested, j) {
                        Seq::<char>::empty()
                    } else {
                        text_or_empty(p.squares@[j].down_clue_text)
                    }
                }
            },
    {
        if self.fill_only {
            return;
        }
        let ghost p = *self;
        let index = self.xy_to_index(x, y);
        self.toggle_cell(index);
        let ghost p1 = *self;
        let symmetric = match self.variant {
            PuzzleType::Weekday | PuzzleType::Sunday => true,
            _ => false,
        };
        if symmetric && !nested {
            let mirror = self.squares.len() - 1 - index;
            if mirror != index {
                self.toggle_cell(mirror);
            }
        }
        let ghost p2 = *self;
        self.calculate_clues();
        proof {
            let b = layout(p.squares@);
            lemma_cells_bound(p);
            assert(index < p.squares@.len());
            assert(toggled_by(p, index as int, nested, index as int));
            if is_symmetric(p.variant) && !nested {
                assert(toggled_by(p, index as int, nested, p.squares@.len() - 1 - index));
            }
            assert forall|j: int| 0 <= j < p.squares@.len() implies {
                &&& (p.squares@[j].content is Blocker ==> p.squares@[j].across_clue_text is None
                    && p.squares@[j].down_clue_text is None)
                &&& (#[trigger] toggled_by(p, index as int, nested, j) ==> p2.squares@[j].across_clue_text is None
                    && p2.squares@[j].down_clue_text is None)
                &&& (!toggled_by(p, index as int, nested, j) ==> p2.squares@[j] == p.squares@[j])
                &&& (toggled_by(p, index as int, nested, j) && p.squares@[j].content is Blocker) ==> {
                    &&& p2.squares@[j].content is TextContent
                    &&& letters(p2.squares@[j].content) == Seq::<char>::empty()
                    &&& modifier(p2.squares@[j].content) is None
                }
                &&& (toggled_by(p, index as int, nested, j) && p.squares@[j].content is TextContent) ==> p2.squares@[j].content is Blocker
            } by {
                assert(cell_ok(b, p.squares@[j], p.dim as int, j));
                assert(b[j] == (p.squares@[j].content is Blocker));
            }
        }
    }

    /// Sets the clue of the entry along `variant` that carries `label`, and the
    /// clue text anchored at that entry's first cell. Clues of a fill-only
    /// puzzle are frozen: it is left as it is.
    pub fn set_clue_text(&mut self, label: u32, variant: EntryVariant, text: String)
        requires
            old(self).wf(),
            old(self).has_entry(label, variant),
        ensures
            old(self).fill_only ==> *final(self) == *old(self),
            !old(self).fill_only ==> {
                &&& final(self).wf()
                &&& final(self).title == old(self).title
                &&& final(self).dim == old(self).dim
                &&& final(self).variant == old(self).variant
                &&& final(self).fill_only == old(self).fill_only
                &&& final(self).solved_hash == old(self).solved_hash
                &&& variant == EntryVariant::Across ==> final(self).down_entries == old(self).down_entries
                &&& variant == EntryVariant::Down ==> final(self).across_entries == old(self).across_entries
                &&& final(self).entries_of(variant).len() == old(self).entries_of(variant).len()
                &&& forall|k: int| 0 <= k < old(self).entries_of(variant).len() ==> {
                    let e = #[trigger] old(self).entries_of(variant)[k];
                    let f = final(self).entries_of(variant)[k];
                    &&& e.label != label ==> f == e
                    &&& e.label == label ==> f.label == e.label && f.variant == e.variant
                        && f.member_indices == e.member_indices && f.clue@ == text@
                }
                &&& final(self).squares@.len() == old(self).squares@.len()
                &&& forall|j: int| 0 <= j < old(self).squares@.len() ==> {
                    let c = #[trigger] old(self).squares@[j];
                    let c2 = final(self).squares@[j];
                    &&& (c.label == Some(label) && clue_text_of(c, variant) is Some) ==> {
                        &&& c2.content == c.content
                        &&& clue_text_of(c2, variant) is Some
                        &&& clue_text_of(c2, variant)->0@ == text@
                    }
                    &&& !(c.label == Some(label) && clue_text_of(c, variant) is Some) ==> c2 == c
                }
            },
    {
        if self.fill_only {
            return;
        }
        let ghost p = *self;
        match variant {
            EntryVariant::Across => {
                let len = self.across_entries.len();
                let mut k: usize = 0;
                while self.across_entries[k].label != label
                    invariant
                        *self == p,
                        len == p.across_entries@.len(),
                        p.wf(),
                        p.has_entry(label, variant),
                        variant == EntryVariant::Across,
                        k < p.across_entries@.len(),
                        forall|l: int| 0 <= l < k ==> #[trigger] p.across_entries@[l].label != label,
                    decreases p.across_entries@.len() - k,
                {
                    assert(k + 1 < p.across_entries@.len()) by {
                        let l = choose|l: int| 0 <= l < p.entries_of(variant).len() && #[trigger] p.entries_of(variant)[l].label == label;
                        assert(p.across_entries@[l].label == label);
                    }
                    k = k + 1;
                }
                let ghost b = layout(p.squares@);
                let ghost d = p.dim as int;
                let ghost n = p.squares@.len() as int;
                proof {
                    lemma_cells_bound(p);
                    lemma_across_starts(b, d, n);
                    lemma_down_starts(b, d, n);
                }
                let ghost h = across_starts(b, d, n)[k as int];
                assert(entry_ok(p.across_entries@[k as int], p.squares@, d, h, EntryVariant::Across));
                assert(across_len(b, d, h) >= 1);
                assert(across_members(b, d, h)[0] == h as usize);
                let first = self.across_entries[k].member_indices[0];
                assert(first == h);
                self.across_entries[k].clue = text.clone();
                self.squares[first].across_clue_text = Some(text);
                proof {
                    self.lemma_after_set_clue(p, label, variant, k as int, h);
                }
            },
            EntryVariant::Down => {
                let len = self.down_entries.len();
                let mut k: usize = 0;
                while self.down_entries[k].label != label
                    invariant
                        *self == p,
                        len == p.down_entries@.len(),
                        p.wf(),
                        p.has_entry(label, variant),
                        variant == EntryVariant::Down,
                        k < p.down_entries@.len(),
                        forall|l: int| 0 <= l < k ==> #[trigger] p.down_entries@[l].label != label,
                    decreases p.down_entries@.len() - k,
                {
                    assert(k + 1 < p.down_entries@.len()) by {
                        let l = choose|l: int| 0 <= l < p.entries_of(variant).len() && #[trigger] p.entries_of(variant)[l].label == label;
                        assert(p.down_entries@[l].label == label);
                    }
                    k = k + 1;
                }
                let ghost b = layout(p.squares@);
                let ghost d = p.dim as int;
                let ghost n = p.squares@.len() as int;
                proof {
                    lemma_cells_bound(p);
                    lemma_across_starts(b, d, n);
                    lemma_down_starts(b, d, n);
                }
                let ghost h = down_starts(b, d, n)[k as int];
                assert(entry_ok(p.down_entries@[k as int], p.squares@, d, h, EntryVariant::Down));
                assert(down_len(b, d, h) >= 1);
                assert(down_members(b, d, h)[0] == h as usize);
                let first = self.down_entries[k].member_indices[0];
                assert(first == h);
                self.down_entries[k].clue = text.clone();
                self.squares[first].down_clue_text = Some(text);
                proof {
                    self.lemma_after_set_clue(p, label, variant, k as int, h);
                }
            },
        }
    }

    /// The state that `set_clue_text` leaves is well formed and is the one its
    /// contract describes.
    proof fn lemma_after_set_clue(&self, p: Puzzle, label: u32, v: EntryVariant, k: int, h: int)
        requires
            p.wf(),
            0 <= k < p.entries_of(v).len(),
            p.entries_of(v)[k].label == label,
            v == EntryVariant::Across ==> h == across_starts(layout(p.squares@), p.dim as int, p.squares@.len() as int)[k],
            v == EntryVariant::Down ==> h == down_starts(layout(p.squares@), p.dim as int, p.squares@.len() as int)[k],
            0 <= h < p.squares@.len(),
            self.title == p.title,
            self.dim == p.dim,
            self.variant == p.variant,
            self.fill_only == p.fill_only,
            self.solved_hash == p.solved_hash,
            v == EntryVariant::Across ==> self.down_entries == p.down_entries,
            v == EntryVariant::Down ==> self.across_entries == p.across_entries,
            self.entries_of(v) == p.entries_of(v).update(k, PuzzleEntry { clue: self.entries_of(v)[k].clue, ..p.entries_of(v)[k] }),
            self.squares@.len() == p.squares@.len(),
            forall|j: int| 0 <= j < p.squares@.len() && j != h ==> #[trigger] self.squares@[j] == p.squares@[j],
            v == EntryVariant::Across ==> self.squares@[h] == (Square { across_clue_text: Some(self.entries_of(v)[k].clue), ..p.squares@[h] }),
            v == EntryVariant::Down ==> self.squares@[h] == (Square { down_clue_text: Some(self.entries_of(v)[k].clue), ..p.squares@[h] }),
        ensures
            self.wf(),
            forall|l: int| 0 <= l < p.entries_of(v).len() && l != k ==> #[trigger] p.entries_of(v)[l].label != label,
            forall|j: int|
                0 <= j < p.squares@.len() && #[trigger] p.squares@[j].label == Some(label) && clue_text_of(p.squares@[j], v) is Some
                    ==> j == h,
            forall|j: int| 0 <= j < p.squares@.len() ==> {
                let c = #[trigger] p.squares@[j];
                let c2 = self.squares@[j];
                &&& (c.label == Some(label) && clue_text_of(c, v) is Some) ==> {
                    &&& c2.content == c.content
                    &&& clue_text_of(c2, v) is Some
                    &&& clue_text_of(c2, v)->0@ == self.entries_of(v)[k].clue@
                }
                &&& !(c.label == Some(label) && clue_text_of(c, v) is Some) ==> c2 == c
            },
    {
        let b = layout(p.squares@);
        let d = p.dim as int;
        let n = p.squares@.len() as int;
        let c1 = p.squares@;
        let c2 = self.squares@;
        lemma_across_starts(b, d, n);
        lemma_down_starts(b, d, n);
        assert(layout(c2) =~= b);
        assert forall|j: int| 0 <= j < n implies #[trigger] c2[j].x == j % d && c2[j].y == j / d by {
            assert(c1[j].x == j % d);
        }
        assert forall|j: int| 0 <= j < n implies #[trigger] cell_ok(b, c2[j], d, j) by {
            assert(cell_ok(b, c1[j], d, j));
        }
        let sa = across_starts(b, d, n);
        let sd = down_starts(b, d, n);
        assert forall|l: int| 0 <= l < self.across_entries@.len() implies #[trigger] entry_ok(
            self.across_entries@[l],
            c2,
            d,
            sa[l],
            EntryVariant::Across,
        ) by {
            assert(entry_ok(p.across_entries@[l], c1, d, sa[l], EntryVariant::Across));
            if v == EntryVariant::Across && l != k {
                assert(sa[l] != sa[k]);
            }
        }
        assert forall|l: int| 0 <= l < self.down_entries@.len() implies #[trigger] entry_ok(
            self.down_entries@[l],
            c2,
            d,
            sd[l],
            EntryVariant::Down,
        ) by {
            assert(entry_ok(p.down_entries@[l], c1, d, sd[l], EntryVariant::Down));
            if v == EntryVariant::Down && l != k {
                assert(sd[l] != sd[k]);
            }
        }
        assert(self.shape_ok());
        assert(self.across_entries@.len() == sa.len());
        assert(self.down_entries@.len() == sd.len());
        assert(structure_ok(c2, d, self.across_entries@, self.down_entries@));
        lemma_entry_labels_increase(p, v);
        lemma_cells_bound(p);
        assert forall|l: int| 0 <= l < p.entries_of(v).len() && l != k implies #[trigger] p.entries_of(v)[l].label != label by {
            if l < k {
                assert(p.entries_of(v)[l].label < p.entries_of(v)[k].label);
            } else {
                assert(p.entries_of(v)[k].label < p.entries_of(v)[l].label);
            }
        }
        assert forall|j: int|
            0 <= j < n && #[trigger] c1[j].label == Some(label) && clue_text_of(c1[j], v) is Some implies j == h by {
            assert(cell_ok(b, c1[j], d, j));
            assert(cell_ok(b, c1[h], d, h));
            if v == EntryVariant::Across {
                assert(entry_ok(p.across_entries@[k], c1, d, sa[k], EntryVariant::Across));
            } else {
                assert(entry_ok(p.down_entries@[k], c1, d, sd[k], EntryVariant::Down));
            }
            if j < h {
                lemma_label_order(b, d, j, h);
            } else if h < j {
                lemma_label_order(b, d, h, j);
            }
        }
        assert(cell_ok(b, c1[h], d, h));
        if v == EntryVariant::Across {
            assert(entry_ok(p.across_entries@[k], c1, d, sa[k], EntryVariant::Across));
        } else {
            assert(entry_ok(p.down_entries@[k], c1, d, sd[k], EntryVariant::Down));
        }
    }

    /// The across and down entries through the cell at `(x, y)`: none for a
    /// blocker, and for a letter cell the entries that carry its entry ids.
    pub fn get_clue_entries(&self, x: u32, y: u32) -> (r: (Option<&PuzzleEntry>, Option<&PuzzleEntry>))
        requires
            self.wf(),
            x < self.dim,
            y < self.dim,
        ensures
            self.cell(x as int, y as int).content is Blocker ==> r.0 is None && r.1 is None,
            self.cell(x as int, y as int).content is TextContent ==> {
                &&& r.0 is Some
                &&& r.1 is Some
                &&& exists|k: int| 0 <= k < self.across_entries@.len() && #[trigger] self.across_entries@[k] == *r.0->0
                    && Some(self.across_entries@[k].label) == self.cell(x as int, y as int).across_entry
                &&& exists|k: int| 0 <= k < self.down_entries@.len() && #[trigger] self.down_entries@[k] == *r.1->0
                    && Some(self.down_entries@[k].label) == self.cell(x as int, y as int).down_entry
            },
    {
        let index = self.xy_to_index(x, y);
        let sq = &self.squares[index];
        match &sq.content {
            SquareContents::Blocker => (None, None),
            SquareContents::TextContent(_, _) => {
                proof {
                    self.lemma_letter_cell_has_entries(index as int);
                }
                let across = match sq.across_entry {
                    Some(a) => find_entry(&self.across_entries, a),
                    None => None,
                };
                let down = match sq.down_entry {
                    Some(l) => find_entry(&self.down_entries, l),
                    None => None,
                };
                (across, down)
            },
        }
    }

    /// The readouts of the across and down entries through the cell at `(x, y)`,
    /// each empty where there is no such entry.
    pub fn get_square_clue_texts(&self, x: u32, y: u32) -> (r: (String, String))
        requires
            self.wf(),
            x < self.dim,
            y < self.dim,
        ensures
            self.cell(x as int, y as int).content is Blocker ==> r.0@ == Seq::<char>::empty()
                && r.1@ == Seq::<char>::empty(),
            self.cell(x as int, y as int).content is TextContent ==> {
                &&& exists|k: int| 0 <= k < self.across_entries@.len()
                    && Some(#[trigger] self.across_entries@[k].label) == self.cell(x as int, y as int).across_entry
                    && r.0@ == readout(self.across_entries@[k], "A: "@)
                &&& exists|k: int| 0 <= k < self.down_entries@.len()
                    && Some(#[trigger] self.down_entries@[k].label) == self.cell(x as int, y as int).down_entry
                    && r.1@ == readout(self.down_entries@[k], "D: "@)
            },
    {
        let (a, d) = self.get_clue_entries(x, y);
        let across = entry_readout(a, "A: ");
        let down = entry_readout(d, "D: ");
        (across, down)
    }

    /// A letter cell of a well-formed puzzle has entry ids on both axes, and
    /// each is carried by an entry.
    proof fn lemma_letter_cell_has_entries(&self, i: int)
        requires
            self.wf(),
            0 <= i < self.squares@.len(),
            self.squares@[i].content is TextContent,
        ensures
            self.squares@[i].across_entry is Some,
            self.squares@[i].down_entry is Some,
            exists|k: int| 0 <= k < self.across_entries@.len() && #[trigger] self.across_entries@[k].label
                == self.squares@[i].across_entry->0,
            exists|k: int| 0 <= k < self.down_entries@.len() && #[trigger] self.down_entries@[k].label
                == self.squares@[i].down_entry->0,
    {
        let b = layout(self.squares@);
        let d = self.dim as int;
        let n = self.squares@.len() as int;
        lemma_cells_bound(*self);
        assert(cell_ok(b, self.squares@[i], d, i));
        assert(!b[i]);
        lemma_across_head(b, d, i);
        lemma_down_head(b, d, i);
        lemma_across_starts(b, d, n);
        lemma_down_starts(b, d, n);
        let ha = across_head(b, d, i);
        let hd = down_head(b, d, i);
        let ka = choose|k: int| 0 <= k < across_starts(b, d, n).len() && #[trigger] across_starts(b, d, n)[k] == ha;
        let kd = choose|k: int| 0 <= k < down_starts(b, d, n).len() && #[trigger] down_starts(b, d, n)[k] == hd;
        assert(entry_ok(self.across_entries@[ka], self.squares@, d, ha, EntryVariant::Across));
        assert(entry_ok(self.down_entries@[kd], self.squares@, d, hd, EntryVariant::Down));
    }

    /// Puts `c` into the letter cell at `(x, y)`: after its letters when
    /// `append` holds, in place of them otherwise. The mark is kept; blockers are
    /// left as they are.
    pub fn modify_sq_contents(&mut self, x: u32, y: u32, c: char, append: bool)
        requires
            old(self).wf(),
            x < old(self).dim,
            y < old(self).dim,
        ensures
            final(self).wf(),
            old(self).cell(x as int, y as int).content is Blocker ==> *final(self) == *old(self),
            old(self).cell(x as int, y as int).content is TextContent ==> {
                &&& unchanged_except_cell(*old(self), *final(self), index_of(x as int, y as int, old(self).dim as int))
                &&& final(self).cell(x as int, y as int).content is TextContent
                &&& letters(final(self).cell(x as int, y as int).content) == if append {
                    letters(old(self).cell(x as int, y as int).content).push(c)
                } else {
                    seq![c]
                }
                &&& modifier(final(self).cell(x as int, y as int).content) == modifier(
                    old(self).cell(x as int, y as int).content,
                )
            },
    {
        let index = self.xy_to_index(x, y);
        let next = match &self.squares[index].content {
            SquareContents::Blocker => None,
            SquareContents::TextContent(s, m) => {
                let mut t = if append {
                    s.clone()
                } else {
                    String::new()
                };
                push_char(&mut t, c);
                Some(SquareContents::TextContent(t, *m))
            },
        };
        if let Some(cont) = next {
            self.replace_letters(index, cont);
        }
    }

    /// Empties the letters of the letter cell at `(x, y)`, keeping its mark.
    /// Blockers are left as they are.
    pub fn clear_sq_contents(&mut self, x: u32, y: u32)
        requires
            old(self).wf(),
            x < old(self).dim,
            y < old(self).dim,
        ensures
            final(self).wf(),
            old(self).cell(x as int, y as int).content is Blocker ==> *final(self) == *old(self),
            old(self).cell(x as int, y as int).content is TextContent ==> {
                &&& unchanged_except_cell(*old(self), *final(self), index_of(x as int, y as int, old(self).dim as int))
                &&& final(self).cell(x as int, y as int).content is TextContent
                &&& letters(final(self).cell(x as int, y as int).content) == Seq::<char>::empty()
                &&& modifier(final(self).cell(x as int, y as int).content) == modifier(
                    old(self).cell(x as int, y as int).content,
                )
            },
    {
        let index = self.xy_to_index(x, y);
        let next = match &self.squares[index].content {
            SquareContents::Blocker => None,
            SquareContents::TextContent(_, m) => Some(SquareContents::TextContent(String::new(), *m)),
        };
        if let Some(cont) = next {
            self.replace_letters(index, cont);
        }
    }

    /// Advances the mark of the letter cell at `(x, y)` through none, shading,
    /// circle, none; returns whether it did. Blockers and fill-only puzzles are
    /// left as they are.
    pub fn cycle_modifier(&mut self, x: u32, y: u32) -> (r: bool)
        requires
            old(self).wf(),
            x < old(self).dim,
            y < old(self).dim,
        ensures
            final(self).wf(),
            r == (!old(self).fill_only
                && old(self).squares@[index_of(x as int, y as int, old(self).dim as int)].content is TextContent),
            !r ==> *final(self) == *old(self),
            r ==> unchanged_except_cell(*old(self), *final(self), index_of(x as int, y as int, old(self).dim as int)),
            r ==> final(self).squares@[index_of(x as int, y as int, old(self).dim as int)].content is TextContent,
            r ==> letters(final(self).squares@[index_of(x as int, y as int, old(self).dim as int)].content)
                == letters(old(self).squares@[index_of(x as int, y as int, old(self).dim as int)].content),
            r ==> modifier(final(self).squares@[index_of(x as int, y as int, old(self).dim as int)].content)
                == next_modifier(modifier(old(self).squares@[index_of(x as int, y as int, old(self).dim as int)].content)),
    {
        if self.fill_only {
            return false;
        }
        let index = self.xy_to_index(x, y);
        let next = match &self.squares[index].content {
            SquareContents::Blocker => None,
            SquareContents::TextContent(s, m) => {
                let nm = match m {
                    None => Some(SquareModifier::Shading),
                    Some(SquareModifier::Shading) => Some(SquareModifier::Circle),
                    Some(SquareModifier::Circle) => None,
                };
                Some(SquareContents::TextContent(s.clone(), nm))
            },
        };
        match next {
            None => false,
            Some(c) => {
                self.replace_letters(index, c);
                true
            },
        }
    }

    /// The cell at column `x`, row `y`.
    pub fn at(&self, x: u32, y: u32) -> (r: &Square)
        requires
            self.shape_ok(),
            x < self.dim,
            y < self.dim,
        ensures
            *r == self.squares@[index_of(x as int, y as int, self.dim as int)],
    {
        let index = self.xy_to_index(x, y);
        &self.squares[index]
    }
}

} // verus!

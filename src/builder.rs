//! The entry builder: labels, links, clue anchors and entry lists, recomputed
//! from the blocker layout.
use vstd::prelude::*;
use crate::grid::{
    across_id, across_len, across_members, across_start, across_starts, cell_ok, down_id, down_len,
    down_members, down_start, down_starts, entry_ok, label_at, layout, starts_before, structure_ok,
    text_or_empty, EntryVariant, Puzzle, PuzzleEntry, Square,
};

verus! {

/// `q` is `p` after a full recomputation: the cells' contents are kept, every
/// derived field agrees with the layout, and each start cell keeps the clue text
/// it had (or an empty one where it had none).
pub open spec fn rebuilt(p: Puzzle, q: Puzzle) -> bool {
    &&& q.dim == p.dim
    &&& q.variant == p.variant
    &&& q.title == p.title
    &&& q.fill_only == p.fill_only
    &&& q.solved_hash == p.solved_hash
    &&& q.squares@.len() == p.squares@.len()
    &&& forall|i: int| 0 <= i < p.squares@.len() ==> {
        &&& #[trigger] q.squares@[i].content == p.squares@[i].content
        &&& q.squares@[i].x == p.squares@[i].x
        &&& q.squares@[i].y == p.squares@[i].y
    }
    &&& forall|i: int| 0 <= i < p.squares@.len() ==> {
        &&& (#[trigger] q.squares@[i].across_clue_text is Some ==> q.squares@[i].across_clue_text->0@
            == text_or_empty(p.squares@[i].across_clue_text))
        &&& (q.squares@[i].down_clue_text is Some ==> q.squares@[i].down_clue_text->0@
            == text_or_empty(p.squares@[i].down_clue_text))
    }
    &&& structure_ok(q.squares@, q.dim as int, q.across_entries@, q.down_entries@)
}

/// The members of the across run that starts at `h`.
fn across_run(cells: &Vec<Square>, d: usize, h: usize) -> (r: Vec<usize>)
    requires
        0 < d <= 21,
        h < cells@.len(),
        cells@.len() == d * d,
    ensures
        r@ == across_members(layout(cells@), d as int, h as int),
{
    let ghost b = layout(cells@);
    let n = cells.len();
    let mut r: Vec<usize> = Vec::new();
    let mut k: usize = 0;
    let mut go = true;
    while go
        invariant
            b == layout(cells@),
            n == cells@.len(),
            0 < d,
            h + k <= n,
            go ==> across_len(b, d as int, h as int) == k + across_len(b, d as int, (h + k) as int),
            !go ==> across_len(b, d as int, h as int) == k,
            r@ == Seq::new(k as nat, |t: int| (h + t) as usize),
        decreases n - (h + k) + if go { 1int } else { 0int },
    {
        let j = h + k;
        if j < n && !cells[j].content.is_blocker() {
            r.push(j);
            k = k + 1;
            if (j + 1) % d == 0 {
                go = false;
            }
        } else {
            go = false;
        }
        assert(r@ =~= Seq::new(k as nat, |t: int| (h + t) as usize));
    }
    r
}

/// The members of the down run that starts at `h`.
fn down_run(cells: &Vec<Square>, d: usize, h: usize) -> (r: Vec<usize>)
    requires
        0 < d <= 21,
        h < cells@.len(),
        cells@.len() == d * d,
    ensures
        r@ == down_members(layout(cells@), d as int, h as int),
{
    let ghost b = layout(cells@);
    let n = cells.len();
    let mut r: Vec<usize> = Vec::new();
    let mut k: usize = 0;
    let mut j: usize = h;
    assert(n <= 441) by (nonlinear_arith)
        requires
            n == d * d,
            d <= 21,
    ;
    let mut go = true;
    while go
        invariant
            b == layout(cells@),
            n == cells@.len(),
            0 < d,
            j < n,
            go ==> j == h + k * d && k <= j,
            go ==> down_len(b, d as int, h as int) == k + down_len(b, d as int, j as int),
            d <= 21,
            n <= 441,
            !go ==> down_len(b, d as int, h as int) == k,
            r@ == Seq::new(k as nat, |t: int| (h + t * d) as usize),
        decreases n - j + if go { 1int } else { 0int },
    {
        if !cells[j].content.is_blocker() {
            r.push(j);
            assert(j + d == h + (k + 1) * d) by (nonlinear_arith)
                requires
                    j == h + k * d,
            ;
            assert(k + 1 <= j + d) by (nonlinear_arith)
                requires
                    j == h + k * d,
                    d >= 1,
            ;
            k = k + 1;
            if j + d >= n {
                go = false;
            } else {
                j = j + d;
            }
        } else {
            go = false;
        }
        assert(r@ =~= Seq::new(k as nat, |t: int| (h + t * d) as usize));
    }
    r
}

/// Recomputes the derived fields of cell `i` from the layout, given the number
/// of start cells before it; returns the number of start cells up to and including it.
fn refresh_cell(cells: &mut Vec<Square>, d: usize, i: usize, count: u32) -> (c: u32)
    requires
        0 < d <= 21,
        old(cells)@.len() == d * d,
        i < d * d,
        forall|j: int| 0 <= j < i ==> #[trigger] cell_ok(layout(old(cells)@), old(cells)@[j], d as int, j),
        count == starts_before(layout(old(cells)@), d as int, i as int),
        count <= i,
    ensures
        final(cells)@.len() == old(cells)@.len(),
        layout(final(cells)@) == layout(old(cells)@),
        forall|j: int| 0 <= j < old(cells)@.len() && j != i ==> #[trigger] final(cells)@[j] == old(cells)@[j],
        final(cells)@[i as int].content == old(cells)@[i as int].content,
        final(cells)@[i as int].x == old(cells)@[i as int].x,
        final(cells)@[i as int].y == old(cells)@[i as int].y,
        cell_ok(layout(old(cells)@), final(cells)@[i as int], d as int, i as int),
        final(cells)@[i as int].across_clue_text is Some ==> final(cells)@[i as int].across_clue_text->0@
            == text_or_empty(old(cells)@[i as int].across_clue_text),
        final(cells)@[i as int].down_clue_text is Some ==> final(cells)@[i as int].down_clue_text->0@
            == text_or_empty(old(cells)@[i as int].down_clue_text),
        c == starts_before(layout(old(cells)@), d as int, i + 1),
        c <= i + 1,
{
    let ghost b = layout(cells@);
    let n = cells.len();
    assert(n <= 441) by (nonlinear_arith)
        requires
            n == d * d,
            d <= 21,
    ;
    assert(0int % (d as int) == 0) by (nonlinear_arith)
        requires
            d > 0,
    ;
    assert(b[i as int] == (cells@[i as int].content is Blocker));
    let blk = cells[i].content.is_blocker();
    let a_start = !blk && (i % d == 0 || cells[i - 1].content.is_blocker());
    let d_start = !blk && (i < d || cells[i - d].content.is_blocker());
    assert(a_start == across_start(b, d as int, i as int));
    assert(d_start == down_start(b, d as int, i as int));
    let mut c = count;
    let label = if a_start || d_start {
        c = c + 1;
        Some(c)
    } else {
        None
    };
    assert(label == label_at(b, d as int, i as int));
    let across_entry = if blk {
        None
    } else if a_start {
        label
    } else {
        assert(cell_ok(b, cells@[i - 1], d as int, i - 1));
        cells[i - 1].across_entry
    };
    let down_entry = if blk {
        None
    } else if d_start {
        label
    } else {
        assert(cell_ok(b, cells@[i - d], d as int, i - d));
        cells[i - d].down_entry
    };
    assert(across_entry == across_id(b, d as int, i as int));
    assert(down_entry == down_id(b, d as int, i as int));
    let next_across = if !blk && i + 1 < n && (i + 1) % d != 0 && !cells[i + 1].content.is_blocker() {
        Some(i + 1)
    } else {
        None
    };
    let prev_across = if !blk && i > 0 && i % d != 0 && !cells[i - 1].content.is_blocker() {
        Some(i - 1)
    } else {
        None
    };
    let next_down = if !blk && i + d < n && !cells[i + d].content.is_blocker() {
        Some(i + d)
    } else {
        None
    };
    let prev_down = if !blk && i >= d && !cells[i - d].content.is_blocker() {
        Some(i - d)
    } else {
        None
    };
    let across_text = if a_start {
        match &cells[i].across_clue_text {
            Some(s) => Some(s.clone()),
            None => Some(String::new()),
        }
    } else {
        None
    };
    let down_text = if d_start {
        match &cells[i].down_clue_text {
            Some(s) => Some(s.clone()),
            None => Some(String::new()),
        }
    } else {
        None
    };
    cells[i].label = label;
    cells[i].across_entry = across_entry;
    cells[i].down_entry = down_entry;
    cells[i].next_across = next_across;
    cells[i].prev_across = prev_across;
    cells[i].next_down = next_down;
    cells[i].prev_down = prev_down;
    cells[i].across_clue_text = across_text;
    cells[i].down_clue_text = down_text;
    assert(layout(cells@) =~= b);
    c
}

/// Pushes onto the entry lists the entries that start at cell `i`, if any.
fn push_entries_at(
    cells: &Vec<Square>,
    d: usize,
    i: usize,
    across: &mut Vec<PuzzleEntry>,
    down: &mut Vec<PuzzleEntry>,
)
    requires
        0 < d <= 21,
        cells@.len() == d * d,
        i < d * d,
        forall|j: int| 0 <= j < cells@.len() ==> #[trigger] cell_ok(layout(cells@), cells@[j], d as int, j),
        old(across)@.len() == across_starts(layout(cells@), d as int, i as int).len(),
        forall|k: int|
            0 <= k < old(across)@.len() ==> #[trigger] entry_ok(
                old(across)@[k],
                cells@,
                d as int,
                across_starts(layout(cells@), d as int, i as int)[k],
                EntryVariant::Across,
            ),
        old(down)@.len() == down_starts(layout(cells@), d as int, i as int).len(),
        forall|k: int|
            0 <= k < old(down)@.len() ==> #[trigger] entry_ok(
                old(down)@[k],
                cells@,
                d as int,
                down_starts(layout(cells@), d as int, i as int)[k],
                EntryVariant::Down,
            ),
    ensures
        final(across)@.len() == across_starts(layout(cells@), d as int, i + 1).len(),
        forall|k: int|
            0 <= k < final(across)@.len() ==> #[trigger] entry_ok(
                final(across)@[k],
                cells@,
                d as int,
                across_starts(layout(cells@), d as int, i + 1)[k],
                EntryVariant::Across,
            ),
        final(down)@.len() == down_starts(layout(cells@), d as int, i + 1).len(),
        forall|k: int|
            0 <= k < final(down)@.len() ==> #[trigger] entry_ok(
                final(down)@[k],
                cells@,
                d as int,
                down_starts(layout(cells@), d as int, i + 1)[k],
                EntryVariant::Down,
            ),
{
    let ghost b = layout(cells@);
    assert(cell_ok(b, cells@[i as int], d as int, i as int));
    let ghost sa = across_starts(b, d as int, i as int);
    let ghost sd = down_starts(b, d as int, i as int);
    if cells[i].across_clue_text.is_some() {
        let members = across_run(cells, d, i);
        let clue = match &cells[i].across_clue_text {
            Some(s) => s.clone(),
            None => String::new(),
        };
        let label = match cells[i].label {
            Some(l) => l,
            None => 0,
        };
        across.push(PuzzleEntry { label, variant: EntryVariant::Across, member_indices: members, clue });
    }
    if cells[i].down_clue_text.is_some() {
        let members = down_run(cells, d, i);
        let clue = match &cells[i].down_clue_text {
            Some(s) => s.clone(),
            None => String::new(),
        };
        let label = match cells[i].label {
            Some(l) => l,
            None => 0,
        };
        down.push(PuzzleEntry { label, variant: EntryVariant::Down, member_indices: members, clue });
    }
    assert forall|k: int| 0 <= k < across@.len() implies #[trigger] entry_ok(
        across@[k],
        cells@,
        d as int,
        across_starts(b, d as int, i + 1)[k],
        EntryVariant::Across,
    ) by {
        if k < sa.len() {
            assert(entry_ok(old(across)@[k], cells@, d as int, sa[k], EntryVariant::Across));
        }
    }
    assert forall|k: int| 0 <= k < down@.len() implies #[trigger] entry_ok(
        down@[k],
        cells@,
        d as int,
        down_starts(b, d as int, i + 1)[k],
        EntryVariant::Down,
    ) by {
        if k < sd.len() {
            assert(entry_ok(old(down)@[k], cells@, d as int, sd[k], EntryVariant::Down));
        }
    }
}

impl Puzzle {
    /// Recomputes labels, entry ids, links, clue anchors and both entry lists
    /// from the blocker layout. Does nothing on a fill-only puzzle.
    pub fn calculate_clues(&mut self)
        requires
            old(self).shape_ok(),
        ensures
            old(self).fill_only ==> *final(self) == *old(self),
            !old(self).fill_only ==> rebuilt(*old(self), *final(self)),
            final(self).shape_ok(),
    {
        if self.fill_only {
            return;
        }
        let ghost p0 = *self;
        let ghost b = layout(self.squares@);
        let d = self.dim;
        let n = self.squares.len();
        let mut count: u32 = 0;
        let mut i: usize = 0;
        while i < n
            invariant
                p0.shape_ok(),
                b == layout(p0.squares@),
                d == p0.dim,
                n == d * d,
                i <= n,
                self.dim == p0.dim,
                self.variant == p0.variant,
                self.title == p0.title,
                self.fill_only == p0.fill_only,
                self.solved_hash == p0.solved_hash,
                self.squares@.len() == n,
                layout(self.squares@) == b,
                forall|j: int|
                    0 <= j < n ==> {
                        &&& #[trigger] self.squares@[j].content == p0.squares@[j].content
                        &&& self.squares@[j].x == p0.squares@[j].x
                        &&& self.squares@[j].y == p0.squares@[j].y
                    },
                forall|j: int| 0 <= j < i ==> #[trigger] cell_ok(b, self.squares@[j], d as int, j),
                forall|j: int|
                    0 <= j < i ==> {
                        &&& (#[trigger] self.squares@[j].across_clue_text is Some
                            ==> self.squares@[j].across_clue_text->0@ == text_or_empty(
                            p0.squares@[j].across_clue_text))
                        &&& (self.squares@[j].down_clue_text is Some
                            ==> self.squares@[j].down_clue_text->0@ == text_or_empty(
                            p0.squares@[j].down_clue_text))
                    },
                forall|j: int| i <= j < n ==> #[trigger] self.squares@[j] == p0.squares@[j],
                count == starts_before(b, d as int, i as int),
                count <= i,
            decreases n - i,
        {
            count = refresh_cell(&mut self.squares, d, i, count);
            i = i + 1;
        }
        assert forall|j: int| 0 <= j < self.squares@.len() implies #[trigger] self.squares@[j].x == j % (
        self.dim as int) && self.squares@[j].y == j / (self.dim as int) by {
            assert(self.squares@[j].content == p0.squares@[j].content);
        }
        let ghost cells = self.squares@;
        let mut across: Vec<PuzzleEntry> = Vec::new();
        let mut down: Vec<PuzzleEntry> = Vec::new();
        let mut i: usize = 0;
        while i < n
            invariant
                self.squares@ == cells,
                self.shape_ok(),
                self.squares@.len() == n,
                0 < d <= 21,
                n == d * d,
                i <= n,
                forall|j: int|
                    0 <= j < n ==> #[trigger] cell_ok(layout(self.squares@), self.squares@[j], d as int, j),
                across@.len() == across_starts(layout(self.squares@), d as int, i as int).len(),
                forall|k: int|
                    0 <= k < across@.len() ==> #[trigger] entry_ok(
                        across@[k],
                        self.squares@,
                        d as int,
                        across_starts(layout(self.squares@), d as int, i as int)[k],
                        EntryVariant::Across,
                    ),
                down@.len() == down_starts(layout(self.squares@), d as int, i as int).len(),
                forall|k: int|
                    0 <= k < down@.len() ==> #[trigger] entry_ok(
                        down@[k],
                        self.squares@,
                        d as int,
                        down_starts(layout(self.squares@), d as int, i as int)[k],
                        EntryVariant::Down,
                    ),
            decreases n - i,
        {
            push_entries_at(&self.squares, d, i, &mut across, &mut down);
            i = i + 1;
        }
        self.across_entries = across;
        self.down_entries = down;
        assert(self.squares@ == cells);
        assert(self.shape_ok());
    }
}

} // verus!

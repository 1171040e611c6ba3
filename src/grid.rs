use vstd::prelude::*;

verus! {

/// What a cell holds: nothing (a blocker) or letters with an optional mark.
pub enum SquareContents {
    Blocker,
    TextContent(String, Option<SquareModifier>),
}

/// A visual mark on a letter cell.
#[derive(Clone, Copy, Debug, PartialEq, Eq, Structural)]
pub enum SquareModifier {
    Shading,
    Circle,
}

/// One grid position and everything derived for it.
pub struct Square {
    pub content: SquareContents,
    pub label: Option<u32>,
    pub x: u32,
    pub y: u32,
    pub across_entry: Option<u32>,
    pub next_across: Option<usize>,
    pub prev_across: Option<usize>,
    pub across_clue_text: Option<String>,
    pub down_entry: Option<u32>,
    pub next_down: Option<usize>,
    pub prev_down: Option<usize>,
    pub down_clue_text: Option<String>,
}

/// The axis of an entry.
#[derive(Clone, Copy, Debug, PartialEq, Eq, Structural)]
pub enum EntryVariant {
    Across,
    Down,
}

/// A maximal run of letter cells along one axis.
pub struct PuzzleEntry {
    pub label: u32,
    pub variant: EntryVariant,
    pub member_indices: Vec<usize>,
    pub clue: String,
}

/// The kind of puzzle, which fixes the grid's dimension and symmetry rule.
#[derive(Clone, Copy, Debug, PartialEq, Eq, Structural)]
pub enum PuzzleType {
    Mini,
    Weekday,
    WeekdayAsymmetric,
    Sunday,
}

/// A crossword grid together with its derived entries.
pub struct Puzzle {
    pub title: String,
    pub dim: usize,
    pub variant: PuzzleType,
    pub squares: Vec<Square>,
    pub across_entries: Vec<PuzzleEntry>,
    pub down_entries: Vec<PuzzleEntry>,
    pub fill_only: bool,
    pub solved_hash: Option<u64>,
}

/// The side length of a grid of the given kind.
pub open spec fn dim_of(p: PuzzleType) -> nat {
    match p {
        PuzzleType::Mini => 5,
        PuzzleType::Weekday => 15,
        PuzzleType::WeekdayAsymmetric => 15,
        PuzzleType::Sunday => 21,
    }
}

/// Whether toggling a blocker also toggles its rotational mirror.
pub open spec fn is_symmetric(p: PuzzleType) -> bool {
    p == PuzzleType::Weekday || p == PuzzleType::Sunday
}

impl SquareContents {
    pub fn is_blocker(&self) -> (r: bool)
        ensures
            r == (*self is Blocker),
    {
        match self {
            SquareContents::Blocker => true,
            SquareContents::TextContent(_, _) => false,
        }
    }
}

pub fn match_puzzle_dim(p: &PuzzleType) -> (r: usize)
    ensures
        r == dim_of(*p),
        r == 5 || r == 15 || r == 21,
{
    match p {
        PuzzleType::Mini => 5,
        PuzzleType::Weekday => 15,
        PuzzleType::WeekdayAsymmetric => 15,
        PuzzleType::Sunday => 21,
    }
}


/// Which cells are blockers, in row-major order.
pub open spec fn layout(cells: Seq<Square>) -> Seq<bool> {
    cells.map_values(|s: Square| s.content is Blocker)
}

/// Cell `i` starts an across entry: a letter cell at the row's start or right after a blocker.
pub open spec fn across_start(b: Seq<bool>, d: int, i: int) -> bool {
    0 <= i < b.len() && !b[i] && (i % d == 0 || b[i - 1])
}

/// Cell `i` starts a down entry: a letter cell in the top row or right below a blocker.
pub open spec fn down_start(b: Seq<bool>, d: int, i: int) -> bool {
    0 <= i < b.len() && !b[i] && (i < d || b[i - d])
}

pub open spec fn is_start(b: Seq<bool>, d: int, i: int) -> bool {
    across_start(b, d, i) || down_start(b, d, i)
}

/// How many start cells lie before index `n` in row-major order.
pub open spec fn starts_before(b: Seq<bool>, d: int, n: int) -> nat
    decreases n,
{
    if n <= 0 {
        0
    } else {
        starts_before(b, d, n - 1) + if is_start(b, d, n - 1) {
            1nat
        } else {
            0nat
        }
    }
}

/// The number a start cell carries: one more than the starts before it.
pub open spec fn label_num(b: Seq<bool>, d: int, i: int) -> u32 {
    (starts_before(b, d, i) + 1) as u32
}

/// The label of cell `i`, if it starts an entry.
pub open spec fn label_at(b: Seq<bool>, d: int, i: int) -> Option<u32> {
    if is_start(b, d, i) {
        Some(label_num(b, d, i))
    } else {
        None
    }
}

/// The first cell of the across run through `i`.
pub open spec fn across_head(b: Seq<bool>, d: int, i: int) -> int
    decreases i,
{
    if i <= 0 || i % d == 0 || b[i - 1] {
        i
    } else {
        across_head(b, d, i - 1)
    }
}

/// The first cell of the down run through `i`.
pub open spec fn down_head(b: Seq<bool>, d: int, i: int) -> int
    decreases i,
{
    if d <= 0 || i < d || b[i - d] {
        i
    } else {
        down_head(b, d, i - d)
    }
}

pub open spec fn across_id(b: Seq<bool>, d: int, i: int) -> Option<u32> {
    if 0 <= i < b.len() && !b[i] {
        Some(label_num(b, d, across_head(b, d, i)))
    } else {
        None
    }
}

pub open spec fn down_id(b: Seq<bool>, d: int, i: int) -> Option<u32> {
    if 0 <= i < b.len() && !b[i] {
        Some(label_num(b, d, down_head(b, d, i)))
    } else {
        None
    }
}

pub open spec fn next_across_at(b: Seq<bool>, d: int, i: int) -> Option<usize> {
    if 0 <= i && i + 1 < b.len() && !b[i] && (i + 1) % d != 0 && !b[i + 1] {
        Some((i + 1) as usize)
    } else {
        None
    }
}

pub open spec fn prev_across_at(b: Seq<bool>, d: int, i: int) -> Option<usize> {
    if 0 < i < b.len() && !b[i] && i % d != 0 && !b[i - 1] {
        Some((i - 1) as usize)
    } else {
        None
    }
}

pub open spec fn next_down_at(b: Seq<bool>, d: int, i: int) -> Option<usize> {
    if 0 <= i && i + d < b.len() && !b[i] && !b[i + d] {
        Some((i + d) as usize)
    } else {
        None
    }
}

pub open spec fn prev_down_at(b: Seq<bool>, d: int, i: int) -> Option<usize> {
    if d <= i < b.len() && !b[i] && !b[i - d] {
        Some((i - d) as usize)
    } else {
        None
    }
}

/// Length of the across run of letter cells from `i` to the row's end or the next blocker.
pub open spec fn across_len(b: Seq<bool>, d: int, i: int) -> nat
    decreases b.len() - i,
{
    if i < 0 || i >= b.len() || b[i] || d <= 0 {
        0
    } else if (i + 1) % d == 0 {
        1
    } else {
        1 + across_len(b, d, i + 1)
    }
}

/// Length of the down run of letter cells from `i` to the grid's bottom or the next blocker.
pub open spec fn down_len(b: Seq<bool>, d: int, i: int) -> nat
    decreases b.len() - i,
{
    if i < 0 || i >= b.len() || b[i] || d <= 0 {
        0
    } else if i + d >= b.len() {
        1
    } else {
        1 + down_len(b, d, i + d)
    }
}

pub open spec fn across_members(b: Seq<bool>, d: int, h: int) -> Seq<usize> {
    Seq::new(across_len(b, d, h), |k: int| (h + k) as usize)
}

pub open spec fn down_members(b: Seq<bool>, d: int, h: int) -> Seq<usize> {
    Seq::new(down_len(b, d, h), |k: int| (h + k * d) as usize)
}

/// The across starts below index `n`, ascending.
pub open spec fn across_starts(b: Seq<bool>, d: int, n: int) -> Seq<int>
    decreases n,
{
    if n <= 0 {
        seq![]
    } else if across_start(b, d, n - 1) {
        across_starts(b, d, n - 1).push(n - 1)
    } else {
        across_starts(b, d, n - 1)
    }
}

/// The down starts below index `n`, ascending.
pub open spec fn down_starts(b: Seq<bool>, d: int, n: int) -> Seq<int>
    decreases n,
{
    if n <= 0 {
        seq![]
    } else if down_start(b, d, n - 1) {
        down_starts(b, d, n - 1).push(n - 1)
    } else {
        down_starts(b, d, n - 1)
    }
}

/// The characters of an optional clue text, empty where there is none.
pub open spec fn text_or_empty(t: Option<String>) -> Seq<char> {
    match t {
        Some(s) => s@,
        None => Seq::empty(),
    }
}

/// Entry `e` is the across (or down) entry that starts at cell `h`.
pub open spec fn entry_ok(e: PuzzleEntry, cells: Seq<Square>, d: int, h: int, v: EntryVariant) -> bool {
    let b = layout(cells);
    &&& e.label == label_num(b, d, h)
    &&& e.variant == v
    &&& v == EntryVariant::Across ==> e.member_indices@ == across_members(b, d, h)
        && cells[h].across_clue_text is Some && e.clue@ == cells[h].across_clue_text->0@
    &&& v == EntryVariant::Down ==> e.member_indices@ == down_members(b, d, h)
        && cells[h].down_clue_text is Some && e.clue@ == cells[h].down_clue_text->0@
}

/// Everything derived for cell `c` at index `i` agrees with the blocker layout `b`.
pub open spec fn cell_ok(b: Seq<bool>, c: Square, d: int, i: int) -> bool {
    &&& c.label == label_at(b, d, i)
    &&& c.across_entry == across_id(b, d, i)
    &&& c.down_entry == down_id(b, d, i)
    &&& c.next_across == next_across_at(b, d, i)
    &&& c.prev_across == prev_across_at(b, d, i)
    &&& c.next_down == next_down_at(b, d, i)
    &&& c.prev_down == prev_down_at(b, d, i)
    &&& (c.across_clue_text is Some <==> across_start(b, d, i))
    &&& (c.down_clue_text is Some <==> down_start(b, d, i))
}

/// Labels, links, clue anchors and entry lists all agree with the blocker layout.
pub open spec fn structure_ok(
    cells: Seq<Square>,
    d: int,
    across: Seq<PuzzleEntry>,
    down: Seq<PuzzleEntry>,
) -> bool {
    let b = layout(cells);
    let sa = across_starts(b, d, cells.len() as int);
    let sd = down_starts(b, d, cells.len() as int);
    &&& forall|i: int| 0 <= i < cells.len() ==> #[trigger] cell_ok(b, cells[i], d, i)
    &&& across.len() == sa.len()
    &&& forall|k: int| 0 <= k < across.len() ==> #[trigger] entry_ok(across[k], cells, d, sa[k], EntryVariant::Across)
    &&& down.len() == sd.len()
    &&& forall|k: int| 0 <= k < down.len() ==> #[trigger] entry_ok(down[k], cells, d, sd[k], EntryVariant::Down)
}

/// The letters a cell holds; none for a blocker.
pub open spec fn letters(c: SquareContents) -> Seq<char> {
    match c {
        SquareContents::Blocker => Seq::empty(),
        SquareContents::TextContent(s, _) => s@,
    }
}

/// The mark on a cell; none for a blocker.
pub open spec fn modifier(c: SquareContents) -> Option<SquareModifier> {
    match c {
        SquareContents::Blocker => None,
        SquareContents::TextContent(_, m) => m,
    }
}

/// The mark that follows `m` in the cycle none, shading, circle, none.
pub open spec fn next_modifier(m: Option<SquareModifier>) -> Option<SquareModifier> {
    match m {
        None => Some(SquareModifier::Shading),
        Some(SquareModifier::Shading) => Some(SquareModifier::Circle),
        Some(SquareModifier::Circle) => None,
    }
}

/// The two cells agree on everything but their contents.
pub open spec fn same_derived(s1: Square, s2: Square) -> bool {
    &&& s1.label == s2.label
    &&& s1.x == s2.x
    &&& s1.y == s2.y
    &&& s1.across_entry == s2.across_entry
    &&& s1.next_across == s2.next_across
    &&& s1.prev_across == s2.prev_across
    &&& s1.across_clue_text == s2.across_clue_text
    &&& s1.down_entry == s2.down_entry
    &&& s1.next_down == s2.next_down
    &&& s1.prev_down == s2.prev_down
    &&& s1.down_clue_text == s2.down_clue_text
}

/// The clue text that cell `c` anchors along axis `v`.
pub open spec fn clue_text_of(c: Square, v: EntryVariant) -> Option<String> {
    match v {
        EntryVariant::Across => c.across_clue_text,
        EntryVariant::Down => c.down_clue_text,
    }
}

/// The row-major index of `(x, y)`.
pub open spec fn index_of(x: int, y: int, d: int) -> int {
    y * d + x
}

impl Puzzle {
    /// The grid has its kind's dimension, and each cell knows its coordinates.
    pub open spec fn shape_ok(&self) -> bool {
        &&& self.dim == dim_of(self.variant)
        &&& self.squares@.len() == self.dim * self.dim
        &&& forall|i: int| 0 <= i < self.squares@.len() ==> #[trigger] self.squares@[i].x == i % (self.dim as int)
            && self.squares@[i].y == i / (self.dim as int)
    }

    /// The puzzle's invariant: its shape, and derived structure that agrees with its cells.
    pub open spec fn wf(&self) -> bool {
        &&& self.shape_ok()
        &&& structure_ok(self.squares@, self.dim as int, self.across_entries@, self.down_entries@)
    }

    /// The cell at column `x`, row `y`.
    pub open spec fn cell(&self, x: int, y: int) -> Square {
        self.squares@[index_of(x, y, self.dim as int)]
    }

    /// The entries along axis `v`.
    pub open spec fn entries_of(&self, v: EntryVariant) -> Seq<PuzzleEntry> {
        match v {
            EntryVariant::Across => self.across_entries@,
            EntryVariant::Down => self.down_entries@,
        }
    }

    /// Whether an entry along axis `v` carries `label`.
    pub open spec fn has_entry(&self, label: u32, v: EntryVariant) -> bool {
        exists|k: int| 0 <= k < self.entries_of(v).len() && #[trigger] self.entries_of(v)[k].label == label
    }

    pub open spec fn blockers(&self) -> Seq<bool> {
        layout(self.squares@)
    }
}

} // verus!

//! The solved-state oracle: a fingerprint of the grid's letters, compared with
//! a stored target.
use vstd::prelude::*;
use crate::grid::{Puzzle, Square, SquareContents};

verus! {

/// What a cell contributes to the grid's text: its letters, or `#` for a blocker.
pub open spec fn cell_text(c: SquareContents) -> Seq<char> {
    match c {
        SquareContents::Blocker => seq!['#'],
        SquareContents::TextContent(s, _) => s@,
    }
}

/// The cells' texts concatenated in row-major order.
pub open spec fn grid_text(cells: Seq<Square>) -> Seq<char>
    decreases cells.len(),
{
    if cells.len() == 0 {
        Seq::empty()
    } else {
        grid_text(cells.drop_last()) + cell_text(cells.last().content)
    }
}

/// The standard library's default hash of a string with these characters.
pub uninterp spec fn text_hash(s: Seq<char>) -> u64;

/// Relies on `DefaultHasher::new` with `Hash for String` and `Hasher::finish`:
/// a hasher made by `new` always starts from the same keys, so the value
/// depends on the string's characters alone.
#[verifier::external_body]
fn hash_text(s: &String) -> (r: u64)
    ensures
        r == text_hash(s@),
{
    let mut hasher = std::collections::hash_map::DefaultHasher::new();
    std::hash::Hash::hash(s, &mut hasher);
    std::hash::Hasher::finish(&hasher)
}

impl Puzzle {
    /// The grid's letters in row-major order, `#` standing for each blocker.
    pub fn grid_string(&self) -> (r: String)
        ensures
            r@ == grid_text(self.squares@),
    {
        let mut s = String::new();
        let mut i: usize = 0;
        while i < self.squares.len()
            invariant
                i <= self.squares@.len(),
                s@ == grid_text(self.squares@.subrange(0, i as int)),
            decreases self.squares@.len() - i,
        {
            proof {
                reveal_strlit("#");
                let t = self.squares@.subrange(0, i + 1);
                assert(t.drop_last() =~= self.squares@.subrange(0, i as int));
            }
            match &self.squares[i].content {
                SquareContents::Blocker => s.append("#"),
                SquareContents::TextContent(t, _) => s.append(t.as_str()),
            }
            i = i + 1;
        }
        assert(self.squares@.subrange(0, self.squares@.len() as int) =~= self.squares@);
        s
    }

    /// The fingerprint of the grid's content: the hash of its text.
    pub fn get_puzzle_total_hash(&self) -> (r: u64)
        ensures
            r == text_hash(grid_text(self.squares@)),
    {
        let s = self.grid_string();
        hash_text(&s)
    }

    /// Whether a target fingerprint is stored and equals `current`.
    pub fn solved_against(&self, current: u64) -> (r: bool)
        ensures
            r == (self.solved_hash == Some(current)),
    {
        match self.solved_hash {
            Some(h) => h == current,
            None => false,
        }
    }

    /// Whether a target fingerprint is stored and equals the grid's fingerprint.
    pub fn is_solved(&self) -> (r: bool)
        ensures
            r == (self.solved_hash == Some(text_hash(grid_text(self.squares@)))),
    {
        let current = self.get_puzzle_total_hash();
        self.solved_against(current)
    }
}

} // verus!

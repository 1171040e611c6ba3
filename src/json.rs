//! The persisted document as JSON text, read and written through `serde_json`.
use vstd::prelude::*;
use crate::grid::{Puzzle, PuzzleEntry, Square};
use crate::oracle::{grid_text, text_hash};
use crate::persist::{
    doc_error, encode_square, loaded_from, variant_name, LoadError, LoadedDoc, SavedPuzzle,
};
use crate::text::decimal;

verus! {

/// The document fields that the JSON text `text` holds, if it is JSON at all.
pub uninterp spec fn json_doc(text: Seq<char>) -> Option<LoadedDoc>;

/// The JSON text of a document with these fields: the kind, the cell strings,
/// the across and down clue pairs, and the target fingerprint.
pub uninterp spec fn saved_json(
    variant: Seq<char>,
    squares: Seq<Seq<char>>,
    across: Seq<(Seq<char>, Seq<char>)>,
    down: Seq<(Seq<char>, Seq<char>)>,
    hash: Seq<char>,
) -> Seq<char>;

pub open spec fn strings_view(v: Seq<String>) -> Seq<Seq<char>> {
    v.map_values(|s: String| s@)
}

pub open spec fn pairs_view(v: Seq<(String, String)>) -> Seq<(Seq<char>, Seq<char>)> {
    v.map_values(|p: (String, String)| (p.0@, p.1@))
}

/// The clue pairs of a list of entries, as characters.
pub open spec fn clue_pairs_view(entries: Seq<PuzzleEntry>) -> Seq<(Seq<char>, Seq<char>)> {
    entries.map_values(|e: PuzzleEntry| (decimal(e.label as nat), e.clue@))
}

/// The JSON text that saving `p` writes.
pub open spec fn saved_text(p: Puzzle, strip: bool) -> Seq<char> {
    saved_json(
        variant_name(p.variant),
        p.squares@.map_values(|c: Square| encode_square(c.content, strip)),
        clue_pairs_view(p.across_entries@),
        clue_pairs_view(p.down_entries@),
        if strip {
            decimal(text_hash(grid_text(p.squares@)) as nat)
        } else {
            "NULL"@
        },
    )
}

/// Relies on `serde_json::from_str` into a `Value`, then `Value::get`,
/// `as_str`, `as_array` and `as_object` to read the document's fields: the
/// result depends on the text alone (object members come in the map's order).
#[verifier::external_body]
fn read_json_doc(text: &str) -> (r: Option<LoadedDoc>)
    ensures
        r == json_doc(text@),
{
    let v: serde_json::Value = serde_json::from_str(text).ok()?;
    let text_of = |x: &serde_json::Value| x.as_str().map(String::from);
    let pairs = |k: &str| v.get(k)?.as_object().map(|m| m.iter().map(|(a, b)| (a.clone(), text_of(b))).collect());
    Some(LoadedDoc {
        variant: v.get("variant").and_then(text_of),
        squares: v.get("squares").and_then(|x| x.as_array()).map(|a| a.iter().map(text_of).collect()),
        across_clues: pairs("across_clues"),
        down_clues: pairs("down_clues"),
        hash_string: v.get("hash_string").and_then(text_of),
    })
}

/// Relies on `Value::String`, `Value::Array`, `Value::Object` and the `Display`
/// impl of `Value`: the compact JSON text of the document, which depends on its
/// fields alone.
#[verifier::external_body]
fn write_json_doc(s: &SavedPuzzle) -> (r: String)
    ensures
        r@ == saved_json(
            s.variant@,
            strings_view(s.squares@),
            pairs_view(s.across_clues@),
            pairs_view(s.down_clues@),
            s.hash_string@,
        ),
{
    let string = |t: &String| serde_json::Value::String(t.clone());
    let clues = |c: &Vec<(String, String)>| serde_json::Value::Object(c.iter().map(|(k, t)| (k.clone(), string(t))).collect());
    let fields = [
        ("variant", string(&s.variant)),
        ("squares", serde_json::Value::Array(s.squares.iter().map(string).collect())),
        ("across_clues", clues(&s.across_clues)),
        ("down_clues", clues(&s.down_clues)),
        ("hash_string", string(&s.hash_string)),
    ];
    serde_json::Value::Object(fields.into_iter().map(|(k, x)| (k.to_string(), x)).collect()).to_string()
}

impl Puzzle {
    /// Loads a puzzle from the JSON text of a persisted document: text that is
    /// not JSON fails with `Syntax`, and the document it holds loads as
    /// `from_doc` says.
    pub fn from_json(text: &str) -> (r: Result<Puzzle, LoadError>)
        ensures
            json_doc(text@) is None <==> r == Err::<Puzzle, LoadError>(LoadError::Syntax),
            json_doc(text@) is Some ==> (r is Err <==> doc_error(json_doc(text@)->0) is Some),
            json_doc(text@) is Some && r is Err ==> doc_error(json_doc(text@)->0) == Some(r->Err_0),
            r is Ok ==> loaded_from(json_doc(text@)->0, r->Ok_0),
    {
        match read_json_doc(text) {
            None => Err(LoadError::Syntax),
            Some(doc) => Puzzle::from_doc(&doc),
        }
    }

    /// The JSON text of the puzzle's persisted form (see `to_saved`).
    pub fn to_json(&self, strip: bool) -> (r: String)
        ensures
            r@ == saved_text(*self, strip),
    {
        let s = self.to_saved(strip);
        let r = write_json_doc(&s);
        proof {
            assert(strings_view(s.squares@) =~= self.squares@.map_values(
                |c: Square| encode_square(c.content, strip),
            ));
            assert(pairs_view(s.across_clues@) =~= clue_pairs_view(self.across_entries@));
            assert(pairs_view(s.down_clues@) =~= clue_pairs_view(self.down_entries@));
        }
        r
    }
}

} // verus!

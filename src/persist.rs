//! The persisted form of a puzzle: its kind, one string per cell, the clue
//! texts keyed by label, and an optional target fingerprint.
use vstd::prelude::*;
use crate::grid::{
    across_start, across_starts, dim_of, down_start, down_starts, entry_ok, label_num, layout,
    letters, match_puzzle_dim, modifier, EntryVariant, Puzzle, PuzzleEntry, PuzzleType, Square,
    SquareContents, SquareModifier,
};
use crate::lemmas::{lemma_across_starts, lemma_cells_bound, lemma_down_starts};
use crate::ops::{find_entry, lemma_fresh_clues_empty};
use crate::oracle::{grid_text, text_hash};
use crate::text::{decimal, decimal_string, parse_decimal, parsed_unsigned};

verus! {

/// The name under which a kind is persisted.
pub open spec fn variant_name(v: PuzzleType) -> Seq<char> {
    match v {
        PuzzleType::Mini => "mini"@,
        PuzzleType::Weekday => "weekday"@,
        PuzzleType::WeekdayAsymmetric => "weekday_asymmetric"@,
        PuzzleType::Sunday => "sunday"@,
    }
}

/// The kind persisted under `s`, if any.
pub open spec fn parse_variant(s: Seq<char>) -> Option<PuzzleType> {
    if s == "mini"@ {
        Some(PuzzleType::Mini)
    } else if s == "weekday"@ {
        Some(PuzzleType::Weekday)
    } else if s == "weekday_asymmetric"@ {
        Some(PuzzleType::WeekdayAsymmetric)
    } else if s == "sunday"@ {
        Some(PuzzleType::Sunday)
    } else {
        None
    }
}

/// The one-letter code of a mark.
pub open spec fn modifier_code(m: Option<SquareModifier>) -> char {
    match m {
        None => 'n',
        Some(SquareModifier::Shading) => 's',
        Some(SquareModifier::Circle) => 'c',
    }
}

/// The mark with the given one-letter code, if any.
pub open spec fn parse_modifier(s: Seq<char>) -> Option<Option<SquareModifier>> {
    if s == seq!['n'] {
        Some(None)
    } else if s == seq!['s'] {
        Some(Some(SquareModifier::Shading))
    } else if s == seq!['c'] {
        Some(Some(SquareModifier::Circle))
    } else {
        None
    }
}

/// How a cell is persisted: `#` for a blocker, otherwise its letters (none
/// when `strip` holds), a slash and the code of its mark.
pub open spec fn encode_square(c: SquareContents, strip: bool) -> Seq<char> {
    match c {
        SquareContents::Blocker => seq!['#'],
        SquareContents::TextContent(s, m) => (if strip {
            Seq::empty()
        } else {
            s@
        }).push('/').push(modifier_code(m)),
    }
}

/// The index of the first occurrence of `c` in `s`, if any.
pub open spec fn find_char(s: Seq<char>, c: char) -> Option<int>
    decreases s.len(),
{
    if s.len() == 0 {
        None
    } else {
        match find_char(s.drop_last(), c) {
            Some(u) => Some(u),
            None => if s.last() == c {
                Some(s.len() - 1)
            } else {
                None
            },
        }
    }
}

/// A decoded cell: whether it is a blocker, its letters and its mark.
pub ghost struct CellModel {
    pub blocker: bool,
    pub letters: Seq<char>,
    pub modifier: Option<SquareModifier>,
}

/// What a persisted cell string denotes: a blocker where it holds no slash;
/// otherwise the letters before the first slash, with the mark coded after
/// it. `None` where that code is not one of `n`, `s`, `c`.
pub open spec fn decode_square(s: Seq<char>) -> Option<CellModel> {
    match find_char(s, '/') {
        None => Some(CellModel { blocker: true, letters: Seq::empty(), modifier: None }),
        Some(u) => match parse_modifier(s.subrange(u + 1, s.len() as int)) {
            Some(m) => Some(CellModel { blocker: false, letters: s.subrange(0, u), modifier: m }),
            None => None,
        },
    }
}

/// Contents `c` are the decoded cell `t`.
pub open spec fn contents_are(c: SquareContents, t: CellModel) -> bool {
    &&& (c is Blocker) == t.blocker
    &&& !t.blocker ==> letters(c) == t.letters && modifier(c) == t.modifier
}

fn variant_str(v: PuzzleType) -> (r: String)
    ensures
        r@ == variant_name(v),
{
    proof {
        reveal_strlit("mini");
        reveal_strlit("weekday");
        reveal_strlit("weekday_asymmetric");
        reveal_strlit("sunday");
    }
    match v {
        PuzzleType::Mini => String::from_str("mini"),
        PuzzleType::Weekday => String::from_str("weekday"),
        PuzzleType::WeekdayAsymmetric => String::from_str("weekday_asymmetric"),
        PuzzleType::Sunday => String::from_str("sunday"),
    }
}

/// Whether `s` holds exactly the characters of `t`.
fn same_chars(s: &str, t: &str) -> (r: bool)
    ensures
        r == (s@ == t@),
{
    let n = s.unicode_len();
    if n != t.unicode_len() {
        return false;
    }
    let mut i: usize = 0;
    while i < n
        invariant
            n == s@.len(),
            n == t@.len(),
            i <= n,
            s@.subrange(0, i as int) == t@.subrange(0, i as int),
        decreases n - i,
    {
        if s.get_char(i) != t.get_char(i) {
            return false;
        }
        assert(s@.subrange(0, i + 1) =~= s@.subrange(0, i as int).push(s@[i as int]));
        assert(t@.subrange(0, i + 1) =~= t@.subrange(0, i as int).push(t@[i as int]));
        i = i + 1;
    }
    assert(s@ =~= s@.subrange(0, n as int));
    assert(t@ =~= t@.subrange(0, n as int));
    true
}

fn variant_from_str(s: &str) -> (r: Option<PuzzleType>)
    ensures
        r == parse_variant(s@),
{
    proof {
        reveal_strlit("mini");
        reveal_strlit("weekday");
        reveal_strlit("weekday_asymmetric");
        reveal_strlit("sunday");
    }
    if same_chars(s, "mini") {
        Some(PuzzleType::Mini)
    } else if same_chars(s, "weekday") {
        Some(PuzzleType::Weekday)
    } else if same_chars(s, "weekday_asymmetric") {
        Some(PuzzleType::WeekdayAsymmetric)
    } else if same_chars(s, "sunday") {
        Some(PuzzleType::Sunday)
    } else {
        None
    }
}

/// The persisted string of one cell.
fn encode_cell(c: &SquareContents, strip: bool) -> (r: String)
    ensures
        r@ == encode_square(*c, strip),
{
    proof {
        reveal_strlit("#");
        reveal_strlit("/n");
        reveal_strlit("/s");
        reveal_strlit("/c");
    }
    match c {
        SquareContents::Blocker => String::from_str("#"),
        SquareContents::TextContent(s, m) => {
            let mut r = if strip {
                String::new()
            } else {
                s.clone()
            };
            match m {
                None => r.append("/n"),
                Some(SquareModifier::Shading) => r.append("/s"),
                Some(SquareModifier::Circle) => r.append("/c"),
            }
            assert(r@ =~= encode_square(*c, strip));
            r
        },
    }
}

/// The cell a persisted string denotes, if it is well formed.
fn decode_cell(s: &str) -> (r: Option<SquareContents>)
    ensures
        r is Some <==> decode_square(s@) is Some,
        r is Some ==> contents_are(r->0, decode_square(s@)->0),
{
    let n = s.unicode_len();
    let mut u: usize = 0;
    while u < n && s.get_char(u) != '/'
        invariant
            n == s@.len(),
            u <= n,
            find_char(s@.subrange(0, u as int), '/') is None,
        decreases n - u,
    {
        assert(s@.subrange(0, u + 1).drop_last() =~= s@.subrange(0, u as int));
        u = u + 1;
    }
    if u == n {
        assert(s@.subrange(0, n as int) =~= s@);
        return Some(SquareContents::Blocker);
    }
    proof {
        let t = s@.subrange(0, u + 1);
        assert(t.drop_last() =~= s@.subrange(0, u as int));
        lemma_find_char_prefix(s@, u as int + 1, '/');
    }
    let rest = s.substring_char(u + 1, n);
    let code = if rest.unicode_len() != 1 {
        None
    } else {
        let c = rest.get_char(0);
        if c == 'n' {
            Some(None)
        } else if c == 's' {
            Some(Some(SquareModifier::Shading))
        } else if c == 'c' {
            Some(Some(SquareModifier::Circle))
        } else {
            None
        }
    };
    proof {
        if rest@.len() == 1 {
            assert(rest@ =~= seq![rest@[0]]);
        }
    }
    match code {
        None => None,
        Some(m) => Some(SquareContents::TextContent(String::from_str(s.substring_char(0, u)), m)),
    }
}

/// A kind's persisted name reads back as that kind.
pub proof fn lemma_variant_round_trip(v: PuzzleType)
    ensures
        parse_variant(variant_name(v)) == Some(v),
{
    reveal_strlit("mini");
    reveal_strlit("weekday");
    reveal_strlit("weekday_asymmetric");
    reveal_strlit("sunday");
    assert("mini"@.len() == 4);
    assert("weekday"@.len() == 7);
    assert("weekday_asymmetric"@.len() == 18);
    assert("sunday"@.len() == 6);
}

/// A character that does not occur is not found.
pub proof fn lemma_find_char_absent(s: Seq<char>, c: char)
    requires
        !s.contains(c),
    ensures
        find_char(s, c) is None,
    decreases s.len(),
{
    if s.len() > 0 {
        assert(!s.drop_last().contains(c)) by {
            if s.drop_last().contains(c) {
                let i = choose|i: int| 0 <= i < s.drop_last().len() && s.drop_last()[i] == c;
                assert(s[i] == c);
            }
        }
        lemma_find_char_absent(s.drop_last(), c);
        assert(s[s.len() - 1] != c);
    }
}

/// Decoding a cell's persisted string gives back its kind and mark, and its
/// letters unless they were stripped; letters holding a slash would be cut at it.
pub proof fn lemma_decode_encode(c: SquareContents, strip: bool)
    requires
        strip || !letters(c).contains('/'),
    ensures
        decode_square(encode_square(c, strip)) is Some,
        decode_square(encode_square(c, strip))->0.blocker == (c is Blocker),
        !(c is Blocker) ==> decode_square(encode_square(c, strip))->0.letters == (if strip {
            Seq::<char>::empty()
        } else {
            letters(c)
        }) && decode_square(encode_square(c, strip))->0.modifier == modifier(c),
{
    match c {
        SquareContents::Blocker => {
            let t = seq!['#'];
            assert(t.drop_last() =~= Seq::<char>::empty());
            assert(find_char(Seq::<char>::empty(), '/') is None);
            assert(t.last() == '#');
            assert(find_char(t, '/') is None);
            assert(encode_square(c, strip) == t);
        },
        SquareContents::TextContent(s, m) => {
            let l = if strip {
                Seq::<char>::empty()
            } else {
                s@
            };
            let t1 = l.push('/');
            let t = t1.push(modifier_code(m));
            lemma_find_char_absent(l, '/');
            assert(t1.drop_last() =~= l);
            assert(t.drop_last() =~= t1);
            assert(t1.last() == '/');
            assert(find_char(t1, '/') == Some(l.len() as int));
            assert(find_char(t, '/') == Some(l.len() as int));
            assert(t.subrange(l.len() as int + 1, t.len() as int) =~= seq![modifier_code(m)]);
            assert(t.subrange(0, l.len() as int) =~= l);
            let code = seq![modifier_code(m)];
            assert(code[0] == modifier_code(m));
            assert(seq!['n'][0] == 'n' && seq!['s'][0] == 's' && seq!['c'][0] == 'c');
            assert(parse_modifier(code) == Some(m));
        },
    }
}

/// Where `c` occurs first in a prefix of `s`, it occurs there first in `s` too.
proof fn lemma_find_char_prefix(s: Seq<char>, k: int, c: char)
    requires
        0 <= k <= s.len(),
        find_char(s.subrange(0, k), c) is Some,
    ensures
        find_char(s, c) == find_char(s.subrange(0, k), c),
    decreases s.len() - k,
{
    if k < s.len() {
        let t = s.subrange(0, k + 1);
        assert(t.drop_last() =~= s.subrange(0, k));
        lemma_find_char_prefix(s, k + 1, c);
    } else {
        assert(s.subrange(0, k) =~= s);
    }
}

/// A puzzle in its persisted form, field by field, as it is written.
pub struct SavedPuzzle {
    pub variant: String,
    pub squares: Vec<String>,
    pub across_clues: Vec<(String, String)>,
    pub down_clues: Vec<(String, String)>,
    pub hash_string: String,
}

/// A persisted document as it is read: each field as found, `None` where it is
/// missing or not of the expected kind (a cell or a clue text that is not a
/// string, a list or a map that is not one).
pub struct LoadedDoc {
    pub variant: Option<String>,
    pub squares: Option<Vec<Option<String>>>,
    pub across_clues: Option<Vec<(String, Option<String>)>>,
    pub down_clues: Option<Vec<(String, Option<String>)>>,
    pub hash_string: Option<String>,
}

/// Why a persisted document could not be loaded.
#[derive(Clone, Copy, Debug, PartialEq, Eq, Structural)]
pub enum LoadError {
    /// The kind is missing or unknown.
    Variant,
    /// The cells are missing, too many, or one of them is malformed.
    Squares,
    /// A clue map is missing, or one of its keys is no label of an entry, or
    /// one of its texts is not a string.
    Clues,
    /// The target fingerprint is neither `NULL` nor a number.
    HashString,
    /// The text is not a JSON document.
    Syntax,
}

/// The clue pairs of `entries`: each label's numeral with the entry's clue.
pub open spec fn clue_pairs_are(pairs: Seq<(String, String)>, entries: Seq<PuzzleEntry>) -> bool {
    &&& pairs.len() == entries.len()
    &&& forall|k: int|
        0 <= k < pairs.len() ==> #[trigger] pairs[k].0@ == decimal(entries[k].label as nat)
            && pairs[k].1@ == entries[k].clue@
}

/// `s` is the persisted form of `p`; with `strip`, letters are left out and the
/// grid's fingerprint is recorded, otherwise the fingerprint is `NULL`.
pub open spec fn saved_from(p: Puzzle, strip: bool, s: SavedPuzzle) -> bool {
    &&& s.variant@ == variant_name(p.variant)
    &&& s.squares@.len() == p.squares@.len()
    &&& forall|i: int|
        0 <= i < p.squares@.len() ==> (#[trigger] s.squares@[i])@ == encode_square(
            p.squares@[i].content,
            strip,
        )
    &&& clue_pairs_are(s.across_clues@, p.across_entries@)
    &&& clue_pairs_are(s.down_clues@, p.down_entries@)
    &&& s.hash_string@ == if strip {
        decimal(text_hash(grid_text(p.squares@)) as nat)
    } else {
        "NULL"@
    }
}

/// The label a clue key names, if it is a decimal number that fits in a `u32`.
pub open spec fn clue_label(key: Seq<char>) -> Option<u32> {
    match parsed_unsigned(key, u32::MAX as nat) {
        Some(v) => Some(v as u32),
        None => None,
    }
}

/// Some entry along `v` of the layout `b` carries label `l`.
pub open spec fn label_exists(b: Seq<bool>, d: int, v: EntryVariant, l: u32) -> bool {
    exists|h: int|
        0 <= h < b.len() && (if v == EntryVariant::Across {
            across_start(b, d, h)
        } else {
            down_start(b, d, h)
        }) && #[trigger] label_num(b, d, h) == l
}

/// Every clue pair names an entry along `v` and holds a text.
pub open spec fn clue_pairs_ok(pairs: Seq<(String, Option<String>)>, b: Seq<bool>, d: int, v: EntryVariant) -> bool {
    forall|k: int|
        0 <= k < pairs.len() ==> {
            &&& clue_label((#[trigger] pairs[k]).0@) is Some
            &&& pairs[k].1 is Some
            &&& label_exists(b, d, v, clue_label(pairs[k].0@)->0)
        }
}

/// The clue that label `l` ends with once the pairs are applied in order:
/// the text of the last pair naming it, or `dflt` where none does.
pub open spec fn clue_after(pairs: Seq<(String, Option<String>)>, l: u32, dflt: Seq<char>) -> Seq<char>
    decreases pairs.len(),
{
    if pairs.len() == 0 {
        dflt
    } else if clue_label(pairs.last().0@) == Some(l) {
        match pairs.last().1 {
            Some(t) => t@,
            None => dflt,
        }
    } else {
        clue_after(pairs.drop_last(), l, dflt)
    }
}

/// The target fingerprint a document records: `Some(None)` for none (the
/// field is missing or `NULL`), `None` where the field is malformed.
pub open spec fn target_of(h: Option<String>) -> Option<Option<u64>> {
    match h {
        None => Some(None),
        Some(s) => if s@ == "NULL"@ {
            Some(None)
        } else {
            match parsed_unsigned(s@, u64::MAX as nat) {
                Some(v) => Some(Some(v as u64)),
                None => None,
            }
        },
    }
}

/// The cell a document gives index `i` of a grid: decoded where the document
/// lists one, an empty letter cell past its end.
pub open spec fn doc_cell(sq: Seq<Option<String>>, i: int) -> CellModel {
    if i < sq.len() {
        decode_square(sq[i]->0@)->0
    } else {
        CellModel { blocker: false, letters: Seq::empty(), modifier: None }
    }
}

/// The cells are present, at most `n`, and each is a well-formed string.
pub open spec fn squares_ok(sq: Option<Vec<Option<String>>>, n: int) -> bool {
    &&& sq is Some
    &&& sq->0@.len() <= n
    &&& forall|i: int|
        0 <= i < sq->0@.len() ==> (#[trigger] sq->0@[i]) is Some && decode_square(sq->0@[i]->0@) is Some
}

/// The blocker layout of an `n`-cell grid loaded from `sq`.
pub open spec fn doc_layout(sq: Seq<Option<String>>, n: int) -> Seq<bool> {
    Seq::new(n as nat, |i: int| doc_cell(sq, i).blocker)
}

/// The document's kind; meaningful where it names one.
pub open spec fn doc_variant(doc: LoadedDoc) -> PuzzleType {
    parse_variant(doc.variant->0@)->0
}

/// The first thing wrong with a document, taking its fields in order, if any.
pub open spec fn doc_error(doc: LoadedDoc) -> Option<LoadError> {
    let d = dim_of(doc_variant(doc)) as int;
    let n = d * d;
    let b = doc_layout(doc.squares->0@, n);
    if !(doc.variant is Some && parse_variant(doc.variant->0@) is Some) {
        Some(LoadError::Variant)
    } else if !squares_ok(doc.squares, n) {
        Some(LoadError::Squares)
    } else if !(doc.across_clues is Some && clue_pairs_ok(doc.across_clues->0@, b, d, EntryVariant::Across)) {
        Some(LoadError::Clues)
    } else if !(doc.down_clues is Some && clue_pairs_ok(doc.down_clues->0@, b, d, EntryVariant::Down)) {
        Some(LoadError::Clues)
    } else if target_of(doc.hash_string) is None {
        Some(LoadError::HashString)
    } else {
        None
    }
}

/// `q` is the puzzle loaded from the error-free document `doc`: of its kind, with
/// its cells, the clues it names (empty for the others), and its target
/// fingerprint, fill-only exactly when there is one.
pub open spec fn loaded_from(doc: LoadedDoc, q: Puzzle) -> bool {
    let sq = doc.squares->0@;
    &&& q.wf()
    &&& q.variant == doc_variant(doc)
    &&& q.title@ == "New Puzzle"@
    &&& forall|i: int| 0 <= i < q.squares@.len() ==> contents_are(#[trigger] q.squares@[i].content, doc_cell(sq, i))
    &&& forall|k: int|
        0 <= k < q.across_entries@.len() ==> (#[trigger] q.across_entries@[k]).clue@ == clue_after(
            doc.across_clues->0@,
            q.across_entries@[k].label,
            Seq::empty(),
        )
    &&& forall|k: int|
        0 <= k < q.down_entries@.len() ==> (#[trigger] q.down_entries@[k]).clue@ == clue_after(
            doc.down_clues->0@,
            q.down_entries@[k].label,
            Seq::empty(),
        )
    &&& q.solved_hash == target_of(doc.hash_string)->0
    &&& q.fill_only == q.solved_hash is Some
}

/// The clue pairs of a list of entries.
fn clue_pairs(entries: &Vec<PuzzleEntry>) -> (r: Vec<(String, String)>)
    ensures
        clue_pairs_are(r@, entries@),
{
    let mut r: Vec<(String, String)> = Vec::new();
    let mut k: usize = 0;
    while k < entries.len()
        invariant
            k <= entries@.len(),
            clue_pairs_are(r@, entries@.subrange(0, k as int)),
        decreases entries@.len() - k,
    {
        let key = decimal_string(entries[k].label as u64);
        let clue = entries[k].clue.clone();
        let ghost r0 = r@;
        r.push((key, clue));
        k = k + 1;
        assert forall|t: int| 0 <= t < r@.len() implies #[trigger] r@[t].0@ == decimal(
            entries@.subrange(0, k as int)[t].label as nat,
        ) && r@[t].1@ == entries@.subrange(0, k as int)[t].clue@ by {
            assert(entries@.subrange(0, k as int)[t] == entries@[t]);
            if t < k - 1 {
                assert(r@[t] == r0[t]);
                assert(entries@.subrange(0, k - 1)[t] == entries@[t]);
            } else {
                assert(r@[t].0@ == decimal(entries@[t].label as u64 as nat));
            }
        }
        assert(clue_pairs_are(r@, entries@.subrange(0, k as int)));
    }
    assert(entries@.subrange(0, entries@.len() as int) =~= entries@);
    r
}

/// Whether some entry of `entries` carries `label`.
fn has_label(entries: &Vec<PuzzleEntry>, label: u32) -> (r: bool)
    ensures
        r == exists|k: int| 0 <= k < entries@.len() && #[trigger] entries@[k].label == label,
{
    match find_entry(entries, label) {
        Some(_) => true,
        None => {
            assert(forall|k: int| 0 <= k < entries@.len() ==> #[trigger] entries@[k].label != label);
            false
        },
    }
}

/// In a well-formed puzzle an entry along `v` carries `l` exactly when some
/// start cell along `v` is numbered `l`.
proof fn lemma_has_entry_iff(p: Puzzle, v: EntryVariant, l: u32)
    requires
        p.wf(),
    ensures
        p.has_entry(l, v) == label_exists(layout(p.squares@), p.dim as int, v, l),
{
    let b = layout(p.squares@);
    let d = p.dim as int;
    let n = p.squares@.len() as int;
    lemma_cells_bound(p);
    lemma_across_starts(b, d, n);
    lemma_down_starts(b, d, n);
    let sa = across_starts(b, d, n);
    let sd = down_starts(b, d, n);
    if p.has_entry(l, v) {
        let k = choose|k: int| 0 <= k < p.entries_of(v).len() && #[trigger] p.entries_of(v)[k].label == l;
        if v == EntryVariant::Across {
            assert(entry_ok(p.across_entries@[k], p.squares@, d, sa[k], EntryVariant::Across));
            assert(label_num(b, d, sa[k]) == l);
        } else {
            assert(entry_ok(p.down_entries@[k], p.squares@, d, sd[k], EntryVariant::Down));
            assert(label_num(b, d, sd[k]) == l);
        }
    }
    if label_exists(b, d, v, l) {
        let h = choose|h: int|
            0 <= h < b.len() && (if v == EntryVariant::Across {
                across_start(b, d, h)
            } else {
                down_start(b, d, h)
            }) && #[trigger] label_num(b, d, h) == l;
        if v == EntryVariant::Across {
            let k = choose|k: int| 0 <= k < sa.len() && #[trigger] sa[k] == h;
            assert(entry_ok(p.across_entries@[k], p.squares@, d, sa[k], EntryVariant::Across));
            assert(p.entries_of(v)[k].label == l);
        } else {
            let k = choose|k: int| 0 <= k < sd.len() && #[trigger] sd[k] == h;
            assert(entry_ok(p.down_entries@[k], p.squares@, d, sd[k], EntryVariant::Down));
            assert(p.entries_of(v)[k].label == l);
        }
    }
}

impl Puzzle {
    /// The persisted form of the puzzle; with `strip`, letters are left out and
    /// the grid's fingerprint is recorded as the target.
    pub fn to_saved(&self, strip: bool) -> (r: SavedPuzzle)
        ensures
            saved_from(*self, strip, r),
    {
        let variant = variant_str(self.variant);
        let mut squares: Vec<String> = Vec::new();
        let mut i: usize = 0;
        while i < self.squares.len()
            invariant
                i <= self.squares@.len(),
                squares@.len() == i,
                forall|j: int| 0 <= j < i ==> (#[trigger] squares@[j])@ == encode_square(self.squares@[j].content, strip),
            decreases self.squares@.len() - i,
        {
            squares.push(encode_cell(&self.squares[i].content, strip));
            i = i + 1;
        }
        let across_clues = clue_pairs(&self.across_entries);
        let down_clues = clue_pairs(&self.down_entries);
        let hash_string = if strip {
            decimal_string(self.get_puzzle_total_hash())
        } else {
            proof {
                reveal_strlit("NULL");
            }
            String::from_str("NULL")
        };
        SavedPuzzle { variant, squares, across_clues, down_clues, hash_string }
    }

    /// Applies clue pairs along `v` in order; returns whether every pair names an
    /// entry and holds a text.
    fn apply_clues(&mut self, pairs: &Vec<(String, Option<String>)>, v: EntryVariant) -> (ok: bool)
        requires
            old(self).wf(),
            !old(self).fill_only,
        ensures
            ok == clue_pairs_ok(pairs@, layout(old(self).squares@), old(self).dim as int, v),
            ok ==> {
                &&& final(self).wf()
                &&& final(self).title == old(self).title
                &&& final(self).dim == old(self).dim
                &&& final(self).variant == old(self).variant
                &&& final(self).fill_only == old(self).fill_only
                &&& final(self).solved_hash == old(self).solved_hash
                &&& final(self).squares@.len() == old(self).squares@.len()
                &&& forall|j: int| 0 <= j < old(self).squares@.len() ==> (#[trigger] final(self).squares@[j]).content == old(self).squares@[j].content
                &&& v == EntryVariant::Across ==> final(self).down_entries == old(self).down_entries
                &&& v == EntryVariant::Down ==> final(self).across_entries == old(self).across_entries
                &&& final(self).entries_of(v).len() == old(self).entries_of(v).len()
                &&& forall|k: int| 0 <= k < old(self).entries_of(v).len() ==> {
                    &&& (#[trigger] final(self).entries_of(v)[k]).label == old(self).entries_of(v)[k].label
                    &&& final(self).entries_of(v)[k].clue@ == clue_after(pairs@, old(self).entries_of(v)[k].label, old(self).entries_of(v)[k].clue@)
                }
            },
    {
        let ghost p0 = *self;
        let ghost b = layout(self.squares@);
        let mut i: usize = 0;
        while i < pairs.len()
            invariant
                p0 == *old(self),
                p0.wf(),
                !p0.fill_only,
                b == layout(p0.squares@),
                i <= pairs@.len(),
                self.wf(),
                self.title == p0.title,
                self.dim == p0.dim,
                self.variant == p0.variant,
                self.fill_only == p0.fill_only,
                self.solved_hash == p0.solved_hash,
                self.squares@.len() == p0.squares@.len(),
                forall|j: int| 0 <= j < p0.squares@.len() ==> (#[trigger] self.squares@[j]).content == p0.squares@[j].content,
                v == EntryVariant::Across ==> self.down_entries == p0.down_entries,
                v == EntryVariant::Down ==> self.across_entries == p0.across_entries,
                self.entries_of(v).len() == p0.entries_of(v).len(),
                forall|k: int| 0 <= k < p0.entries_of(v).len() ==> {
                    &&& (#[trigger] self.entries_of(v)[k]).label == p0.entries_of(v)[k].label
                    &&& self.entries_of(v)[k].clue@ == clue_after(pairs@.subrange(0, i as int), p0.entries_of(v)[k].label, p0.entries_of(v)[k].clue@)
                },
                clue_pairs_ok(pairs@.subrange(0, i as int), b, p0.dim as int, v),
            decreases pairs@.len() - i,
        {
            let ghost pre = pairs@.subrange(0, i as int);
            let ghost post = pairs@.subrange(0, i + 1);
            proof {
                assert(post.drop_last() =~= pre);
                assert(post.last() == pairs@[i as int]);
                assert(layout(self.squares@) =~= b);
            }
            let label: u32 = match parse_decimal(pairs[i].0.as_str()) {
                Some(n) => {
                    if n > u32::MAX as u64 {
                        return false;
                    }
                    n as u32
                },
                None => {
                    return false;
                },
            };
            assert(clue_label(pairs@[i as int].0@) == Some(label));
            let text = match &pairs[i].1 {
                Some(t) => t.clone(),
                None => {
                    return false;
                },
            };
            let known = match v {
                EntryVariant::Across => has_label(&self.across_entries, label),
                EntryVariant::Down => has_label(&self.down_entries, label),
            };
            proof {
                lemma_has_entry_iff(*self, v, label);
            }
            if !known {
                proof {
                    if self.has_entry(label, v) {
                        let k = choose|k: int| 0 <= k < self.entries_of(v).len() && #[trigger] self.entries_of(v)[k].label == label;
                        if v == EntryVariant::Across {
                            assert(self.across_entries@[k].label == label);
                        } else {
                            assert(self.down_entries@[k].label == label);
                        }
                    }
                    assert(!label_exists(b, p0.dim as int, v, label));
                    assert(pairs@[i as int].1 is Some);
                    assert(clue_label(pairs@[i as int].0@)->0 == label);
                    assert(!clue_pairs_ok(pairs@, b, p0.dim as int, v));
                }
                return false;
            }
            let ghost s1 = *self;
            assert(!s1.fill_only);
            self.set_clue_text(label, v, text);
            proof {
                assert forall|k: int| 0 <= k < post.len() implies {
                    &&& clue_label((#[trigger] post[k]).0@) is Some
                    &&& post[k].1 is Some
                    &&& label_exists(b, p0.dim as int, v, clue_label(post[k].0@)->0)
                } by {
                    if k < i {
                        assert(post[k] == pre[k]);
                    }
                }
                assert forall|k: int| 0 <= k < p0.entries_of(v).len() implies {
                    &&& (#[trigger] self.entries_of(v)[k]).label == p0.entries_of(v)[k].label
                    &&& self.entries_of(v)[k].clue@ == clue_after(post, p0.entries_of(v)[k].label, p0.entries_of(v)[k].clue@)
                } by {
                    assert(s1.entries_of(v)[k].label == p0.entries_of(v)[k].label);
                }
                assert forall|j: int| 0 <= j < p0.squares@.len() implies (#[trigger] self.squares@[j]).content == p0.squares@[j].content by {
                    assert(s1.squares@[j].content == p0.squares@[j].content);
                }
            }
            i = i + 1;
        }
        assert(pairs@.subrange(0, pairs@.len() as int) =~= pairs@);
        true
    }

    /// Loads a puzzle from a persisted document: its kind, then its cells, then
    /// its entries, then the clues it names, then its target fingerprint (which
    /// makes the puzzle fill-only). Fails with the first field found wrong.
    pub fn from_doc(doc: &LoadedDoc) -> (r: Result<Puzzle, LoadError>)
        ensures
            r is Err <==> doc_error(*doc) is Some,
            r is Err ==> r->Err_0 == doc_error(*doc)->0,
            r is Ok ==> loaded_from(*doc, r->Ok_0),
    {
        let variant = match &doc.variant {
            Some(s) => match variant_from_str(s.as_str()) {
                Some(v) => v,
                None => {
                    return Err(LoadError::Variant);
                },
            },
            None => {
                return Err(LoadError::Variant);
            },
        };
        let d = match_puzzle_dim(&variant);
        assert(d * d <= 441) by (nonlinear_arith)
            requires
                d <= 21,
        ;
        let n = d * d;
        let sq = match &doc.squares {
            Some(v) => v,
            None => {
                return Err(LoadError::Squares);
            },
        };
        if sq.len() > n {
            return Err(LoadError::Squares);
        }
        let mut cells: Vec<Square> = Vec::new();
        let mut i: usize = 0;
        while i < n
            invariant
                doc.squares is Some && sq@ == doc.squares->0@,
                doc.variant is Some && parse_variant(doc.variant->0@) == Some(variant),
                d == dim_of(variant),
                n == d * d,
                sq@.len() <= n,
                i <= n,
                cells@.len() == i,
                forall|j: int|
                    0 <= j < i ==> {
                        &&& #[trigger] cells@[j].x == j % (d as int)
                        &&& cells@[j].y == j / (d as int)
                        &&& contents_are(cells@[j].content, doc_cell(sq@, j))
                        &&& cells@[j].across_clue_text is None
                        &&& cells@[j].down_clue_text is None
                    },
                forall|j: int| 0 <= j < i && j < sq@.len() ==> (#[trigger] sq@[j]) is Some && decode_square(sq@[j]->0@) is Some,
            decreases n - i,
        {
            let content = if i < sq.len() {
                match &sq[i] {
                    Some(s) => match decode_cell(s.as_str()) {
                        Some(c) => c,
                        None => {
                            assert(sq@[i as int] is Some && decode_square(sq@[i as int]->0@) is None);
                            assert(doc.squares->0@ == sq@);
                            assert(doc.squares->0@[i as int] == sq@[i as int]);
                            assert(!squares_ok(doc.squares, n as int));
                            return Err(LoadError::Squares);
                        },
                    },
                    None => {
                        assert(sq@[i as int] is None);
                        return Err(LoadError::Squares);
                    },
                }
            } else {
                SquareContents::TextContent(String::new(), None)
            };
            assert(contents_are(content, doc_cell(sq@, i as int)));
            assert(i / d < d) by (nonlinear_arith)
                requires
                    i < d * d,
                    d > 0,
            ;
            let mut cell = Square::new((i % d) as u32, (i / d) as u32);
            cell.content = content;
            cells.push(cell);
            i = i + 1;
        }
        let mut p = Puzzle {
            title: String::from_str("New Puzzle"),
            dim: d,
            variant,
            squares: cells,
            across_entries: Vec::new(),
            down_entries: Vec::new(),
            fill_only: false,
            solved_hash: None,
        };
        assert forall|j: int| 0 <= j < p.squares@.len() implies #[trigger] p.squares@[j].x == j % (
        p.dim as int) && p.squares@[j].y == j / (p.dim as int) by {
            assert(cells@[j].x == j % (d as int));
        }
        assert forall|j: int| 0 <= j < p.squares@.len() implies #[trigger] p.squares@[j].across_clue_text is None
            && p.squares@[j].down_clue_text is None by {
            assert(cells@[j].x == j % (d as int));
        }
        assert(p.shape_ok());
        let ghost p0 = p;
        p.calculate_clues();
        proof {
            lemma_fresh_clues_empty(p0, p);
            assert(layout(p.squares@) =~= doc_layout(sq@, n as int));
        }
        let ghost p1 = p;
        match &doc.across_clues {
            Some(pairs) => {
                if !p.apply_clues(pairs, EntryVariant::Across) {
                    return Err(LoadError::Clues);
                }
            },
            None => {
                return Err(LoadError::Clues);
            },
        }
        let ghost p2 = p;
        proof {
            assert(layout(p.squares@) =~= layout(p1.squares@));
        }
        match &doc.down_clues {
            Some(pairs) => {
                if !p.apply_clues(pairs, EntryVariant::Down) {
                    return Err(LoadError::Clues);
                }
            },
            None => {
                return Err(LoadError::Clues);
            },
        }
        let ghost p3 = p;
        match &doc.hash_string {
            None => {},
            Some(s) => {
                proof {
                    reveal_strlit("NULL");
                }
                if !same_chars(s.as_str(), "NULL") {
                    match parse_decimal(s.as_str()) {
                        Some(h) => {
                            p.solved_hash = Some(h);
                            p.fill_only = true;
                        },
                        None => {
                            return Err(LoadError::HashString);
                        },
                    }
                }
            },
        }
        proof {
            assert forall|i: int| 0 <= i < p.squares@.len() implies contents_are(#[trigger] p.squares@[i].content, doc_cell(sq@, i)) by {
                assert(p2.squares@[i].content == p1.squares@[i].content);
                assert(p0.squares@[i].content == p1.squares@[i].content);
                assert(p3.squares@[i].content == p2.squares@[i].content);
            }
            assert forall|k: int| 0 <= k < p.across_entries@.len() implies (#[trigger] p.across_entries@[k]).clue@ == clue_after(
                doc.across_clues->0@,
                p.across_entries@[k].label,
                Seq::empty(),
            ) by {
                assert(p2.entries_of(EntryVariant::Across)[k].clue@ == clue_after(doc.across_clues->0@, p1.entries_of(EntryVariant::Across)[k].label, p1.entries_of(EntryVariant::Across)[k].clue@));
            }
            assert forall|k: int| 0 <= k < p.down_entries@.len() implies (#[trigger] p.down_entries@[k]).clue@ == clue_after(
                doc.down_clues->0@,
                p.down_entries@[k].label,
                Seq::empty(),
            ) by {
                assert(p3.entries_of(EntryVariant::Down)[k].clue@ == clue_after(doc.down_clues->0@, p2.entries_of(EntryVariant::Down)[k].label, p2.entries_of(EntryVariant::Down)[k].clue@));
                assert(p2.down_entries@[k] == p1.down_entries@[k]);
            }
        }
        Ok(p)
    }
}

} // verus!

use vstd::prelude::*;

verus! {

/// A point in time: whole seconds since the Unix epoch and the nanoseconds
/// past that second.
#[derive(Clone, Copy, Debug, PartialEq, Eq, Structural)]
pub struct Timestamp {
    pub secs: i64,
    pub nanos: u32,
}

/// The payload from which a puzzle is created: every field of a puzzle but
/// its identity and its timestamps.
#[derive(Clone, Debug)]
pub struct PartialPuzzle {
    pub name: String,
    pub released_at: Option<Timestamp>,
    pub words: Vec<String>,
    pub letters: Vec<String>,
    pub middle: String,
    pub language: String,
}

/// A stored puzzle. `id` is the 128-bit value of its UUID.
#[derive(Clone, Debug)]
pub struct Puzzle {
    pub id: u128,
    pub created_at: Timestamp,
    pub updated_at: Timestamp,
    pub name: String,
    pub released_at: Option<Timestamp>,
    pub words: Vec<String>,
    pub letters: Vec<String>,
    pub middle: String,
    pub language: String,
}

/// The mathematical content of a puzzle.
pub struct PuzzleView {
    pub id: u128,
    pub created_at: Timestamp,
    pub updated_at: Timestamp,
    pub name: Seq<char>,
    pub released_at: Option<Timestamp>,
    pub words: Seq<Seq<char>>,
    pub letters: Seq<Seq<char>>,
    pub middle: Seq<char>,
    pub language: Seq<char>,
}

pub open spec fn texts_view(v: Seq<String>) -> Seq<Seq<char>> {
    v.map_values(|s: String| s@)
}

impl View for Puzzle {
    type V = PuzzleView;

    open spec fn view(&self) -> PuzzleView {
        PuzzleView {
            id: self.id,
            created_at: self.created_at,
            updated_at: self.updated_at,
            name: self.name@,
            released_at: self.released_at,
            words: texts_view(self.words@),
            letters: texts_view(self.letters@),
            middle: self.middle@,
            language: self.language@,
        }
    }
}

/// The puzzle that a partial payload becomes under identity `id`, created at `now`.
pub open spec fn from_partial_spec(p: PartialPuzzle, id: u128, now: Timestamp) -> PuzzleView {
    PuzzleView {
        id,
        created_at: now,
        updated_at: now,
        name: p.name@,
        released_at: p.released_at,
        words: texts_view(p.words@),
        letters: texts_view(p.letters@),
        middle: p.middle@,
        language: p.language@,
    }
}

/// Lowercase hexadecimal digit of a value below sixteen.
pub open spec fn hex_digit(n: int) -> char {
    seq!['0', '1', '2', '3', '4', '5', '6', '7', '8', '9', 'a', 'b', 'c', 'd', 'e', 'f'][n]
}

/// The `d`-th hexadecimal digit of `id`, counted from the most significant.
pub open spec fn nibble(id: u128, d: int) -> int {
    (id as int / vstd::arithmetic::power::pow(16, (31 - d) as nat)) % 16
}

/// Position among the 32 digits of the character at `p` in the hyphenated form.
pub open spec fn digit_index(p: int) -> int {
    if p < 8 {
        p
    } else if p < 13 {
        p - 1
    } else if p < 18 {
        p - 2
    } else if p < 23 {
        p - 3
    } else {
        p - 4
    }
}

/// The canonical text of a UUID: 32 lowercase hex digits grouped 8-4-4-4-12.
pub open spec fn hyphenated(id: u128) -> Seq<char> {
    Seq::new(
        36,
        |p: int|
            if p == 8 || p == 13 || p == 18 || p == 23 {
                '-'
            } else {
                hex_digit(nibble(id, digit_index(p)))
            },
    )
}

pub open spec fn key_prefix() -> Seq<char> {
    seq!['p', 'u', 'z', 'z', 'l', 'e', ':']
}

/// The store key of the puzzle with identity `id`.
pub open spec fn puzzle_key(id: u128) -> Seq<char> {
    key_prefix() + hyphenated(id)
}

/// Relies on uuid's `Uuid::from_u128` and its `Display`, which writes the
/// hyphenated lowercase form of the big-endian bytes.
#[verifier::external_body]
fn uuid_text(id: u128) -> (r: String)
    ensures
        r@ == hyphenated(id),
{
    uuid::Uuid::from_u128(id).hyphenated().to_string()
}

/// Relies on uuid's `Uuid::new_v4` read through `as_u128`: random bits, but
/// for the version nibble, which is 4, and the variant bits, which are `10`.
#[verifier::external_body]
fn fresh_id() -> (r: u128)
    ensures
        (r >> 76u128) & 0xfu128 == 4,
        (r >> 62u128) & 0x3u128 == 2,
{
    uuid::Uuid::new_v4().as_u128()
}

/// Relies on chrono's `Utc::now`, read through `timestamp` and
/// `timestamp_subsec_nanos`; `now` is built from the system clock's
/// sub-second nanoseconds, so no leap second occurs and those are below one
/// second's worth.
#[verifier::external_body]
fn current_time() -> (r: Timestamp)
    ensures
        r.nanos < 1_000_000_000,
{
    let now = chrono::Utc::now();
    Timestamp { secs: now.timestamp(), nanos: now.timestamp_subsec_nanos() }
}

/// The store key of the puzzle with identity `id`: `"puzzle:"` followed by
/// the hyphenated UUID.
pub fn key_for_id(id: u128) -> (r: String)
    ensures
        r@ == puzzle_key(id),
{
    let mut key = String::from_str("puzzle:");
    proof {
        reveal_strlit("puzzle:");
        assert(key@ =~= key_prefix());
    }
    let text = uuid_text(id);
    key.append(text.as_str());
    key
}

impl Puzzle {
    /// The store key of this puzzle.
    pub fn to_key(&self) -> (r: String)
        ensures
            r@ == puzzle_key(self.id),
    {
        key_for_id(self.id)
    }

    /// The puzzle made of `partial` under identity `id`, created at `now`:
    /// both timestamps are `now`, every other field is copied.
    pub fn from_partial_at(partial: PartialPuzzle, id: u128, now: Timestamp) -> (r: Puzzle)
        ensures
            r@ == from_partial_spec(partial, id, now),
    {
        Puzzle {
            id,
            created_at: now,
            updated_at: now,
            name: partial.name,
            released_at: partial.released_at,
            words: partial.words,
            letters: partial.letters,
            middle: partial.middle,
            language: partial.language,
        }
    }

    /// Creates a puzzle from `partial` with a fresh random identity, stamped
    /// with the current time.
    pub fn from_partial(partial: PartialPuzzle) -> (r: Puzzle)
        ensures
            exists|id: u128, now: Timestamp| r@ == from_partial_spec(partial, id, now),
            r.created_at == r.updated_at,
            r.created_at.nanos < 1_000_000_000,
            (r.id >> 76u128) & 0xfu128 == 4,
            (r.id >> 62u128) & 0x3u128 == 2,
    {
        let id = fresh_id();
        let now = current_time();
        Puzzle::from_partial_at(partial, id, now)
    }
}

} // verus!

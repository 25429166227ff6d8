use crate::puzzle::{texts_view, Puzzle, PuzzleView, Timestamp};
use vstd::prelude::*;
use vstd::utf8::{decode_utf8, encode_utf8, valid_utf8};

verus! {

broadcast use vstd::utf8::encode_utf8_valid_utf8, vstd::utf8::encode_utf8_decode_utf8;

/// Stored bytes that are not the encoding of any puzzle.
#[derive(Clone, Copy, Debug, PartialEq, Eq, Structural)]
pub struct DecodeError;

// ---- the byte format ----
//
// A puzzle is nine fields, each led by its tag byte (1 to 9). They are
// written in tag order and read in any order, each tag exactly once. Integers are eight bytes, big-endian. A text is its UTF-8
// length followed by its UTF-8 bytes; a list of texts is its count followed
// by each text. An optional time is the byte 0, or the byte 1 and the time.
pub open spec fn u64_bytes(x: u64) -> Seq<u8> {
    seq![
        (x >> 56u64) as u8,
        (x >> 48u64) as u8,
        (x >> 40u64) as u8,
        (x >> 32u64) as u8,
        (x >> 24u64) as u8,
        (x >> 16u64) as u8,
        (x >> 8u64) as u8,
        x as u8,
    ]
}

pub open spec fn be_u64(b0: u8, b1: u8, b2: u8, b3: u8, b4: u8, b5: u8, b6: u8, b7: u8) -> u64 {
    ((b0 as u64) << 56u64) | ((b1 as u64) << 48u64) | ((b2 as u64) << 40u64) | ((b3 as u64)
        << 32u64) | ((b4 as u64) << 24u64) | ((b5 as u64) << 16u64) | ((b6 as u64) << 8u64) | (
    b7 as u64)
}

pub open spec fn id_bytes(id: u128) -> Seq<u8> {
    u64_bytes((id >> 64u128) as u64) + u64_bytes(id as u64)
}

pub open spec fn time_bytes(t: Timestamp) -> Seq<u8> {
    u64_bytes(t.secs as u64) + u64_bytes(t.nanos as u64)
}

pub open spec fn opt_time_bytes(t: Option<Timestamp>) -> Seq<u8> {
    match t {
        None => seq![0u8],
        Some(t) => seq![1u8] + time_bytes(t),
    }
}

pub open spec fn text_bytes(s: Seq<char>) -> Seq<u8> {
    u64_bytes(encode_utf8(s).len() as u64) + encode_utf8(s)
}

pub open spec fn text_list_bytes(ss: Seq<Seq<char>>) -> Seq<u8>
    decreases ss.len(),
{
    if ss.len() == 0 {
        Seq::empty()
    } else {
        text_list_bytes(ss.drop_last()) + text_bytes(ss.last())
    }
}

pub open spec fn texts_bytes(ss: Seq<Seq<char>>) -> Seq<u8> {
    u64_bytes(ss.len() as u64) + text_list_bytes(ss)
}

/// The canonical encoding of a puzzle: its nine fields in tag order.
pub open spec fn puzzle_bytes(v: PuzzleView) -> Seq<u8> {
    fields_bytes(fields_in(v, tag_order()))
}

// ---- reading the format: each reader takes what it reads off the front ----
#[verifier::opaque]
pub open spec fn take_u64(b: Seq<u8>) -> Option<(u64, Seq<u8>)> {
    if b.len() >= 8 {
        Some((be_u64(b[0], b[1], b[2], b[3], b[4], b[5], b[6], b[7]), b.skip(8)))
    } else {
        None
    }
}

pub open spec fn take_tag(b: Seq<u8>, tag: u8) -> Option<Seq<u8>> {
    if b.len() >= 1 && b[0] == tag {
        Some(b.skip(1))
    } else {
        None
    }
}

pub open spec fn take_id(b: Seq<u8>) -> Option<(u128, Seq<u8>)> {
    match take_u64(b) {
        Some((hi, r)) => match take_u64(r) {
            Some((lo, r2)) => Some(((((hi as u128) << 64u128) | (lo as u128)), r2)),
            None => None,
        },
        None => None,
    }
}

pub open spec fn take_time(b: Seq<u8>) -> Option<(Timestamp, Seq<u8>)> {
    match take_u64(b) {
        Some((s, r)) => match take_u64(r) {
            Some((n, r2)) => if n < 2_000_000_000 {
                Some((Timestamp { secs: s as i64, nanos: n as u32 }, r2))
            } else {
                None
            },
            None => None,
        },
        None => None,
    }
}

pub open spec fn take_opt_time(b: Seq<u8>) -> Option<(Option<Timestamp>, Seq<u8>)> {
    if b.len() >= 1 && b[0] == 0 {
        Some((None, b.skip(1)))
    } else if b.len() >= 1 && b[0] == 1 {
        match take_time(b.skip(1)) {
            Some((t, r)) => Some((Some(t), r)),
            None => None,
        }
    } else {
        None
    }
}

pub open spec fn take_text(b: Seq<u8>) -> Option<(Seq<char>, Seq<u8>)> {
    match take_u64(b) {
        Some((n, r)) => if n <= r.len() && valid_utf8(r.take(n as int)) {
            Some((decode_utf8(r.take(n as int)), r.skip(n as int)))
        } else {
            None
        },
        None => None,
    }
}

/// Reads `n` texts one after another.
pub open spec fn take_text_list(b: Seq<u8>, n: nat) -> Option<(Seq<Seq<char>>, Seq<u8>)>
    decreases n,
{
    if n == 0 {
        Some((Seq::empty(), b))
    } else {
        match take_text_list(b, (n - 1) as nat) {
            Some((xs, r)) => match take_text(r) {
                Some((x, r2)) => Some((xs.push(x), r2)),
                None => None,
            },
            None => None,
        }
    }
}

pub open spec fn take_texts(b: Seq<u8>) -> Option<(Seq<Seq<char>>, Seq<u8>)> {
    match take_u64(b) {
        Some((n, r)) => take_text_list(r, n as nat),
        None => None,
    }
}


// ---- a puzzle as nine tagged fields, readable in any order ----
/// One field of a puzzle, as read from its tagged encoding.
pub enum Field {
    Id(u128),
    CreatedAt(Timestamp),
    UpdatedAt(Timestamp),
    Name(Seq<char>),
    ReleasedAt(Option<Timestamp>),
    Words(Seq<Seq<char>>),
    Letters(Seq<Seq<char>>),
    Middle(Seq<char>),
    Language(Seq<char>),
}

pub open spec fn field_tag(f: Field) -> u8 {
    match f {
        Field::Id(_) => 1,
        Field::CreatedAt(_) => 2,
        Field::UpdatedAt(_) => 3,
        Field::Name(_) => 4,
        Field::ReleasedAt(_) => 5,
        Field::Words(_) => 6,
        Field::Letters(_) => 7,
        Field::Middle(_) => 8,
        Field::Language(_) => 9,
    }
}

/// A field's tag byte followed by its value.
pub open spec fn field_bytes(f: Field) -> Seq<u8> {
    seq![field_tag(f)] + match f {
        Field::Id(x) => id_bytes(x),
        Field::CreatedAt(t) => time_bytes(t),
        Field::UpdatedAt(t) => time_bytes(t),
        Field::Name(s) => text_bytes(s),
        Field::ReleasedAt(t) => opt_time_bytes(t),
        Field::Words(w) => texts_bytes(w),
        Field::Letters(w) => texts_bytes(w),
        Field::Middle(s) => text_bytes(s),
        Field::Language(s) => text_bytes(s),
    }
}

/// The field of `v` that carries tag `t` (1 to 9).
pub open spec fn field_of(v: PuzzleView, t: u8) -> Field {
    if t == 1 {
        Field::Id(v.id)
    } else if t == 2 {
        Field::CreatedAt(v.created_at)
    } else if t == 3 {
        Field::UpdatedAt(v.updated_at)
    } else if t == 4 {
        Field::Name(v.name)
    } else if t == 5 {
        Field::ReleasedAt(v.released_at)
    } else if t == 6 {
        Field::Words(v.words)
    } else if t == 7 {
        Field::Letters(v.letters)
    } else if t == 8 {
        Field::Middle(v.middle)
    } else {
        Field::Language(v.language)
    }
}

/// The fields written one after another.
pub open spec fn fields_bytes(fs: Seq<Field>) -> Seq<u8>
    decreases fs.len(),
{
    if fs.len() == 0 {
        Seq::empty()
    } else {
        fields_bytes(fs.drop_last()) + field_bytes(fs.last())
    }
}

pub open spec fn take_field(b: Seq<u8>) -> Option<(Field, Seq<u8>)> {
    if b.len() == 0 {
        None
    } else {
        let t = b[0];
        let r = b.skip(1);
        if t == 1 {
            match take_id(r) {
                Some((x, r2)) => Some((Field::Id(x), r2)),
                None => None,
            }
        } else if t == 2 {
            match take_time(r) {
                Some((x, r2)) => Some((Field::CreatedAt(x), r2)),
                None => None,
            }
        } else if t == 3 {
            match take_time(r) {
                Some((x, r2)) => Some((Field::UpdatedAt(x), r2)),
                None => None,
            }
        } else if t == 4 {
            match take_text(r) {
                Some((x, r2)) => Some((Field::Name(x), r2)),
                None => None,
            }
        } else if t == 5 {
            match take_opt_time(r) {
                Some((x, r2)) => Some((Field::ReleasedAt(x), r2)),
                None => None,
            }
        } else if t == 6 {
            match take_texts(r) {
                Some((x, r2)) => Some((Field::Words(x), r2)),
                None => None,
            }
        } else if t == 7 {
            match take_texts(r) {
                Some((x, r2)) => Some((Field::Letters(x), r2)),
                None => None,
            }
        } else if t == 8 {
            match take_text(r) {
                Some((x, r2)) => Some((Field::Middle(x), r2)),
                None => None,
            }
        } else if t == 9 {
            match take_text(r) {
                Some((x, r2)) => Some((Field::Language(x), r2)),
                None => None,
            }
        } else {
            None
        }
    }
}

/// Reads `n` tagged fields one after another.
pub open spec fn take_fields(b: Seq<u8>, n: nat) -> Option<(Seq<Field>, Seq<u8>)>
    decreases n,
{
    if n == 0 {
        Some((Seq::empty(), b))
    } else {
        match take_fields(b, (n - 1) as nat) {
            Some((fs, r)) => match take_field(r) {
                Some((f, r2)) => Some((fs.push(f), r2)),
                None => None,
            },
            None => None,
        }
    }
}

/// `v` with the field that `f` carries set to `f`'s value.
pub open spec fn set_field(v: PuzzleView, f: Field) -> PuzzleView {
    match f {
        Field::Id(x) => PuzzleView { id: x, ..v },
        Field::CreatedAt(x) => PuzzleView { created_at: x, ..v },
        Field::UpdatedAt(x) => PuzzleView { updated_at: x, ..v },
        Field::Name(x) => PuzzleView { name: x, ..v },
        Field::ReleasedAt(x) => PuzzleView { released_at: x, ..v },
        Field::Words(x) => PuzzleView { words: x, ..v },
        Field::Letters(x) => PuzzleView { letters: x, ..v },
        Field::Middle(x) => PuzzleView { middle: x, ..v },
        Field::Language(x) => PuzzleView { language: x, ..v },
    }
}

pub open spec fn blank() -> PuzzleView {
    PuzzleView {
        id: 0,
        created_at: Timestamp { secs: 0, nanos: 0 },
        updated_at: Timestamp { secs: 0, nanos: 0 },
        name: Seq::empty(),
        released_at: None,
        words: Seq::empty(),
        letters: Seq::empty(),
        middle: Seq::empty(),
        language: Seq::empty(),
    }
}

/// The puzzle that the fields make, each setting the value it carries.
pub open spec fn assemble(fs: Seq<Field>) -> PuzzleView
    decreases fs.len(),
{
    if fs.len() == 0 {
        blank()
    } else {
        set_field(assemble(fs.drop_last()), fs.last())
    }
}

pub open spec fn has_tag(fs: Seq<Field>, t: u8) -> bool {
    exists|i: int| 0 <= i < fs.len() && field_tag(#[trigger] fs[i]) == t
}

pub open spec fn tags_distinct(fs: Seq<Field>) -> bool {
    forall|i: int, j: int|
        0 <= i < j < fs.len() ==> field_tag(#[trigger] fs[i]) != field_tag(#[trigger] fs[j])
}

pub open spec fn all_tags(fs: Seq<Field>) -> bool {
    forall|t: u8| 1 <= t <= 9 ==> #[trigger] has_tag(fs, t)
}

/// The puzzle that `b` encodes: nine tagged fields, in any order, each tag
/// once, and nothing after them; `None` where `b` is not that.
#[verifier::opaque]
pub open spec fn parse_puzzle(b: Seq<u8>) -> Option<PuzzleView> {
    match take_fields(b, 9) {
        Some((fs, r)) => if r.len() == 0 && tags_distinct(fs) && all_tags(fs) {
            Some(assemble(fs))
        } else {
            None
        },
        None => None,
    }
}

// ---- reading back what was written ----
pub(crate) proof fn lemma_u64_bytes(x: u64, rest: Seq<u8>)
    ensures
        take_u64(u64_bytes(x) + rest) == Some((x, rest)),
{
    reveal(take_u64);
    let b = u64_bytes(x) + rest;
    assert(b.skip(8) =~= rest);
    let (b0, b1, b2, b3) = ((x >> 56u64) as u8, (x >> 48u64) as u8, (x >> 40u64) as u8, (x >> 32u64) as u8);
    let (b4, b5, b6, b7) = ((x >> 24u64) as u8, (x >> 16u64) as u8, (x >> 8u64) as u8, x as u8);
    assert(be_u64(b0, b1, b2, b3, b4, b5, b6, b7) == x) by (bit_vector)
        requires
            b0 == (x >> 56u64) as u8,
            b1 == (x >> 48u64) as u8,
            b2 == (x >> 40u64) as u8,
            b3 == (x >> 32u64) as u8,
            b4 == (x >> 24u64) as u8,
            b5 == (x >> 16u64) as u8,
            b6 == (x >> 8u64) as u8,
            b7 == x as u8,
    ;
}

pub(crate) proof fn lemma_tag(t: u8, rest: Seq<u8>)
    ensures
        take_tag(seq![t] + rest, t) == Some(rest),
{
    assert((seq![t] + rest).skip(1) =~= rest);
}

pub(crate) proof fn lemma_id_bytes(id: u128, rest: Seq<u8>)
    ensures
        take_id(id_bytes(id) + rest) == Some((id, rest)),
{
    let hi = (id >> 64u128) as u64;
    let lo = id as u64;
    assert(id_bytes(id) + rest =~= u64_bytes(hi) + (u64_bytes(lo) + rest));
    lemma_u64_bytes(hi, u64_bytes(lo) + rest);
    lemma_u64_bytes(lo, rest);
    assert((((hi as u128) << 64u128) | (lo as u128)) == id) by (bit_vector)
        requires
            hi == (id >> 64u128) as u64,
            lo == id as u64,
    ;
}

pub(crate) proof fn lemma_time_bytes(t: Timestamp, rest: Seq<u8>)
    requires
        time_fits(t),
    ensures
        take_time(time_bytes(t) + rest) == Some((t, rest)),
{
    assert(time_bytes(t) + rest =~= u64_bytes(t.secs as u64) + (u64_bytes(t.nanos as u64) + rest));
    lemma_u64_bytes(t.secs as u64, u64_bytes(t.nanos as u64) + rest);
    lemma_u64_bytes(t.nanos as u64, rest);
    let secs = t.secs;
    assert((secs as u64) as i64 == secs) by (bit_vector);
}

proof fn lemma_opt_time_bytes(t: Option<Timestamp>, rest: Seq<u8>)
    requires
        t matches Some(x) ==> time_fits(x),
    ensures
        take_opt_time(opt_time_bytes(t) + rest) == Some((t, rest)),
{
    match t {
        None => {
            assert((seq![0u8] + rest).skip(1) =~= rest);
        },
        Some(x) => {
            let b = opt_time_bytes(t) + rest;
            assert(b.skip(1) =~= time_bytes(x) + rest);
            lemma_time_bytes(x, rest);
        },
    }
}

/// A time as chrono holds it: under two seconds' worth of nanoseconds, a
/// leap second included.
pub open spec fn time_fits(t: Timestamp) -> bool {
    t.nanos < 2_000_000_000
}

/// Byte lengths and counts that the eight-byte length fields can hold.
pub open spec fn text_fits(s: Seq<char>) -> bool {
    encode_utf8(s).len() <= u64::MAX
}

pub open spec fn texts_fit(ss: Seq<Seq<char>>) -> bool {
    ss.len() <= u64::MAX && forall|i: int| 0 <= i < ss.len() ==> text_fits(#[trigger] ss[i])
}

/// A puzzle whose times are valid and whose texts and lists are small enough
/// to be written.
pub open spec fn puzzle_fits(v: PuzzleView) -> bool {
    time_fits(v.created_at) && time_fits(v.updated_at) && (v.released_at matches Some(t)
        ==> time_fits(t)) && text_fits(v.name) && texts_fit(v.words) && texts_fit(v.letters) && text_fits(v.middle)
        && text_fits(v.language)
}

pub(crate) proof fn lemma_text_bytes(s: Seq<char>, rest: Seq<u8>)
    requires
        text_fits(s),
    ensures
        take_text(text_bytes(s) + rest) == Some((s, rest)),
{
    let e = encode_utf8(s);
    let n = e.len() as u64;
    assert(text_bytes(s) + rest =~= u64_bytes(n) + (e + rest));
    lemma_u64_bytes(n, e + rest);
    assert((e + rest).take(n as int) =~= e);
    assert((e + rest).skip(n as int) =~= rest);
}

proof fn lemma_text_list_bytes(ss: Seq<Seq<char>>, rest: Seq<u8>)
    requires
        forall|i: int| 0 <= i < ss.len() ==> text_fits(#[trigger] ss[i]),
    ensures
        take_text_list(text_list_bytes(ss) + rest, ss.len()) == Some((ss, rest)),
    decreases ss.len(),
{
    if ss.len() > 0 {
        let init = ss.drop_last();
        let last = ss.last();
        assert(text_list_bytes(ss) + rest =~= text_list_bytes(init) + (text_bytes(last) + rest));
        assert forall|i: int| 0 <= i < init.len() implies text_fits(#[trigger] init[i]) by {
            assert(init[i] == ss[i]);
        }
        lemma_text_list_bytes(init, text_bytes(last) + rest);
        assert(text_fits(ss[ss.len() - 1]));
        lemma_text_bytes(last, rest);
        assert(init.push(last) =~= ss);
    }
}

proof fn lemma_texts_bytes(ss: Seq<Seq<char>>, rest: Seq<u8>)
    requires
        texts_fit(ss),
    ensures
        take_texts(texts_bytes(ss) + rest) == Some((ss, rest)),
{
    assert(texts_bytes(ss) + rest =~= u64_bytes(ss.len() as u64) + (text_list_bytes(ss) + rest));
    lemma_u64_bytes(ss.len() as u64, text_list_bytes(ss) + rest);
    lemma_text_list_bytes(ss, rest);
}


pub open spec fn field_fits(f: Field) -> bool {
    match f {
        Field::Id(_) => true,
        Field::CreatedAt(t) => time_fits(t),
        Field::UpdatedAt(t) => time_fits(t),
        Field::Name(x) => text_fits(x),
        Field::ReleasedAt(t) => t matches Some(x) ==> time_fits(x),
        Field::Words(w) => texts_fit(w),
        Field::Letters(w) => texts_fit(w),
        Field::Middle(x) => text_fits(x),
        Field::Language(x) => text_fits(x),
    }
}

proof fn lemma_field_bytes(f: Field, rest: Seq<u8>)
    requires
        field_fits(f),
    ensures
        take_field(field_bytes(f) + rest) == Some((f, rest)),
{
    let b = field_bytes(f) + rest;
    let payload = field_bytes(f).skip(1);
    assert(field_bytes(f) =~= seq![field_tag(f)] + payload);
    assert(b[0] == field_tag(f));
    assert(b.skip(1) =~= payload + rest);
    match f {
        Field::Id(x) => {
            assert(b[0] == 1u8);
            assert(b.skip(1) == id_bytes(x) + rest);
            lemma_id_bytes(x, rest);
            assert(take_id(b.skip(1)) == Some((x, rest)));
            assert(b.len() > 0);
            let t = b[0];
            assert(t == 1);
            assert(take_field(b) == Some((Field::Id(x), rest)));
        },
        Field::CreatedAt(t) => {
            assert(payload =~= time_bytes(t));
            lemma_time_bytes(t, rest);
            assert(take_field(b) == Some((f, rest)));
        },
        Field::UpdatedAt(t) => {
            assert(payload =~= time_bytes(t));
            lemma_time_bytes(t, rest);
            assert(take_field(b) == Some((f, rest)));
        },
        Field::Name(x) => {
            assert(payload =~= text_bytes(x));
            lemma_text_bytes(x, rest);
            assert(take_field(b) == Some((f, rest)));
        },
        Field::ReleasedAt(t) => {
            assert(payload =~= opt_time_bytes(t));
            lemma_opt_time_bytes(t, rest);
            assert(take_field(b) == Some((f, rest)));
        },
        Field::Words(w) => {
            assert(payload =~= texts_bytes(w));
            lemma_texts_bytes(w, rest);
            assert(take_field(b) == Some((f, rest)));
        },
        Field::Letters(w) => {
            assert(payload =~= texts_bytes(w));
            lemma_texts_bytes(w, rest);
            assert(take_field(b) == Some((f, rest)));
        },
        Field::Middle(x) => {
            assert(payload =~= text_bytes(x));
            lemma_text_bytes(x, rest);
            assert(take_field(b) == Some((f, rest)));
        },
        Field::Language(x) => {
            assert(payload =~= text_bytes(x));
            lemma_text_bytes(x, rest);
            assert(take_field(b) == Some((f, rest)));
        },
    }
}

proof fn lemma_fields_bytes(fs: Seq<Field>, rest: Seq<u8>)
    requires
        forall|i: int| 0 <= i < fs.len() ==> field_fits(#[trigger] fs[i]),
    ensures
        take_fields(fields_bytes(fs) + rest, fs.len()) == Some((fs, rest)),
    decreases fs.len(),
{
    if fs.len() > 0 {
        let init = fs.drop_last();
        let last = fs.last();
        assert(fields_bytes(fs) + rest =~= fields_bytes(init) + (field_bytes(last) + rest));
        assert forall|i: int| 0 <= i < init.len() implies field_fits(#[trigger] init[i]) by {
            assert(init[i] == fs[i]);
        }
        lemma_fields_bytes(init, field_bytes(last) + rest);
        assert(field_fits(fs[fs.len() - 1]));
        lemma_field_bytes(last, rest);
        assert(init.push(last) =~= fs);
    }
}

/// `a` and `b` agree on the field with tag `t`.
pub open spec fn agrees_on(a: PuzzleView, b: PuzzleView, t: u8) -> bool {
    if t == 1 {
        a.id == b.id
    } else if t == 2 {
        a.created_at == b.created_at
    } else if t == 3 {
        a.updated_at == b.updated_at
    } else if t == 4 {
        a.name == b.name
    } else if t == 5 {
        a.released_at == b.released_at
    } else if t == 6 {
        a.words == b.words
    } else if t == 7 {
        a.letters == b.letters
    } else if t == 8 {
        a.middle == b.middle
    } else {
        a.language == b.language
    }
}

proof fn lemma_assemble(fs: Seq<Field>, v: PuzzleView)
    requires
        forall|i: int| 0 <= i < fs.len() ==> #[trigger] fs[i] == field_of(v, field_tag(fs[i])),
    ensures
        forall|t: u8| 1 <= t <= 9 && #[trigger] has_tag(fs, t) ==> agrees_on(assemble(fs), v, t),
    decreases fs.len(),
{
    if fs.len() > 0 {
        let init = fs.drop_last();
        let last = fs.last();
        assert forall|i: int| 0 <= i < init.len() implies #[trigger] init[i] == field_of(v, field_tag(init[i])) by {
            assert(init[i] == fs[i]);
        }
        lemma_assemble(init, v);
        assert(last == fs[fs.len() - 1]);
        assert forall|t: u8| 1 <= t <= 9 && #[trigger] has_tag(fs, t) implies agrees_on(assemble(fs), v, t) by {
            if t != field_tag(last) {
                let i = choose|i: int| 0 <= i < fs.len() && field_tag(#[trigger] fs[i]) == t;
                assert(init[i] == fs[i]);
                assert(has_tag(init, t));
            }
        }
    }
}

proof fn lemma_agrees_all(a: PuzzleView, b: PuzzleView)
    requires
        forall|t: u8| 1 <= t <= 9 ==> #[trigger] agrees_on(a, b, t),
    ensures
        a == b,
{
    assert(agrees_on(a, b, 1) && agrees_on(a, b, 2) && agrees_on(a, b, 3));
    assert(agrees_on(a, b, 4) && agrees_on(a, b, 5) && agrees_on(a, b, 6));
    assert(agrees_on(a, b, 7) && agrees_on(a, b, 8) && agrees_on(a, b, 9));
}

/// The fields of `v` in the tag order `order`.
pub open spec fn fields_in(v: PuzzleView, order: Seq<u8>) -> Seq<Field> {
    order.map_values(|t: u8| field_of(v, t))
}

/// `order` holds each of the nine tags exactly once.
pub open spec fn is_tag_order(order: Seq<u8>) -> bool {
    order.len() == 9 && order.no_duplicates() && (forall|i: int| 0 <= i < 9 ==> 1 <= #[trigger] order[i] <= 9)
        && (forall|t: u8| 1 <= t <= 9 ==> #[trigger] order.contains(t))
}

/// The encoding is tagged, not positional: the nine fields of a puzzle,
/// written in any order, read back as that puzzle.
pub proof fn lemma_fields_any_order(v: PuzzleView, order: Seq<u8>)
    requires
        puzzle_fits(v),
        is_tag_order(order),
    ensures
        parse_puzzle(fields_bytes(fields_in(v, order))) == Some(v),
{
    reveal(parse_puzzle);
    let fs = fields_in(v, order);
    assert forall|i: int| 0 <= i < fs.len() implies field_fits(#[trigger] fs[i]) && field_tag(fs[i]) == order[i]
        && fs[i] == field_of(v, field_tag(fs[i])) by {
        assert(1 <= order[i] <= 9);
    }
    lemma_fields_bytes(fs, Seq::empty());
    assert(fields_bytes(fs) + Seq::<u8>::empty() =~= fields_bytes(fs));
    assert forall|i: int, j: int| 0 <= i < j < fs.len() implies field_tag(#[trigger] fs[i]) != field_tag(
        #[trigger] fs[j],
    ) by {
        assert(order[i] != order[j]);
    }
    assert forall|t: u8| 1 <= t <= 9 implies #[trigger] has_tag(fs, t) by {
        assert(order.contains(t));
        let i = choose|i: int| 0 <= i < order.len() && order[i] == t;
        assert(field_tag(fs[i]) == t);
    }
    lemma_assemble(fs, v);
    assert forall|t: u8| 1 <= t <= 9 implies #[trigger] agrees_on(assemble(fs), v, t) by {
        assert(has_tag(fs, t));
    }
    lemma_agrees_all(assemble(fs), v);
}

pub open spec fn tag_order() -> Seq<u8> {
    seq![1u8, 2u8, 3u8, 4u8, 5u8, 6u8, 7u8, 8u8, 9u8]
}

proof fn lemma_fields_bytes_step(fs: Seq<Field>, k: int)
    requires
        0 <= k < fs.len(),
    ensures
        fields_bytes(fs.take(k + 1)) == fields_bytes(fs.take(k)) + field_bytes(fs[k]),
{
    assert(fs.take(k + 1).drop_last() =~= fs.take(k));
}

proof fn lemma_fields_in_order(v: PuzzleView)
    ensures
        fields_in(v, tag_order()) =~= seq![
            Field::Id(v.id),
            Field::CreatedAt(v.created_at),
            Field::UpdatedAt(v.updated_at),
            Field::Name(v.name),
            Field::ReleasedAt(v.released_at),
            Field::Words(v.words),
            Field::Letters(v.letters),
            Field::Middle(v.middle),
            Field::Language(v.language),
        ],
{
}

/// Reading back the encoding of a puzzle gives that puzzle again.
pub proof fn lemma_decode_encode(v: PuzzleView)
    requires
        puzzle_fits(v),
    ensures
        parse_puzzle(puzzle_bytes(v)) == Some(v),
{
    let order = tag_order();
    assert forall|t: u8| 1 <= t <= 9 implies #[trigger] order.contains(t) by {
        assert(order[t - 1] == t);
    }
    lemma_fields_any_order(v, order);
}

// ---- writing ----
pub(crate) fn push_u64(out: &mut Vec<u8>, x: u64)
    ensures
        final(out)@ == old(out)@ + u64_bytes(x),
{
    out.push((x >> 56u64) as u8);
    out.push((x >> 48u64) as u8);
    out.push((x >> 40u64) as u8);
    out.push((x >> 32u64) as u8);
    out.push((x >> 24u64) as u8);
    out.push((x >> 16u64) as u8);
    out.push((x >> 8u64) as u8);
    out.push(x as u8);
    assert(final(out)@ =~= old(out)@ + u64_bytes(x));
}

pub(crate) fn push_time(out: &mut Vec<u8>, t: Timestamp)
    ensures
        final(out)@ == old(out)@ + time_bytes(t),
{
    push_u64(out, t.secs as u64);
    push_u64(out, t.nanos as u64);
    assert(final(out)@ =~= old(out)@ + time_bytes(t));
}

pub(crate) fn push_opt_time(out: &mut Vec<u8>, t: Option<Timestamp>)
    ensures
        final(out)@ == old(out)@ + opt_time_bytes(t),
{
    match t {
        None => {
            out.push(0u8);
        },
        Some(x) => {
            out.push(1u8);
            push_time(out, x);
        },
    }
    assert(final(out)@ =~= old(out)@ + opt_time_bytes(t));
}

pub(crate) fn push_text(out: &mut Vec<u8>, s: &String)
    ensures
        final(out)@ == old(out)@ + text_bytes(s@),
{
    let bytes = s.as_str().as_bytes();
    push_u64(out, bytes.len() as u64);
    let ghost mid = out@;
    out.extend_from_slice(bytes);
    assert(final(out)@ =~= mid + encode_utf8(s@));
    assert(final(out)@ =~= old(out)@ + text_bytes(s@));
}

pub(crate) fn push_texts(out: &mut Vec<u8>, v: &Vec<String>)
    ensures
        final(out)@ == old(out)@ + texts_bytes(texts_view(v@)),
{
    let ghost tv = texts_view(v@);
    push_u64(out, v.len() as u64);
    let ghost start = out@;
    assert(tv.take(0) =~= Seq::<Seq<char>>::empty());
    assert(start =~= start + text_list_bytes(tv.take(0)));
    let mut i: usize = 0;
    while i < v.len()
        invariant
            i <= v@.len(),
            tv == texts_view(v@),
            out@ == start + text_list_bytes(tv.take(i as int)),
        decreases v@.len() - i,
    {
        push_text(out, &v[i]);
        proof {
            let next = tv.take(i + 1);
            assert(next.drop_last() =~= tv.take(i as int));
            assert(next.last() == v@[i as int]@);
            assert(out@ =~= start + text_list_bytes(next));
        }
        i = i + 1;
    }
    assert(tv.take(v@.len() as int) =~= tv);
    assert(final(out)@ =~= old(out)@ + texts_bytes(tv));
}

/// The canonical encoding of `p`.
#[verifier::rlimit(60)]
pub fn encode(p: &Puzzle) -> (r: Vec<u8>)
    ensures
        r@ == puzzle_bytes(p@),
{
    let ghost fs = fields_in(p@, tag_order());
    proof {
        lemma_fields_in_order(p@);
        assert(fs.take(0) =~= Seq::<Field>::empty());
    }
    let mut out: Vec<u8> = Vec::new();
    out.push(1u8);
    push_u64(&mut out, (p.id >> 64u128) as u64);
    push_u64(&mut out, p.id as u64);
    proof {
        lemma_fields_bytes_step(fs, 0);
        assert(out@ =~= fields_bytes(fs.take(1)));
    }
    let ghost before = out@;
    out.push(2u8);
    push_time(&mut out, p.created_at);
    proof {
        lemma_fields_bytes_step(fs, 1);
        assert(out@ =~= before + field_bytes(fs[1]));
    }
    let ghost before = out@;
    out.push(3u8);
    push_time(&mut out, p.updated_at);
    proof {
        lemma_fields_bytes_step(fs, 2);
        assert(out@ =~= before + field_bytes(fs[2]));
    }
    let ghost before = out@;
    out.push(4u8);
    push_text(&mut out, &p.name);
    proof {
        lemma_fields_bytes_step(fs, 3);
        assert(out@ =~= before + field_bytes(fs[3]));
    }
    let ghost before = out@;
    out.push(5u8);
    push_opt_time(&mut out, p.released_at);
    proof {
        lemma_fields_bytes_step(fs, 4);
        assert(out@ =~= before + field_bytes(fs[4]));
    }
    let ghost before = out@;
    out.push(6u8);
    push_texts(&mut out, &p.words);
    proof {
        lemma_fields_bytes_step(fs, 5);
        assert(out@ =~= before + field_bytes(fs[5]));
    }
    let ghost before = out@;
    out.push(7u8);
    push_texts(&mut out, &p.letters);
    proof {
        lemma_fields_bytes_step(fs, 6);
        assert(out@ =~= before + field_bytes(fs[6]));
    }
    let ghost before = out@;
    out.push(8u8);
    push_text(&mut out, &p.middle);
    proof {
        lemma_fields_bytes_step(fs, 7);
        assert(out@ =~= before + field_bytes(fs[7]));
    }
    let ghost before = out@;
    out.push(9u8);
    push_text(&mut out, &p.language);
    proof {
        lemma_fields_bytes_step(fs, 8);
        assert(out@ =~= before + field_bytes(fs[8]));
        assert(fs.take(9) =~= fs);
    }
    out
}

// ---- reading, from a position in a byte slice ----
pub open spec fn rest_at(b: Seq<u8>, pos: int) -> Seq<u8> {
    b.subrange(pos, b.len() as int)
}

/// Relies on `std::str::from_utf8`: it accepts exactly the well-formed UTF-8
/// byte strings, and the text it gives holds those bytes.
#[verifier::external_body]
fn utf8_text(b: &[u8]) -> (r: Option<String>)
    ensures
        match r {
            Some(s) => valid_utf8(b@) && s@ == decode_utf8(b@),
            None => !valid_utf8(b@),
        },
{
    match std::str::from_utf8(b) {
        Ok(s) => Some(s.to_string()),
        Err(_) => None,
    }
}

pub(crate) fn read_u64(b: &[u8], pos: usize) -> (r: Option<(u64, usize)>)
    requires
        pos <= b@.len(),
    ensures
        match take_u64(rest_at(b@, pos as int)) {
            None => r is None,
            Some((x, rest)) => r matches Some((y, q)) && y == x && q <= b@.len() && rest
                == rest_at(b@, q as int),
        },
{
    reveal(take_u64);
    let ghost rb = rest_at(b@, pos as int);
    if b.len() - pos < 8 {
        return None;
    }
    let x = ((b[pos] as u64) << 56u64) | ((b[pos + 1] as u64) << 48u64) | ((b[pos + 2] as u64)
        << 40u64) | ((b[pos + 3] as u64) << 32u64) | ((b[pos + 4] as u64) << 24u64) | ((b[pos
        + 5] as u64) << 16u64) | ((b[pos + 6] as u64) << 8u64) | (b[pos + 7] as u64);
    assert(rb.skip(8) =~= rest_at(b@, pos + 8));
    assert(rb[0] == b@[pos as int] && rb[1] == b@[pos + 1] && rb[2] == b@[pos + 2] && rb[3]
        == b@[pos + 3]);
    assert(rb[4] == b@[pos + 4] && rb[5] == b@[pos + 5] && rb[6] == b@[pos + 6] && rb[7]
        == b@[pos + 7]);
    Some((x, pos + 8))
}

pub(crate) fn read_tag(b: &[u8], pos: usize, tag: u8) -> (r: Option<usize>)
    requires
        pos <= b@.len(),
    ensures
        match take_tag(rest_at(b@, pos as int), tag) {
            None => r is None,
            Some(rest) => r matches Some(q) && q <= b@.len() && rest == rest_at(b@, q as int),
        },
{
    if pos < b.len() && b[pos] == tag {
        assert(rest_at(b@, pos as int).skip(1) =~= rest_at(b@, pos + 1));
        Some(pos + 1)
    } else {
        None
    }
}

pub(crate) fn read_id(b: &[u8], pos: usize) -> (r: Option<(u128, usize)>)
    requires
        pos <= b@.len(),
    ensures
        match take_id(rest_at(b@, pos as int)) {
            None => r is None,
            Some((x, rest)) => r matches Some((y, q)) && y == x && q <= b@.len() && rest
                == rest_at(b@, q as int),
        },
{
    let (hi, pa) = match read_u64(b, pos) {
        Some(v) => v,
        None => return None,
    };
    let (lo, pb) = match read_u64(b, pa) {
        Some(v) => v,
        None => return None,
    };
    Some((((hi as u128) << 64u128) | (lo as u128), pb))
}

pub(crate) fn read_time(b: &[u8], pos: usize) -> (r: Option<(Timestamp, usize)>)
    requires
        pos <= b@.len(),
    ensures
        match take_time(rest_at(b@, pos as int)) {
            None => r is None,
            Some((x, rest)) => r matches Some((y, q)) && y == x && q <= b@.len() && rest
                == rest_at(b@, q as int),
        },
{
    let (secs, pa) = match read_u64(b, pos) {
        Some(v) => v,
        None => return None,
    };
    let (nanos, pb) = match read_u64(b, pa) {
        Some(v) => v,
        None => return None,
    };
    if nanos >= 2_000_000_000 {
        return None;
    }
    Some((Timestamp { secs: secs as i64, nanos: nanos as u32 }, pb))
}

pub(crate) fn read_opt_time(b: &[u8], pos: usize) -> (r: Option<(Option<Timestamp>, usize)>)
    requires
        pos <= b@.len(),
    ensures
        match take_opt_time(rest_at(b@, pos as int)) {
            None => r is None,
            Some((x, rest)) => r matches Some((y, q)) && y == x && q <= b@.len() && rest
                == rest_at(b@, q as int),
        },
{
    let ghost rb = rest_at(b@, pos as int);
    if pos >= b.len() {
        return None;
    }
    assert(rb.skip(1) =~= rest_at(b@, pos + 1));
    if b[pos] == 0 {
        Some((None, pos + 1))
    } else if b[pos] == 1 {
        match read_time(b, pos + 1) {
            Some((t, q)) => Some((Some(t), q)),
            None => None,
        }
    } else {
        None
    }
}

pub(crate) fn read_text(b: &[u8], pos: usize) -> (r: Option<(String, usize)>)
    requires
        pos <= b@.len(),
    ensures
        match take_text(rest_at(b@, pos as int)) {
            None => r is None,
            Some((x, rest)) => r matches Some((y, q)) && y@ == x && q <= b@.len() && rest
                == rest_at(b@, q as int),
        },
{
    let (n, pa) = match read_u64(b, pos) {
        Some(v) => v,
        None => return None,
    };
    let ghost r1 = rest_at(b@, pa as int);
    if n > (b.len() - pa) as u64 {
        return None;
    }
    let end = pa + n as usize;
    let chunk = vstd::slice::slice_subrange(b, pa, end);
    assert(r1.take(n as int) =~= chunk@);
    assert(r1.skip(n as int) =~= rest_at(b@, end as int));
    match utf8_text(chunk) {
        Some(s) => Some((s, end)),
        None => None,
    }
}

proof fn lemma_text_list_fails(b: Seq<u8>, k: nat, n: nat)
    requires
        k <= n,
        take_text_list(b, k) is None,
    ensures
        take_text_list(b, n) is None,
    decreases n,
{
    if k < n {
        lemma_text_list_fails(b, k, (n - 1) as nat);
    }
}

pub(crate) fn read_texts(b: &[u8], pos: usize) -> (r: Option<(Vec<String>, usize)>)
    requires
        pos <= b@.len(),
    ensures
        match take_texts(rest_at(b@, pos as int)) {
            None => r is None,
            Some((x, rest)) => r matches Some((y, q)) && texts_view(y@) == x && q <= b@.len()
                && rest == rest_at(b@, q as int),
        },
{
    let (n, pa) = match read_u64(b, pos) {
        Some(v) => v,
        None => return None,
    };
    let ghost r1 = rest_at(b@, pa as int);
    let mut out: Vec<String> = Vec::new();
    let mut p = pa;
    let mut i: u64 = 0;
    assert(texts_view(out@) =~= Seq::<Seq<char>>::empty());
    while i < n
        invariant
            i <= n,
            p <= b@.len(),
            r1 == rest_at(b@, pa as int),
            take_u64(rest_at(b@, pos as int)) == Some((n, r1)),
            take_text_list(r1, i as nat) == Some((texts_view(out@), rest_at(b@, p as int))),
        decreases n - i,
    {
        match read_text(b, p) {
            Some((s, q)) => {
                let ghost before = out@;
                out.push(s);
                assert(texts_view(out@) =~= texts_view(before).push(s@));
                p = q;
                i = i + 1;
            },
            None => {
                proof {
                    lemma_text_list_fails(r1, (i + 1) as nat, n as nat);
                }
                return None;
            },
        }
    }
    Some((out, p))
}

// ---- decoding a whole puzzle ----
proof fn lemma_take_fields_len(b: Seq<u8>, n: nat)
    requires
        take_fields(b, n) is Some,
    ensures
        take_fields(b, n) matches Some((fs, _)) && fs.len() == n,
    decreases n,
{
    if n > 0 {
        lemma_take_fields_len(b, (n - 1) as nat);
    }
}

proof fn lemma_take_fields_prefix(b: Seq<u8>, k: nat, n: nat)
    requires
        k <= n,
        take_fields(b, n) is Some,
    ensures
        take_fields(b, k) matches Some((hs, _)) && take_fields(b, n) matches Some((gs, _)) && hs
            == gs.take(k as int),
    decreases n,
{
    lemma_take_fields_len(b, n);
    if k == n {
        let (gs, _) = take_fields(b, n).unwrap();
        assert(gs.take(k as int) =~= gs);
    } else {
        lemma_take_fields_prefix(b, k, (n - 1) as nat);
        let (gs, _) = take_fields(b, n).unwrap();
        let (gs1, _) = take_fields(b, (n - 1) as nat).unwrap();
        lemma_take_fields_len(b, (n - 1) as nat);
        assert(gs1.take(k as int) =~= gs.take(k as int));
    }
}

proof fn lemma_take_fields_fails(b: Seq<u8>, k: nat, n: nat)
    requires
        k <= n,
        take_fields(b, k) is None,
    ensures
        take_fields(b, n) is None,
    decreases n,
{
    if k < n {
        lemma_take_fields_fails(b, k, (n - 1) as nat);
    }
}

proof fn lemma_step(b: Seq<u8>, i: nat, fs: Seq<Field>, pos: int, f: Field, q: int)
    requires
        take_fields(b, i) == Some((fs, rest_at(b, pos))),
        take_field(rest_at(b, pos)) == Some((f, rest_at(b, q))),
        tags_distinct(fs),
    ensures
        take_fields(b, i + 1) == Some((fs.push(f), rest_at(b, q))),
        forall|t: u8| #[trigger] has_tag(fs.push(f), t) == (has_tag(fs, t) || t == field_tag(f)),
        assemble(fs.push(f)) == set_field(assemble(fs), f),
        !has_tag(fs, field_tag(f)) ==> tags_distinct(fs.push(f)),
{
    let gs = fs.push(f);
    assert(gs.drop_last() =~= fs);
    assert forall|t: u8| #[trigger] has_tag(gs, t) == (has_tag(fs, t) || t == field_tag(f)) by {
        if has_tag(fs, t) {
            let j = choose|j: int| 0 <= j < fs.len() && field_tag(#[trigger] fs[j]) == t;
            assert(gs[j] == fs[j]);
        }
        if has_tag(gs, t) && t != field_tag(f) {
            let j = choose|j: int| 0 <= j < gs.len() && field_tag(#[trigger] gs[j]) == t;
            assert(gs[j] == fs[j]);
        }
        if t == field_tag(f) {
            assert(gs[fs.len() as int] == f);
        }
    }
    if !has_tag(fs, field_tag(f)) {
        assert forall|x: int, y: int| 0 <= x < y < gs.len() implies field_tag(#[trigger] gs[x]) != field_tag(
            #[trigger] gs[y],
        ) by {
            assert(gs[x] == fs[x]);
            if y < fs.len() {
                assert(gs[y] == fs[y]);
            } else {
                assert(gs[y] == f);
            }
        }
    }
}

proof fn lemma_repeat_fails(b: Seq<u8>, i: nat, fs: Seq<Field>, f: Field, r: Seq<u8>)
    requires
        i < 9,
        fs.len() == i,
        take_fields(b, i + 1) == Some((fs.push(f), r)),
        has_tag(fs, field_tag(f)),
    ensures
        parse_puzzle(b) is None,
{
    reveal(parse_puzzle);
    if take_fields(b, 9) is Some {
        lemma_take_fields_prefix(b, i + 1, 9);
        lemma_take_fields_len(b, 9);
        let (gs, _) = take_fields(b, 9).unwrap();
        let j = choose|j: int| 0 <= j < fs.len() && field_tag(#[trigger] fs[j]) == field_tag(f);
        assert(gs.take(i + 1 as int)[j] == gs[j]);
        assert(gs.take(i + 1 as int)[i as int] == gs[i as int]);
        assert(fs.push(f)[j] == fs[j]);
        assert(!tags_distinct(gs));
    }
}

proof fn lemma_field_fails(b: Seq<u8>, i: nat, fs: Seq<Field>, pos: int)
    requires
        i < 9,
        take_fields(b, i) == Some((fs, rest_at(b, pos))),
        take_field(rest_at(b, pos)) is None,
    ensures
        parse_puzzle(b) is None,
{
    reveal(parse_puzzle);
    lemma_take_fields_fails(b, i + 1, 9);
}

/// What has been read so far agrees with the puzzle the fields make: a slot
/// is filled exactly when its tag was read, and holds that field's value.
pub open spec fn slots_agree(
    fs: Seq<Field>,
    id: Option<u128>,
    created_at: Option<Timestamp>,
    updated_at: Option<Timestamp>,
    name: Option<String>,
    released_at: Option<Option<Timestamp>>,
    words: Option<Vec<String>>,
    letters: Option<Vec<String>>,
    middle: Option<String>,
    language: Option<String>,
) -> bool {
    let a = assemble(fs);
    &&& (id is Some <==> has_tag(fs, 1)) && (id matches Some(x) ==> a.id == x)
    &&& (created_at is Some <==> has_tag(fs, 2)) && (created_at matches Some(x) ==> a.created_at == x)
    &&& (updated_at is Some <==> has_tag(fs, 3)) && (updated_at matches Some(x) ==> a.updated_at == x)
    &&& (name is Some <==> has_tag(fs, 4)) && (name matches Some(x) ==> a.name == x@)
    &&& (released_at is Some <==> has_tag(fs, 5)) && (released_at matches Some(x) ==> a.released_at == x)
    &&& (words is Some <==> has_tag(fs, 6)) && (words matches Some(x) ==> a.words == texts_view(x@))
    &&& (letters is Some <==> has_tag(fs, 7)) && (letters matches Some(x) ==> a.letters == texts_view(x@))
    &&& (middle is Some <==> has_tag(fs, 8)) && (middle matches Some(x) ==> a.middle == x@)
    &&& (language is Some <==> has_tag(fs, 9)) && (language matches Some(x) ==> a.language == x@)
}

/// Reads a puzzle back from its tagged fields, which may come in any order;
/// fails on bytes that are not a puzzle.
#[verifier::rlimit(100)]
pub fn decode(bytes: &[u8]) -> (r: Result<Puzzle, DecodeError>)
    ensures
        match parse_puzzle(bytes@) {
            None => r is Err,
            Some(v) => r matches Ok(p) && p@ == v,
        },
        r is Err ==> forall|v: PuzzleView| puzzle_fits(v) ==> puzzle_bytes(v) != bytes@,
{
    proof {
        assert forall|v: PuzzleView| puzzle_fits(v) && puzzle_bytes(v) == bytes@ implies parse_puzzle(
            bytes@,
        ) is Some by {
            lemma_decode_encode(v);
        }
    }
    let ghost b = bytes@;
    let ghost mut fs: Seq<Field> = Seq::empty();
    let mut id: Option<u128> = None;
    let mut created_at: Option<Timestamp> = None;
    let mut updated_at: Option<Timestamp> = None;
    let mut name: Option<String> = None;
    let mut released_at: Option<Option<Timestamp>> = None;
    let mut words: Option<Vec<String>> = None;
    let mut letters: Option<Vec<String>> = None;
    let mut middle: Option<String> = None;
    let mut language: Option<String> = None;
    let mut pos: usize = 0;
    let mut i: usize = 0;
    assert(rest_at(b, 0) =~= b);
    while i < 9
        invariant
            b == bytes@,
            i <= 9,
            pos <= b.len(),
            fs.len() == i,
            take_fields(b, i as nat) == Some((fs, rest_at(b, pos as int))),
            tags_distinct(fs),
            slots_agree(fs, id, created_at, updated_at, name, released_at, words, letters, middle, language),
            forall|v: PuzzleView| puzzle_fits(v) && puzzle_bytes(v) == b ==> parse_puzzle(b) is Some,
        decreases 9 - i,
    {
        if pos >= bytes.len() {
            proof {
                lemma_field_fails(b, i as nat, fs, pos as int);
            }
            return Err(DecodeError);
        }
        let tag = bytes[pos];
        proof {
            assert(rest_at(b, pos as int).skip(1) =~= rest_at(b, pos + 1));
            assert(rest_at(b, pos as int)[0] == tag);
        }
        if tag == 1 {
            match read_id(bytes, pos + 1) {
                Some((x, q)) => {
                    let ghost f = Field::Id(x);
                    proof { lemma_step(b, i as nat, fs, pos as int, f, q as int); }
                    if id.is_some() {
                        proof { lemma_repeat_fails(b, i as nat, fs, f, rest_at(b, q as int)); }
                        return Err(DecodeError);
                    }
                    id = Some(x);
                    proof { fs = fs.push(f); }
                    pos = q;
                },
                None => {
                    proof { lemma_field_fails(b, i as nat, fs, pos as int); }
                    return Err(DecodeError);
                },
            }
        } else if tag == 2 {
            match read_time(bytes, pos + 1) {
                Some((x, q)) => {
                    let ghost f = Field::CreatedAt(x);
                    proof { lemma_step(b, i as nat, fs, pos as int, f, q as int); }
                    if created_at.is_some() {
                        proof { lemma_repeat_fails(b, i as nat, fs, f, rest_at(b, q as int)); }
                        return Err(DecodeError);
                    }
                    created_at = Some(x);
                    proof { fs = fs.push(f); }
                    pos = q;
                },
                None => {
                    proof { lemma_field_fails(b, i as nat, fs, pos as int); }
                    return Err(DecodeError);
                },
            }
        } else if tag == 3 {
            match read_time(bytes, pos + 1) {
                Some((x, q)) => {
                    let ghost f = Field::UpdatedAt(x);
                    proof { lemma_step(b, i as nat, fs, pos as int, f, q as int); }
                    if updated_at.is_some() {
                        proof { lemma_repeat_fails(b, i as nat, fs, f, rest_at(b, q as int)); }
                        return Err(DecodeError);
                    }
                    updated_at = Some(x);
                    proof { fs = fs.push(f); }
                    pos = q;
                },
                None => {
                    proof { lemma_field_fails(b, i as nat, fs, pos as int); }
                    return Err(DecodeError);
                },
            }
        } else if tag == 4 {
            match read_text(bytes, pos + 1) {
                Some((x, q)) => {
                    let ghost f = Field::Name(x@);
                    proof { lemma_step(b, i as nat, fs, pos as int, f, q as int); }
                    if name.is_some() {
                        proof { lemma_repeat_fails(b, i as nat, fs, f, rest_at(b, q as int)); }
                        return Err(DecodeError);
                    }
                    name = Some(x);
                    proof { fs = fs.push(f); }
                    pos = q;
                },
                None => {
                    proof { lemma_field_fails(b, i as nat, fs, pos as int); }
                    return Err(DecodeError);
                },
            }
        } else if tag == 5 {
            match read_opt_time(bytes, pos + 1) {
                Some((x, q)) => {
                    let ghost f = Field::ReleasedAt(x);
                    proof { lemma_step(b, i as nat, fs, pos as int, f, q as int); }
                    if released_at.is_some() {
                        proof { lemma_repeat_fails(b, i as nat, fs, f, rest_at(b, q as int)); }
                        return Err(DecodeError);
                    }
                    released_at = Some(x);
                    proof { fs = fs.push(f); }
                    pos = q;
                },
                None => {
                    proof { lemma_field_fails(b, i as nat, fs, pos as int); }
                    return Err(DecodeError);
                },
            }
        } else if tag == 6 {
            match read_texts(bytes, pos + 1) {
                Some((x, q)) => {
                    let ghost f = Field::Words(texts_view(x@));
                    proof { lemma_step(b, i as nat, fs, pos as int, f, q as int); }
                    if words.is_some() {
                        proof { lemma_repeat_fails(b, i as nat, fs, f, rest_at(b, q as int)); }
                        return Err(DecodeError);
                    }
                    words = Some(x);
                    proof { fs = fs.push(f); }
                    pos = q;
                },
                None => {
                    proof { lemma_field_fails(b, i as nat, fs, pos as int); }
                    return Err(DecodeError);
                },
            }
        } else if tag == 7 {
            match read_texts(bytes, pos + 1) {
                Some((x, q)) => {
                    let ghost f = Field::Letters(texts_view(x@));
                    proof { lemma_step(b, i as nat, fs, pos as int, f, q as int); }
                    if letters.is_some() {
                        proof { lemma_repeat_fails(b, i as nat, fs, f, rest_at(b, q as int)); }
                        return Err(DecodeError);
                    }
                    letters = Some(x);
                    proof { fs = fs.push(f); }
                    pos = q;
                },
                None => {
                    proof { lemma_field_fails(b, i as nat, fs, pos as int); }
                    return Err(DecodeError);
                },
            }
        } else if tag == 8 {
            match read_text(bytes, pos + 1) {
                Some((x, q)) => {
                    let ghost f = Field::Middle(x@);
                    proof { lemma_step(b, i as nat, fs, pos as int, f, q as int); }
                    if middle.is_some() {
                        proof { lemma_repeat_fails(b, i as nat, fs, f, rest_at(b, q as int)); }
                        return Err(DecodeError);
                    }
                    middle = Some(x);
                    proof { fs = fs.push(f); }
                    pos = q;
                },
                None => {
                    proof { lemma_field_fails(b, i as nat, fs, pos as int); }
                    return Err(DecodeError);
                },
            }
        } else if tag == 9 {
            match read_text(bytes, pos + 1) {
                Some((x, q)) => {
                    let ghost f = Field::Language(x@);
                    proof { lemma_step(b, i as nat, fs, pos as int, f, q as int); }
                    if language.is_some() {
                        proof { lemma_repeat_fails(b, i as nat, fs, f, rest_at(b, q as int)); }
                        return Err(DecodeError);
                    }
                    language = Some(x);
                    proof { fs = fs.push(f); }
                    pos = q;
                },
                None => {
                    proof { lemma_field_fails(b, i as nat, fs, pos as int); }
                    return Err(DecodeError);
                },
            }
        } else {
            proof { lemma_field_fails(b, i as nat, fs, pos as int); }
            return Err(DecodeError);
        }
        i = i + 1;
    }
    proof {
        reveal(parse_puzzle);
    }
    if pos != bytes.len() {
        return Err(DecodeError);
    }
    match (id, created_at, updated_at, name, released_at, words, letters, middle, language) {
        (
            Some(id),
            Some(created_at),
            Some(updated_at),
            Some(name),
            Some(released_at),
            Some(words),
            Some(letters),
            Some(middle),
            Some(language),
        ) => {
            assert(rest_at(b, pos as int).len() == 0);
            let p = Puzzle {
                id,
                created_at,
                updated_at,
                name,
                released_at,
                words,
                letters,
                middle,
                language,
            };
            assert(all_tags(fs)) by {
                assert forall|t: u8| 1 <= t <= 9 implies #[trigger] has_tag(fs, t) by {
                    assert(t == 1 || t == 2 || t == 3 || t == 4 || t == 5 || t == 6 || t == 7 || t == 8 || t == 9);
                }
            }
            assert(p@ == assemble(fs));
            Ok(p)
        },
        _ => {
            assert(!all_tags(fs)) by {
                if id is None { assert(!has_tag(fs, 1)); }
                else if created_at is None { assert(!has_tag(fs, 2)); }
                else if updated_at is None { assert(!has_tag(fs, 3)); }
                else if name is None { assert(!has_tag(fs, 4)); }
                else if released_at is None { assert(!has_tag(fs, 5)); }
                else if words is None { assert(!has_tag(fs, 6)); }
                else if letters is None { assert(!has_tag(fs, 7)); }
                else if middle is None { assert(!has_tag(fs, 8)); }
                else { assert(!has_tag(fs, 9)); }
            }
            Err(DecodeError)
        },
    }
}

} // verus!

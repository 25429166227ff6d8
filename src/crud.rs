use crate::codec::{encode, lemma_decode_encode, parse_puzzle, puzzle_bytes, puzzle_fits};
use crate::puzzle::{from_partial_spec, key_for_id, key_prefix, puzzle_key, PartialPuzzle, Puzzle, PuzzleView, Timestamp};
use crate::store::{
    answer, enumerates, lookup, matching_keys, value_view, values_view, ApiError, Command,
    CommandView, ErrorView, Reply, ReplyView, StoreMap,
};
use vstd::prelude::*;

verus! {

/// Where an operation stands while it waits for the store's reply.
#[derive(Debug)]
pub enum Session {
    /// A new puzzle is being written.
    Creating { puzzle: Puzzle },
    /// A read asked whether `key` exists.
    ReadChecking { key: String },
    /// A read asked for the bytes under `key`.
    ReadFetching { key: String },
    /// An update asked whether `key` exists.
    UpdateChecking { key: String, puzzle: Puzzle },
    /// An update is writing `puzzle`.
    UpdateWriting { puzzle: Puzzle },
    /// A deletion asked whether `key` exists.
    DeleteChecking { key: String },
    /// A deletion is removing its key.
    DeleteRemoving,
    /// A listing asked for the puzzle keys.
    Listing,
    /// A listing asked for the bytes under each key.
    ListFetching,
}

pub enum SessionView {
    Creating(PuzzleView),
    ReadChecking(Seq<char>),
    ReadFetching(Seq<char>),
    UpdateChecking(Seq<char>, PuzzleView),
    UpdateWriting(PuzzleView),
    DeleteChecking(Seq<char>),
    DeleteRemoving,
    Listing,
    ListFetching,
}

impl View for Session {
    type V = SessionView;

    open spec fn view(&self) -> SessionView {
        match self {
            Session::Creating { puzzle } => SessionView::Creating(puzzle@),
            Session::ReadChecking { key } => SessionView::ReadChecking(key@),
            Session::ReadFetching { key } => SessionView::ReadFetching(key@),
            Session::UpdateChecking { key, puzzle } => SessionView::UpdateChecking(key@, puzzle@),
            Session::UpdateWriting { puzzle } => SessionView::UpdateWriting(puzzle@),
            Session::DeleteChecking { key } => SessionView::DeleteChecking(key@),
            Session::DeleteRemoving => SessionView::DeleteRemoving,
            Session::Listing => SessionView::Listing,
            Session::ListFetching => SessionView::ListFetching,
        }
    }
}

/// What a finished operation returns.
#[derive(Debug)]
pub enum Outcome {
    Puzzle(Puzzle),
    Puzzles(Vec<Puzzle>),
    Deleted,
}

pub enum OutcomeView {
    One(PuzzleView),
    Many(Seq<PuzzleView>),
    Deleted,
}

pub open spec fn puzzles_view(v: Seq<Puzzle>) -> Seq<PuzzleView> {
    v.map_values(|p: Puzzle| p@)
}

impl View for Outcome {
    type V = OutcomeView;

    open spec fn view(&self) -> OutcomeView {
        match self {
            Outcome::Puzzle(p) => OutcomeView::One(p@),
            Outcome::Puzzles(ps) => OutcomeView::Many(puzzles_view(ps@)),
            Outcome::Deleted => OutcomeView::Deleted,
        }
    }
}

/// The next move of an operation: a store call to perform, after which the
/// reply goes to `resume` with `session`, or the operation's result.
#[derive(Debug)]
pub enum Step {
    Call { session: Session, command: Command },
    Done(Result<Outcome, ApiError>),
}

pub enum StepView {
    Call(SessionView, CommandView),
    Done(Result<OutcomeView, ErrorView>),
}

impl View for Step {
    type V = StepView;

    open spec fn view(&self) -> StepView {
        match self {
            Step::Call { session, command } => StepView::Call(session@, command@),
            Step::Done(Ok(o)) => StepView::Done(Ok(o@)),
            Step::Done(Err(e)) => StepView::Done(Err(e@)),
        }
    }
}

pub open spec fn fails() -> StepView {
    StepView::Done(Err(ErrorView::Store))
}

/// The glob that matches every puzzle key.
pub open spec fn list_pattern() -> Seq<char> {
    key_prefix().push('*')
}

/// Decodes each fetched value in turn; `None` where one is absent or is not a
/// puzzle.
pub open spec fn parse_all(vs: Seq<Option<Seq<u8>>>) -> Option<Seq<PuzzleView>>
    decreases vs.len(),
{
    if vs.len() == 0 {
        Some(Seq::empty())
    } else {
        match parse_all(vs.drop_last()) {
            Some(xs) => match vs.last() {
                Some(b) => match parse_puzzle(b) {
                    Some(v) => Some(xs.push(v)),
                    None => None,
                },
                None => None,
            },
            None => None,
        }
    }
}

pub open spec fn start_create(p: PuzzleView) -> StepView {
    StepView::Call(SessionView::Creating(p), CommandView::Put(puzzle_key(p.id), puzzle_bytes(p)))
}

pub open spec fn start_read(id: u128) -> StepView {
    StepView::Call(SessionView::ReadChecking(puzzle_key(id)), CommandView::Exists(puzzle_key(id)))
}

pub open spec fn start_update(id: u128, body: PuzzleView) -> StepView {
    if body.id != id {
        StepView::Done(Err(ErrorView::BadRequest(id, body.id)))
    } else {
        StepView::Call(
            SessionView::UpdateChecking(puzzle_key(id), body),
            CommandView::Exists(puzzle_key(id)),
        )
    }
}

pub open spec fn start_delete(id: u128) -> StepView {
    StepView::Call(SessionView::DeleteChecking(puzzle_key(id)), CommandView::Exists(puzzle_key(id)))
}

pub open spec fn start_list() -> StepView {
    StepView::Call(SessionView::Listing, CommandView::Keys(list_pattern()))
}

/// What an operation does once the store has answered.
pub open spec fn next(s: SessionView, r: ReplyView) -> StepView {
    match (s, r) {
        (SessionView::Creating(p), ReplyView::Done) => StepView::Done(Ok(OutcomeView::One(p))),
        (SessionView::ReadChecking(k), ReplyView::Flag(present)) => if present {
            StepView::Call(SessionView::ReadFetching(k), CommandView::Get(k))
        } else {
            StepView::Done(Err(ErrorView::NotFound(k)))
        },
        (SessionView::ReadFetching(_), ReplyView::Value(Some(b))) => match parse_puzzle(b) {
            Some(v) => StepView::Done(Ok(OutcomeView::One(v))),
            None => fails(),
        },
        (SessionView::UpdateChecking(k, p), ReplyView::Flag(present)) => if present {
            StepView::Call(SessionView::UpdateWriting(p), CommandView::Put(puzzle_key(p.id), puzzle_bytes(p)))
        } else {
            StepView::Done(Err(ErrorView::NotFound(k)))
        },
        (SessionView::UpdateWriting(p), ReplyView::Done) => StepView::Done(Ok(OutcomeView::One(p))),
        (SessionView::DeleteChecking(k), ReplyView::Flag(present)) => if present {
            StepView::Call(SessionView::DeleteRemoving, CommandView::Delete(k))
        } else {
            StepView::Done(Err(ErrorView::NotFound(k)))
        },
        (SessionView::DeleteRemoving, ReplyView::Done) => StepView::Done(Ok(OutcomeView::Deleted)),
        (SessionView::Listing, ReplyView::Keys(ks)) => if ks.len() == 0 {
            StepView::Done(Ok(OutcomeView::Many(Seq::empty())))
        } else {
            StepView::Call(SessionView::ListFetching, CommandView::MultiGet(ks))
        },
        (SessionView::ListFetching, ReplyView::Values(vs)) => match parse_all(vs) {
            Some(ps) => StepView::Done(Ok(OutcomeView::Many(ps))),
            None => fails(),
        },
        _ => fails(),
    }
}

/// Starts writing an already derived puzzle under its key.
pub fn create_step(puzzle: Puzzle) -> (r: Step)
    ensures
        r@ == start_create(puzzle@),
{
    let key = puzzle.to_key();
    let value = encode(&puzzle);
    Step::Call { session: Session::Creating { puzzle }, command: Command::Put { key, value } }
}

/// Starts creating a puzzle from `partial`, under a fresh identity and the
/// current time.
pub fn create_puzzle(partial: PartialPuzzle) -> (r: Step)
    ensures
        exists|id: u128, now: Timestamp|
            r@ == start_create(from_partial_spec(partial, id, now)) && (id >> 76u128) & 0xfu128 == 4
                && (id >> 62u128) & 0x3u128 == 2 && now.nanos < 1_000_000_000,
{
    let puzzle = Puzzle::from_partial(partial);
    create_step(puzzle)
}

/// Starts reading the puzzle with identity `id`: first asks whether its key exists.
pub fn read_puzzle(id: u128) -> (r: Step)
    ensures
        r@ == start_read(id),
{
    let key = key_for_id(id);
    let probe = key.clone();
    Step::Call { session: Session::ReadChecking { key }, command: Command::Exists { key: probe } }
}

/// Starts replacing the puzzle with identity `id` by `body`. A body whose
/// identity differs is refused before the store is asked anything.
pub fn update_puzzle(id: u128, body: Puzzle) -> (r: Step)
    ensures
        r@ == start_update(id, body@),
{
    if body.id != id {
        let body_id = body.id;
        return Step::Done(Err(ApiError::BadRequest { path_id: id, body_id }));
    }
    let key = key_for_id(id);
    let probe = key.clone();
    Step::Call {
        session: Session::UpdateChecking { key, puzzle: body },
        command: Command::Exists { key: probe },
    }
}

/// Starts deleting the puzzle with identity `id`: first asks whether its key exists.
pub fn delete_puzzle(id: u128) -> (r: Step)
    ensures
        r@ == start_delete(id),
{
    let key = key_for_id(id);
    let probe = key.clone();
    Step::Call { session: Session::DeleteChecking { key }, command: Command::Exists { key: probe } }
}

/// Starts listing every puzzle: first asks for the keys under the puzzle prefix.
pub fn read_puzzles() -> (r: Step)
    ensures
        r@ == start_list(),
{
    let pattern = String::from_str("puzzle:*");
    proof {
        reveal_strlit("puzzle:*");
        assert(pattern@ =~= list_pattern());
    }
    Step::Call { session: Session::Listing, command: Command::Keys { pattern } }
}

proof fn lemma_parse_all_fails(vs: Seq<Option<Seq<u8>>>, i: int)
    requires
        0 <= i <= vs.len(),
        parse_all(vs.take(i)) is None,
    ensures
        parse_all(vs) is None,
    decreases vs.len() - i,
{
    if i < vs.len() {
        assert(vs.take(i + 1).drop_last() =~= vs.take(i));
        lemma_parse_all_fails(vs, i + 1);
    } else {
        assert(vs.take(i) =~= vs);
    }
}

/// Decodes every fetched value, in order; fails where one is absent or is not
/// a puzzle.
#[verifier::rlimit(30)]
pub fn decode_all(values: Vec<Option<Vec<u8>>>) -> (r: Option<Vec<Puzzle>>)
    ensures
        match parse_all(values_view(values@)) {
            None => r is None,
            Some(ps) => r matches Some(out) && puzzles_view(out@) == ps,
        },
{
    let ghost vs = values_view(values@);
    let mut out: Vec<Puzzle> = Vec::new();
    let mut i: usize = 0;
    assert(vs.take(0) =~= Seq::<Option<Seq<u8>>>::empty());
    assert(puzzles_view(out@) =~= Seq::<PuzzleView>::empty());
    while i < values.len()
        invariant
            i <= values@.len(),
            vs == values_view(values@),
            parse_all(vs.take(i as int)) == Some(puzzles_view(out@)),
        decreases values@.len() - i,
    {
        let ghost cur = vs.take(i + 1);
        proof {
            assert(cur.drop_last() =~= vs.take(i as int));
            assert(cur.last() == value_view(values@[i as int]));
        }
        match &values[i] {
            Some(bytes) => match crate::codec::decode(bytes.as_slice()) {
                Ok(p) => {
                    let ghost before = out@;
                    out.push(p);
                    assert(puzzles_view(out@) =~= puzzles_view(before).push(p@));
                    assert(parse_all(cur) == Some(puzzles_view(out@)));
                },
                Err(_) => {
                    proof {
                        lemma_parse_all_fails(vs, i + 1);
                    }
                    return None;
                },
            },
            None => {
                proof {
                    lemma_parse_all_fails(vs, i + 1);
                }
                return None;
            },
        }
        i = i + 1;
    }
    assert(vs.take(values@.len() as int) =~= vs);
    Some(out)
}

/// Carries an operation on once the store has answered `reply` to the call
/// made from `session`.
pub fn resume(session: Session, reply: Reply) -> (r: Step)
    ensures
        r@ == next(session@, reply@),
{
    match (session, reply) {
        (Session::Creating { puzzle }, Reply::Done) => Step::Done(Ok(Outcome::Puzzle(puzzle))),
        (Session::ReadChecking { key }, Reply::Flag(present)) => {
            if present {
                let fetch = key.clone();
                Step::Call { session: Session::ReadFetching { key }, command: Command::Get { key: fetch } }
            } else {
                Step::Done(Err(ApiError::NotFound { key }))
            }
        },
        (Session::ReadFetching { key }, Reply::Value(Some(bytes))) => match crate::codec::decode(bytes.as_slice()) {
            Ok(p) => Step::Done(Ok(Outcome::Puzzle(p))),
            Err(_) => Step::Done(Err(ApiError::Store)),
        },
        (Session::UpdateChecking { key, puzzle }, Reply::Flag(present)) => {
            if present {
                let target = puzzle.to_key();
                let value = encode(&puzzle);
                Step::Call {
                    session: Session::UpdateWriting { puzzle },
                    command: Command::Put { key: target, value },
                }
            } else {
                Step::Done(Err(ApiError::NotFound { key }))
            }
        },
        (Session::UpdateWriting { puzzle }, Reply::Done) => Step::Done(Ok(Outcome::Puzzle(puzzle))),
        (Session::DeleteChecking { key }, Reply::Flag(present)) => {
            if present {
                Step::Call { session: Session::DeleteRemoving, command: Command::Delete { key } }
            } else {
                Step::Done(Err(ApiError::NotFound { key }))
            }
        },
        (Session::DeleteRemoving, Reply::Done) => Step::Done(Ok(Outcome::Deleted)),
        (Session::Listing, Reply::Keys(keys)) => {
            if keys.len() == 0 {
                let none: Vec<Puzzle> = Vec::new();
                assert(puzzles_view(none@) =~= Seq::<PuzzleView>::empty());
                Step::Done(Ok(Outcome::Puzzles(none)))
            } else {
                Step::Call { session: Session::ListFetching, command: Command::MultiGet { keys } }
            }
        },
        (Session::ListFetching, Reply::Values(values)) => match decode_all(values) {
            Some(ps) => Step::Done(Ok(Outcome::Puzzles(ps))),
            None => Step::Done(Err(ApiError::Store)),
        },
        _ => Step::Done(Err(ApiError::Store)),
    }
}

// ---- operations against a store that answers as its contents say ----
/// Runs an operation for at most `fuel` store calls against a store holding
/// `m` that lists matching keys in `order`: the contents after it and the
/// step it stopped at.
pub open spec fn run(m: StoreMap, st: StepView, order: Seq<Seq<char>>, fuel: nat) -> (StoreMap, StepView)
    decreases fuel,
{
    match st {
        StepView::Done(_) => (m, st),
        StepView::Call(s, c) => if fuel == 0 {
            (m, st)
        } else {
            let (m2, reply) = answer(m, c, order);
            run(m2, next(s, reply), order, (fuel - 1) as nat)
        },
    }
}

/// An operation run to its end: none makes more than three store calls.
pub open spec fn perform(m: StoreMap, st: StepView, order: Seq<Seq<char>>) -> (StoreMap, StepView) {
    run(m, st, order, 3)
}

/// Creating a puzzle stores its encoding under its key; reading that identity
/// afterwards gives back the puzzle that the creation returned.
pub proof fn lemma_create_then_read(m: StoreMap, p: PuzzleView, order: Seq<Seq<char>>)
    requires
        puzzle_fits(p),
    ensures
        perform(m, start_create(p), order) == (
        m.insert(puzzle_key(p.id), puzzle_bytes(p)),
        StepView::Done(Ok(OutcomeView::One(p))),
        ),
        perform(m.insert(puzzle_key(p.id), puzzle_bytes(p)), start_read(p.id), order).1
            == StepView::Done(Ok(OutcomeView::One(p))),
{
    reveal_with_fuel(run, 4);
    lemma_decode_encode(p);
}

/// Where no puzzle is stored under `x`, reading, updating (with a body of
/// that identity) and deleting `x` each fail as not found, naming the key,
/// and leave the store as it was.
pub proof fn lemma_absent_not_found(m: StoreMap, x: u128, body: PuzzleView, order: Seq<Seq<char>>)
    requires
        !m.contains_key(puzzle_key(x)),
        body.id == x,
    ensures
        perform(m, start_read(x), order) == (m, StepView::Done(Err(ErrorView::NotFound(puzzle_key(x))))),
        perform(m, start_update(x, body), order) == (m, StepView::Done(Err(ErrorView::NotFound(puzzle_key(x))))),
        perform(m, start_delete(x), order) == (m, StepView::Done(Err(ErrorView::NotFound(puzzle_key(x))))),
{
    reveal_with_fuel(run, 4);
}

/// An update whose body names another identity than the path fails as a bad
/// request, naming both, and makes no store call at all.
pub proof fn lemma_mismatch_bad_request(m: StoreMap, path_id: u128, body: PuzzleView, order: Seq<Seq<char>>)
    requires
        body.id != path_id,
    ensures
        perform(m, start_update(path_id, body), order) == (
        m,
        StepView::Done(Err(ErrorView::BadRequest(path_id, body.id))),
        ),
{
    reveal_with_fuel(run, 4);
}

/// Deleting a stored puzzle removes its key, after which reading it fails as
/// not found.
pub proof fn lemma_delete_then_read(m: StoreMap, id: u128, order: Seq<Seq<char>>)
    requires
        m.contains_key(puzzle_key(id)),
    ensures
        perform(m, start_delete(id), order) == (m.remove(puzzle_key(id)), StepView::Done(Ok(OutcomeView::Deleted))),
        perform(m.remove(puzzle_key(id)), start_read(id), order).1 == StepView::Done(
            Err(ErrorView::NotFound(puzzle_key(id))),
        ),
{
    reveal_with_fuel(run, 4);
}

proof fn lemma_parse_all_succeeds(vs: Seq<Option<Seq<u8>>>)
    requires
        forall|i: int| 0 <= i < vs.len() ==> (#[trigger] vs[i] matches Some(b) && parse_puzzle(b) is Some),
    ensures
        parse_all(vs) matches Some(ps) && ps.len() == vs.len(),
    decreases vs.len(),
{
    if vs.len() > 0 {
        let init = vs.drop_last();
        assert forall|i: int| 0 <= i < init.len() implies (#[trigger] init[i] matches Some(b) && parse_puzzle(b) is Some) by {
            assert(init[i] == vs[i]);
        }
        lemma_parse_all_succeeds(init);
        assert(vs[vs.len() - 1] matches Some(b) && parse_puzzle(b) is Some);
    }
}

/// Listing a store whose puzzle keys all hold puzzles returns one puzzle for
/// each puzzle key, whether there are none, one or many.
pub proof fn lemma_list_counts(m: StoreMap, order: Seq<Seq<char>>)
    requires
        enumerates(m, list_pattern(), order),
        forall|k: Seq<char>| #[trigger] matching_keys(m, list_pattern()).contains(k) ==> parse_puzzle(m[k]) is Some,
    ensures
        perform(m, start_list(), order).1 matches StepView::Done(Ok(OutcomeView::Many(ps))) && ps.len()
            == matching_keys(m, list_pattern()).len(),
{
    reveal_with_fuel(run, 4);
    order.unique_seq_to_set();
    if order.len() > 0 {
        let vs = order.map_values(|k: Seq<char>| lookup(m, k));
        assert forall|i: int| 0 <= i < vs.len() implies (#[trigger] vs[i] matches Some(b) && parse_puzzle(b) is Some) by {
            assert(order.to_set().contains(order[i]));
            assert(matching_keys(m, list_pattern()).contains(order[i]));
        }
        lemma_parse_all_succeeds(vs);
    }
}

} // verus!

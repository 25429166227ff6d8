use vstd::prelude::*;

verus! {

/// The contents of the key-value store: each key's stored bytes.
pub type StoreMap = Map<Seq<char>, Seq<u8>>;

/// How an operation fails.
#[derive(Clone, Debug)]
pub enum ApiError {
    /// No puzzle is stored under `key`.
    NotFound { key: String },
    /// The identity in the path differs from the one in the body.
    BadRequest { path_id: u128, body_id: u128 },
    /// The store failed, or held bytes that are not a puzzle.
    Store,
}

pub enum ErrorView {
    NotFound(Seq<char>),
    BadRequest(u128, u128),
    Store,
}

impl View for ApiError {
    type V = ErrorView;

    open spec fn view(&self) -> ErrorView {
        match self {
            ApiError::NotFound { key } => ErrorView::NotFound(key@),
            ApiError::BadRequest { path_id, body_id } => ErrorView::BadRequest(*path_id, *body_id),
            ApiError::Store => ErrorView::Store,
        }
    }
}

/// A call that an operation asks the store to perform.
#[derive(Clone, Debug)]
pub enum Command {
    /// Stores `value` under `key`, replacing what was there.
    Put { key: String, value: Vec<u8> },
    /// Asks whether `key` is present.
    Exists { key: String },
    /// Fetches the bytes under `key`.
    Get { key: String },
    /// Removes `key`.
    Delete { key: String },
    /// Lists the keys that match a glob `pattern`.
    Keys { pattern: String },
    /// Fetches the bytes under each of `keys`, in order.
    MultiGet { keys: Vec<String> },
}

pub enum CommandView {
    Put(Seq<char>, Seq<u8>),
    Exists(Seq<char>),
    Get(Seq<char>),
    Delete(Seq<char>),
    Keys(Seq<char>),
    MultiGet(Seq<Seq<char>>),
}

pub open spec fn keys_view(v: Seq<String>) -> Seq<Seq<char>> {
    v.map_values(|s: String| s@)
}

impl View for Command {
    type V = CommandView;

    open spec fn view(&self) -> CommandView {
        match self {
            Command::Put { key, value } => CommandView::Put(key@, value@),
            Command::Exists { key } => CommandView::Exists(key@),
            Command::Get { key } => CommandView::Get(key@),
            Command::Delete { key } => CommandView::Delete(key@),
            Command::Keys { pattern } => CommandView::Keys(pattern@),
            Command::MultiGet { keys } => CommandView::MultiGet(keys_view(keys@)),
        }
    }
}

/// What the store answered to a command.
#[derive(Clone, Debug)]
pub enum Reply {
    /// A write or a removal was done.
    Done,
    /// The answer to `Exists`.
    Flag(bool),
    /// The answer to `Get`; `None` where the key is absent.
    Value(Option<Vec<u8>>),
    /// The answer to `Keys`.
    Keys(Vec<String>),
    /// The answer to `MultiGet`, one entry for each key asked for.
    Values(Vec<Option<Vec<u8>>>),
    /// The store could not be reached or refused the command.
    Failed,
}

pub enum ReplyView {
    Done,
    Flag(bool),
    Value(Option<Seq<u8>>),
    Keys(Seq<Seq<char>>),
    Values(Seq<Option<Seq<u8>>>),
    Failed,
}

pub open spec fn value_view(v: Option<Vec<u8>>) -> Option<Seq<u8>> {
    match v {
        Some(b) => Some(b@),
        None => None,
    }
}

pub open spec fn values_view(v: Seq<Option<Vec<u8>>>) -> Seq<Option<Seq<u8>>> {
    v.map_values(|x: Option<Vec<u8>>| value_view(x))
}

impl View for Reply {
    type V = ReplyView;

    open spec fn view(&self) -> ReplyView {
        match self {
            Reply::Done => ReplyView::Done,
            Reply::Flag(b) => ReplyView::Flag(*b),
            Reply::Value(v) => ReplyView::Value(value_view(*v)),
            Reply::Keys(ks) => ReplyView::Keys(keys_view(ks@)),
            Reply::Values(vs) => ReplyView::Values(values_view(vs@)),
            Reply::Failed => ReplyView::Failed,
        }
    }
}

/// Whether `key` matches the glob `pattern`; the one wildcard understood is a
/// trailing `*`, which matches any rest.
pub open spec fn glob_matches(pattern: Seq<char>, key: Seq<char>) -> bool {
    if pattern.len() > 0 && pattern.last() == '*' {
        key.len() >= pattern.len() - 1 && key.take(pattern.len() - 1) == pattern.drop_last()
    } else {
        key == pattern
    }
}

/// The keys of `m` that match `pattern`.
pub open spec fn matching_keys(m: StoreMap, pattern: Seq<char>) -> Set<Seq<char>> {
    m.dom().filter(|k: Seq<char>| glob_matches(pattern, k))
}

/// `order` lists the keys of `m` that match `pattern`, each once.
pub open spec fn enumerates(m: StoreMap, pattern: Seq<char>, order: Seq<Seq<char>>) -> bool {
    order.no_duplicates() && order.to_set() == matching_keys(m, pattern)
}

pub open spec fn lookup(m: StoreMap, key: Seq<char>) -> Option<Seq<u8>> {
    if m.contains_key(key) {
        Some(m[key])
    } else {
        None
    }
}

/// A store holding `m` performs `c`: the contents after it and its reply.
/// `order` is the order in which it lists matching keys.
pub open spec fn answer(m: StoreMap, c: CommandView, order: Seq<Seq<char>>) -> (StoreMap, ReplyView) {
    match c {
        CommandView::Put(k, v) => (m.insert(k, v), ReplyView::Done),
        CommandView::Exists(k) => (m, ReplyView::Flag(m.contains_key(k))),
        CommandView::Get(k) => (m, ReplyView::Value(lookup(m, k))),
        CommandView::Delete(k) => (m.remove(k), ReplyView::Done),
        CommandView::Keys(_) => (m, ReplyView::Keys(order)),
        CommandView::MultiGet(ks) => (m, ReplyView::Values(ks.map_values(|k: Seq<char>| lookup(m, k)))),
    }
}

} // verus!

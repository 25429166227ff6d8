use crate::codec::{
    lemma_id_bytes, lemma_tag, lemma_text_bytes, lemma_time_bytes, push_text, push_time, push_u64,
    read_id, read_tag, read_text, read_time, rest_at, id_bytes, take_id, take_tag, take_text,
    take_time, text_bytes, text_fits, time_bytes, time_fits, DecodeError,
};
use crate::puzzle::Timestamp;
use vstd::prelude::*;

verus! {

/// The fields of a user that its owner supplies.
#[derive(Clone, Debug)]
pub struct PartialUser {
    pub name: String,
    pub email: String,
    pub admin: bool,
}

/// A stored user.
#[derive(Clone, Debug)]
pub struct User {
    pub id: u128,
    pub name: String,
    pub email: String,
    pub admin: bool,
    pub created_at: Timestamp,
    pub updated_at: Timestamp,
}

pub struct PartialUserView {
    pub name: Seq<char>,
    pub email: Seq<char>,
    pub admin: bool,
}

pub struct UserView {
    pub id: u128,
    pub name: Seq<char>,
    pub email: Seq<char>,
    pub admin: bool,
    pub created_at: Timestamp,
    pub updated_at: Timestamp,
}

impl View for PartialUser {
    type V = PartialUserView;

    open spec fn view(&self) -> PartialUserView {
        PartialUserView { name: self.name@, email: self.email@, admin: self.admin }
    }
}

impl View for User {
    type V = UserView;

    open spec fn view(&self) -> UserView {
        UserView {
            id: self.id,
            name: self.name@,
            email: self.email@,
            admin: self.admin,
            created_at: self.created_at,
            updated_at: self.updated_at,
        }
    }
}

pub open spec fn bool_bytes(b: bool) -> Seq<u8> {
    seq![if b { 1u8 } else { 0u8 }]
}

pub open spec fn take_bool(b: Seq<u8>) -> Option<(bool, Seq<u8>)> {
    if b.len() >= 1 && (b[0] == 0 || b[0] == 1) {
        Some((b[0] == 1, b.skip(1)))
    } else {
        None
    }
}

/// The canonical encoding of a partial user: name, email and the admin flag,
/// each led by its tag (1 to 3).
pub open spec fn partial_user_bytes(v: PartialUserView) -> Seq<u8> {
    seq![1u8] + text_bytes(v.name) + seq![2u8] + text_bytes(v.email) + seq![3u8] + bool_bytes(
        v.admin,
    )
}

/// The canonical encoding of a user: identity, name, email, admin flag and the
/// two times, each led by its tag (1 to 6).
pub open spec fn user_bytes(v: UserView) -> Seq<u8> {
    seq![1u8] + id_bytes(v.id) + seq![2u8] + text_bytes(v.name) + seq![3u8] + text_bytes(v.email)
        + seq![4u8] + bool_bytes(v.admin) + seq![5u8] + time_bytes(v.created_at) + seq![6u8]
        + time_bytes(v.updated_at)
}

#[verifier::opaque]
pub open spec fn parse_partial_user(b: Seq<u8>) -> Option<PartialUserView> {
    match take_tag(b, 1) {
        None => None,
        Some(b) => match take_text(b) {
            None => None,
            Some((name, b)) => match take_tag(b, 2) {
                None => None,
                Some(b) => match take_text(b) {
                    None => None,
                    Some((email, b)) => match take_tag(b, 3) {
                        None => None,
                        Some(b) => match take_bool(b) {
                            None => None,
                            Some((admin, b)) => if b.len() == 0 {
                                Some(PartialUserView { name, email, admin })
                            } else {
                                None
                            },
                        },
                    },
                },
            },
        },
    }
}

#[verifier::opaque]
pub open spec fn parse_user(b: Seq<u8>) -> Option<UserView> {
    match take_tag(b, 1) {
        None => None,
        Some(b) => match take_id(b) {
            None => None,
            Some((id, b)) => match take_tag(b, 2) {
                None => None,
                Some(b) => match take_text(b) {
                    None => None,
                    Some((name, b)) => match take_tag(b, 3) {
                        None => None,
                        Some(b) => match take_text(b) {
                            None => None,
                            Some((email, b)) => match take_tag(b, 4) {
                                None => None,
                                Some(b) => match take_bool(b) {
                                    None => None,
                                    Some((admin, b)) => match take_tag(b, 5) {
                                        None => None,
                                        Some(b) => match take_time(b) {
                                            None => None,
                                            Some((created_at, b)) => match take_tag(b, 6) {
                                                None => None,
                                                Some(b) => match take_time(b) {
                                                    None => None,
                                                    Some((updated_at, b)) => if b.len() == 0 {
                                                        Some(
                                                            UserView {
                                                                id,
                                                                name,
                                                                email,
                                                                admin,
                                                                created_at,
                                                                updated_at,
                                                            },
                                                        )
                                                    } else {
                                                        None
                                                    },
                                                },
                                            },
                                        },
                                    },
                                },
                            },
                        },
                    },
                },
            },
        },
    }
}

proof fn lemma_bool_bytes(x: bool, rest: Seq<u8>)
    ensures
        take_bool(bool_bytes(x) + rest) == Some((x, rest)),
{
    assert((bool_bytes(x) + rest).skip(1) =~= rest);
}

/// Reading back the encoding of a partial user gives that partial user again.
pub proof fn lemma_partial_user_round_trip(v: PartialUserView)
    requires
        text_fits(v.name),
        text_fits(v.email),
    ensures
        parse_partial_user(partial_user_bytes(v)) == Some(v),
{
    reveal(parse_partial_user);
    let e = Seq::<u8>::empty();
    let t3 = seq![3u8] + (bool_bytes(v.admin) + e);
    let t2 = seq![2u8] + (text_bytes(v.email) + t3);
    let t1 = seq![1u8] + (text_bytes(v.name) + t2);
    assert(partial_user_bytes(v) =~= t1);
    lemma_tag(1, text_bytes(v.name) + t2);
    lemma_text_bytes(v.name, t2);
    lemma_tag(2, text_bytes(v.email) + t3);
    lemma_text_bytes(v.email, t3);
    lemma_tag(3, bool_bytes(v.admin) + e);
    lemma_bool_bytes(v.admin, e);
}

/// Reading back the encoding of a user gives that user again.
#[verifier::rlimit(40)]
pub proof fn lemma_user_round_trip(v: UserView)
    requires
        text_fits(v.name),
        text_fits(v.email),
        time_fits(v.created_at),
        time_fits(v.updated_at),
    ensures
        parse_user(user_bytes(v)) == Some(v),
{
    reveal(parse_user);
    let e = Seq::<u8>::empty();
    let t6 = seq![6u8] + (time_bytes(v.updated_at) + e);
    let t5 = seq![5u8] + (time_bytes(v.created_at) + t6);
    let t4 = seq![4u8] + (bool_bytes(v.admin) + t5);
    let t3 = seq![3u8] + (text_bytes(v.email) + t4);
    let t2 = seq![2u8] + (text_bytes(v.name) + t3);
    let t1 = seq![1u8] + (id_bytes(v.id) + t2);
    assert(user_bytes(v) =~= t1);
    lemma_tag(1, id_bytes(v.id) + t2);
    lemma_id_bytes(v.id, t2);
    lemma_tag(2, text_bytes(v.name) + t3);
    lemma_text_bytes(v.name, t3);
    lemma_tag(3, text_bytes(v.email) + t4);
    lemma_text_bytes(v.email, t4);
    lemma_tag(4, bool_bytes(v.admin) + t5);
    lemma_bool_bytes(v.admin, t5);
    lemma_tag(5, time_bytes(v.created_at) + t6);
    lemma_time_bytes(v.created_at, t6);
    lemma_tag(6, time_bytes(v.updated_at) + e);
    lemma_time_bytes(v.updated_at, e);
}

fn read_bool(b: &[u8], pos: usize) -> (r: Option<(bool, usize)>)
    requires
        pos <= b@.len(),
    ensures
        match take_bool(rest_at(b@, pos as int)) {
            None => r is None,
            Some((x, rest)) => r matches Some((y, q)) && y == x && q <= b@.len() && rest
                == rest_at(b@, q as int),
        },
{
    if pos < b.len() && (b[pos] == 0 || b[pos] == 1) {
        assert(rest_at(b@, pos as int).skip(1) =~= rest_at(b@, pos + 1));
        Some((b[pos] == 1, pos + 1))
    } else {
        None
    }
}

impl PartialUser {
    /// The canonical encoding of this partial user.
    pub fn encode(&self) -> (r: Vec<u8>)
        ensures
            r@ == partial_user_bytes(self@),
    {
        let mut out: Vec<u8> = Vec::new();
        out.push(1u8);
        push_text(&mut out, &self.name);
        out.push(2u8);
        push_text(&mut out, &self.email);
        out.push(3u8);
        out.push(if self.admin { 1u8 } else { 0u8 });
        assert(out@ =~= partial_user_bytes(self@));
        out
    }

    /// Reads a partial user back from its encoding; fails on bytes that are
    /// not one.
    pub fn decode(bytes: &[u8]) -> (r: Result<PartialUser, DecodeError>)
        ensures
            match parse_partial_user(bytes@) {
                None => r is Err,
                Some(v) => r matches Ok(u) && u@ == v,
            },
    {
        reveal(parse_partial_user);
        assert(rest_at(bytes@, 0) =~= bytes@);
        let p = match read_tag(bytes, 0, 1) { Some(q) => q, None => return Err(DecodeError) };
        let (name, p) = match read_text(bytes, p) { Some(v) => v, None => return Err(DecodeError) };
        let p = match read_tag(bytes, p, 2) { Some(q) => q, None => return Err(DecodeError) };
        let (email, p) = match read_text(bytes, p) { Some(v) => v, None => return Err(DecodeError) };
        let p = match read_tag(bytes, p, 3) { Some(q) => q, None => return Err(DecodeError) };
        let (admin, p) = match read_bool(bytes, p) { Some(v) => v, None => return Err(DecodeError) };
        if p != bytes.len() {
            return Err(DecodeError);
        }
        Ok(PartialUser { name, email, admin })
    }
}

impl User {
    /// The canonical encoding of this user.
    pub fn encode(&self) -> (r: Vec<u8>)
        ensures
            r@ == user_bytes(self@),
    {
        let mut out: Vec<u8> = Vec::new();
        out.push(1u8);
        push_u64(&mut out, (self.id >> 64u128) as u64);
        push_u64(&mut out, self.id as u64);
        out.push(2u8);
        push_text(&mut out, &self.name);
        out.push(3u8);
        push_text(&mut out, &self.email);
        out.push(4u8);
        out.push(if self.admin { 1u8 } else { 0u8 });
        out.push(5u8);
        push_time(&mut out, self.created_at);
        out.push(6u8);
        push_time(&mut out, self.updated_at);
        assert(out@ =~= user_bytes(self@));
        out
    }

    /// Reads a user back from its encoding; fails on bytes that are not one.
    #[verifier::rlimit(40)]
    pub fn decode(bytes: &[u8]) -> (r: Result<User, DecodeError>)
        ensures
            match parse_user(bytes@) {
                None => r is Err,
                Some(v) => r matches Ok(u) && u@ == v,
            },
    {
        reveal(parse_user);
        assert(rest_at(bytes@, 0) =~= bytes@);
        let p = match read_tag(bytes, 0, 1) { Some(q) => q, None => return Err(DecodeError) };
        let (id, p) = match read_id(bytes, p) { Some(v) => v, None => return Err(DecodeError) };
        let p = match read_tag(bytes, p, 2) { Some(q) => q, None => return Err(DecodeError) };
        let (name, p) = match read_text(bytes, p) { Some(v) => v, None => return Err(DecodeError) };
        let p = match read_tag(bytes, p, 3) { Some(q) => q, None => return Err(DecodeError) };
        let (email, p) = match read_text(bytes, p) { Some(v) => v, None => return Err(DecodeError) };
        let p = match read_tag(bytes, p, 4) { Some(q) => q, None => return Err(DecodeError) };
        let (admin, p) = match read_bool(bytes, p) { Some(v) => v, None => return Err(DecodeError) };
        let p = match read_tag(bytes, p, 5) { Some(q) => q, None => return Err(DecodeError) };
        let (created_at, p) = match read_time(bytes, p) { Some(v) => v, None => return Err(DecodeError) };
        let p = match read_tag(bytes, p, 6) { Some(q) => q, None => return Err(DecodeError) };
        let (updated_at, p) = match read_time(bytes, p) { Some(v) => v, None => return Err(DecodeError) };
        if p != bytes.len() {
            return Err(DecodeError);
        }
        Ok(User { id, name, email, admin, created_at, updated_at })
    }
}

} // verus!

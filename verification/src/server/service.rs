//! Uploads, downloads and deletions, each behind a valid token.
use vstd::prelude::*;
use crate::err::Error;
use crate::server::crypto::{parse_token_at, validated, User};
use crate::server::{DataSlice, FileRequest};
use crate::store::{read_slice, slot_of, store_after_put, write_refused, ChunkStore};
use crate::text::{chars_of, find_value, pair_value, pairs_of, rows_of, split_chars, split_on, string_of};

verus! {

/// The attribute that a piece of a cookie header holds: its name and its
/// value where the piece has exactly one `=`, which parts them. Nothing is
/// trimmed.
pub open spec fn attribute_of(piece: Seq<char>) -> Option<(Seq<char>, Seq<char>)> {
    let parts = split_on(piece, '=');
    if parts.len() == 2 {
        Some((parts[0], parts[1]))
    } else {
        None
    }
}

/// The attributes of the pieces that hold one, in order.
pub open spec fn attributes_of(pieces: Seq<Seq<char>>) -> Seq<(Seq<char>, Seq<char>)>
    decreases pieces.len(),
{
    if pieces.len() == 0 {
        Seq::<(Seq<char>, Seq<char>)>::empty()
    } else {
        match attribute_of(pieces.last()) {
            Some(pair) => attributes_of(pieces.drop_last()).push(pair),
            None => attributes_of(pieces.drop_last()),
        }
    }
}

/// The attributes of a cookie header: its pieces between semicolons, without
/// those that are no attribute.
pub open spec fn cookie_pairs(header: Seq<char>) -> Seq<(Seq<char>, Seq<char>)> {
    attributes_of(split_on(header, ';'))
}

/// Reads the attributes of a cookie header. A request without the header
/// carries no token, and is `Error::NotLogin`.
pub fn get_cookie(header: Option<&str>) -> (res: Result<Vec<(String, String)>, Error>)
    ensures
        match header {
            Some(text) => res matches Ok(cookie) && pairs_of(cookie@) == cookie_pairs(text@),
            None => res matches Err(e) && e is NotLogin,
        },
{
    let text = match header {
        Some(text) => text,
        None => {
            return Err(Error::NotLogin(String::from_str("no cookie")));
        },
    };
    let chars = chars_of(text);
    let pieces = split_chars(&chars, ';');
    let mut cookie: Vec<(String, String)> = Vec::new();
    let mut i: usize = 0;
    assert(rows_of(pieces@).take(0) =~= Seq::<Seq<char>>::empty());
    while i < pieces.len()
        invariant
            i <= pieces@.len(),
            pairs_of(cookie@) == attributes_of(rows_of(pieces@).take(i as int)),
        decreases pieces@.len() - i,
    {
        let ghost before = pairs_of(cookie@);
        let parts = split_chars(&pieces[i], '=');
        proof {
            let head = rows_of(pieces@).take(i + 1);
            assert(head.drop_last() =~= rows_of(pieces@).take(i as int));
            assert(head.last() == pieces@[i as int]@);
        }
        if parts.len() == 2 {
            let name = string_of(&parts[0]);
            let value = string_of(&parts[1]);
            cookie.push((name, value));
            assert(pairs_of(cookie@) =~= before.push((parts@[0]@, parts@[1]@)));
        }
        i = i + 1;
    }
    assert(rows_of(pieces@).take(i as int) =~= rows_of(pieces@));
    Ok(cookie)
}

/// The subject that a request is made for at the time `now`: the cookie
/// holds a token, the configuration holds a shared secret, and the token is
/// valid under the first such secret.
pub open spec fn subject_in(keys: Seq<String>, cookie: Seq<(Seq<char>, Seq<char>)>, now: u64) -> Option<
    Seq<char>,
> {
    match pair_value(cookie, "token"@) {
        Some(token) => if keys.len() == 0 {
            None
        } else {
            validated(keys[0]@, token, now)
        },
        None => None,
    }
}

/// Validates the token of a cookie under the configured shared secret. A
/// cookie without a token, and a token that is not valid, are
/// `Error::NotLogin`; a token for which the configuration holds no secret
/// is `Error::Other`.
pub fn parse_auth(keys: &Vec<String>, cookie: &Vec<(String, String)>, now: u64) -> (res: Result<User, Error>)
    ensures
        match subject_in(keys@, pairs_of(cookie@), now) {
            Some(email) => res matches Ok(user) && user.email@ == email,
            None => res is Err,
        },
        pair_value(pairs_of(cookie@), "token"@) is None ==> (res matches Err(e) && e is NotLogin),
        res matches Err(e) ==> (e is Other <==> pair_value(pairs_of(cookie@), "token"@) is Some && keys@.len()
            == 0),
        res matches Err(e) ==> e is Other || e is NotLogin,
{
    let token = match find_value(cookie, "token") {
        Some(token) => token,
        None => {
            return Err(Error::NotLogin(String::from_str("no token")));
        },
    };
    if keys.len() == 0 {
        return Err(Error::Other(String::from_str("no key")));
    }
    parse_token_at(keys[0].as_str(), token.as_str(), now)
}

/// The subject that a request with this cookie header is made for, if it is
/// made for one.
pub open spec fn authorized(keys: Seq<String>, header: Option<&str>, now: u64) -> Option<Seq<char>> {
    match header {
        Some(text) => subject_in(keys, cookie_pairs(text@), now),
        None => None,
    }
}

/// Finds the subject of a request. Whatever stands in the way of one is
/// `Error::NotLogin`.
pub fn authenticate(keys: &Vec<String>, header: Option<&str>, now: u64) -> (res: Result<User, Error>)
    ensures
        match authorized(keys@, header, now) {
            Some(email) => res matches Ok(user) && user.email@ == email,
            None => res matches Err(e) && e is NotLogin,
        },
{
    let cookie = match get_cookie(header) {
        Ok(cookie) => cookie,
        Err(e) => {
            return Err(e.into_not_login());
        },
    };
    match parse_auth(keys, &cookie, now) {
        Ok(user) => Ok(user),
        Err(e) => Err(e.into_not_login()),
    }
}

/// An upload: writes the slice into the store if the request carries a valid
/// token, and touches nothing if it does not.
pub fn set_data(store: &mut ChunkStore, keys: &Vec<String>, header: Option<&str>, now: u64, ds: DataSlice) -> (res:
    Result<(), Error>)
    ensures
        authorized(keys@, header, now) is None ==> (res matches Err(e) && e is NotLogin) && final(store)@
            == old(store)@,
        authorized(keys@, header, now) is Some ==> final(store)@ == store_after_put(
            old(store)@,
            ds.key@,
            ds.offset as int,
            ds.length as int,
            ds.slice_value@,
        ),
        authorized(keys@, header, now) is Some ==> (res is Ok <==> !write_refused(
            slot_of(old(store)@, ds.key@),
            ds.offset as int,
            ds.length as int,
            ds.slice_value@,
        )),
        authorized(keys@, header, now) is Some ==> (res matches Err(e) ==> e is Bounds),
{
    match authenticate(keys, header, now) {
        Ok(_) => store.put(ds.key.as_str(), ds.offset, ds.length, ds.slice_value.as_slice()),
        Err(e) => Err(e),
    }
}

/// A download: reads from the final artifact if the request carries a valid
/// token. The slice that comes back holds the bytes read, the offset they
/// were read at and the artifact's length.
pub fn get_data(store: &ChunkStore, keys: &Vec<String>, header: Option<&str>, now: u64, fr: FileRequest) -> (res:
    Result<DataSlice, Error>)
    ensures
        authorized(keys@, header, now) is None ==> (res matches Err(e) && e is NotLogin),
        authorized(keys@, header, now) is Some ==> match slot_of(store@, fr.key@).done {
            Some(data) => res matches Ok(ds) && ds.key@ == fr.key@ && ds.offset == fr.start()
                && ds.slice_value@ == read_slice(data, fr.start() as int, fr.wanted() as int) && ds.length
                == data.len(),
            None => res matches Err(e) && e is NotFound,
        },
{
    match authenticate(keys, header, now) {
        Ok(_) => {},
        Err(e) => {
            return Err(e);
        },
    }
    let (start, size) = fr.range();
    match store.get(fr.key.as_str(), start, size) {
        Ok((slice_value, length)) => Ok(DataSlice { key: fr.key, offset: start, slice_value, length }),
        Err(e) => Err(e),
    }
}

/// A deletion: removes the key's partial and final artifact if the request
/// carries a valid token.
pub fn delete_data(store: &mut ChunkStore, keys: &Vec<String>, header: Option<&str>, now: u64, fr: FileRequest) -> (res:
    Result<(), Error>)
    ensures
        authorized(keys@, header, now) is None ==> (res matches Err(e) && e is NotLogin) && final(store)@
            == old(store)@,
        authorized(keys@, header, now) is Some ==> res is Ok && final(store)@ == old(store)@.remove(fr.key@),
{
    match authenticate(keys, header, now) {
        Ok(_) => store.delete(fr.key.as_str()),
        Err(e) => Err(e),
    }
}

} // verus!

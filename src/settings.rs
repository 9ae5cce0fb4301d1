//! The user's own lists: the mints they trust and the relays they use.
use vstd::prelude::*;
use crate::framing::views;
use crate::protocol::{is_prefix, starts_with};
use crate::wallet::contains_bytes;

verus! {

/// Why a relay list change was refused.
#[derive(PartialEq, Eq, Structural, Clone, Copy, Debug)]
pub enum RelayListError {
    /// The URL starts with neither `ws://` nor `wss://`.
    BadScheme,
    /// The relay is already listed.
    AlreadyListed,
    /// The relay is not listed.
    NotListed,
    /// Removing it would leave no relay.
    LastRelay,
}

/// `ws://`
pub const WS_PREFIX: [u8; 5] = [119, 115, 58, 47, 47];

/// `wss://`
pub const WSS_PREFIX: [u8; 6] = [119, 115, 115, 58, 47, 47];

/// The URL names a websocket relay.
pub open spec fn relay_scheme_ok(url: Seq<u8>) -> bool {
    is_prefix(seq![119u8, 115, 58, 47, 47], url) || is_prefix(seq![119u8, 115, 115, 58, 47, 47], url)
}

/// The list without `url`.
pub open spec fn without(list: Seq<Seq<u8>>, url: Seq<u8>) -> Seq<Seq<u8>> {
    list.filter(|m: Seq<u8>| m != url)
}

/// Whether the URL names a websocket relay.
pub fn relay_scheme_valid(url: &[u8]) -> (r: bool)
    ensures
        r == relay_scheme_ok(url@),
{
    let ws = WS_PREFIX;
    let wss = WSS_PREFIX;
    assert(ws@ =~= seq![119u8, 115, 58, 47, 47]);
    assert(wss@ =~= seq![119u8, 115, 115, 58, 47, 47]);
    starts_with(url, ws.as_slice()) || starts_with(url, wss.as_slice())
}

/// Removes every copy of `url` from the list.
fn remove_all(list: &Vec<Vec<u8>>, url: &[u8]) -> (r: Vec<Vec<u8>>)
    ensures
        views(r@) == without(views(list@), url@),
{
    let ghost pred = |m: Seq<u8>| m != url@;
    let mut r: Vec<Vec<u8>> = Vec::new();
    let mut i: usize = 0;
    while i < list.len()
        invariant
            0 <= i <= list@.len(),
            pred == (|m: Seq<u8>| m != url@),
            views(r@) == views(list@).subrange(0, i as int).filter(pred),
        decreases list@.len() - i,
    {
        let ghost pre = views(list@).subrange(0, i as int);
        let ghost x = list@[i as int]@;
        proof {
            assert(views(list@).subrange(0, i + 1) =~= pre.push(x));
            pre.lemma_filter_push(x, pred);
        }
        if !crate::table::bytes_eq(list[i].as_slice(), url) {
            let ghost before = r@;
            r.push(list[i].clone());
            assert(views(r@) =~= views(before).push(x));
        }
        i = i + 1;
    }
    assert(views(list@).subrange(0, list@.len() as int) =~= views(list@));
    r
}

/// Adds a mint to the trusted list; `false`, with the list unchanged, when it
/// is there already.
pub fn add_trusted_mint(mints: &mut Vec<Vec<u8>>, mint_url: Vec<u8>) -> (added: bool)
    ensures
        added == !views(old(mints)@).contains(mint_url@),
        views(final(mints)@) == if added {
            views(old(mints)@).push(mint_url@)
        } else {
            views(old(mints)@)
        },
{
    if contains_bytes(mints, mint_url.as_slice()) {
        false
    } else {
        let ghost before = mints@;
        let ghost u = mint_url@;
        mints.push(mint_url);
        assert(views(mints@) =~= views(before).push(u));
        true
    }
}

/// Removes a mint from the trusted list; `true` when it was there.
pub fn remove_trusted_mint(mints: &mut Vec<Vec<u8>>, mint_url: &Vec<u8>) -> (removed: bool)
    ensures
        removed == views(old(mints)@).contains(mint_url@),
        views(final(mints)@) == without(views(old(mints)@), mint_url@),
{
    let present = contains_bytes(mints, mint_url.as_slice());
    let kept = remove_all(mints, mint_url.as_slice());
    *mints = kept;
    present
}

pub fn is_mint_trusted(mints: &Vec<Vec<u8>>, mint_url: &Vec<u8>) -> (r: bool)
    ensures
        r == views(mints@).contains(mint_url@),
{
    contains_bytes(mints, mint_url.as_slice())
}

/// Adds a websocket relay that is not listed yet; on an error the list is
/// unchanged.
pub fn add_relay(relays: &mut Vec<Vec<u8>>, url: Vec<u8>) -> (r: Result<(), RelayListError>)
    ensures
        !relay_scheme_ok(url@) ==> r == Err::<(), RelayListError>(RelayListError::BadScheme),
        relay_scheme_ok(url@) && views(old(relays)@).contains(url@) ==> r == Err::<(), RelayListError>(RelayListError::AlreadyListed),
        relay_scheme_ok(url@) && !views(old(relays)@).contains(url@) ==> r is Ok,
        r is Ok ==> views(final(relays)@) == views(old(relays)@).push(url@),
        r is Err ==> final(relays)@ == old(relays)@,
{
    if !relay_scheme_valid(url.as_slice()) {
        return Err(RelayListError::BadScheme);
    }
    if contains_bytes(relays, url.as_slice()) {
        return Err(RelayListError::AlreadyListed);
    }
    let ghost before = relays@;
    let ghost u = url@;
    relays.push(url);
    assert(views(relays@) =~= views(before).push(u));
    Ok(())
}

/// Removes a listed relay, unless it is the last one; on an error the list
/// is unchanged.
pub fn remove_relay(relays: &mut Vec<Vec<u8>>, url: &Vec<u8>) -> (r: Result<(), RelayListError>)
    ensures
        !views(old(relays)@).contains(url@) ==> r == Err::<(), RelayListError>(RelayListError::NotListed),
        views(old(relays)@).contains(url@) && without(views(old(relays)@), url@).len() == 0
            ==> r == Err::<(), RelayListError>(RelayListError::LastRelay),
        views(old(relays)@).contains(url@) && without(views(old(relays)@), url@).len() > 0 ==> r is Ok,
        r is Ok ==> views(final(relays)@) == without(views(old(relays)@), url@),
        r is Err ==> final(relays)@ == old(relays)@,
{
    if !contains_bytes(relays, url.as_slice()) {
        return Err(RelayListError::NotListed);
    }
    let kept = remove_all(relays, url.as_slice());
    if kept.len() == 0 {
        return Err(RelayListError::LastRelay);
    }
    *relays = kept;
    Ok(())
}

} // verus!

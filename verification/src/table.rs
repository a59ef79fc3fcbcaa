use mio::util::Slab;
use mio::Token;
use vstd::prelude::*;

use crate::client::{BusinessClient, ClientModel, Timestamp};

verus! {

/// The token of the first connection.
pub const FIRST_CLIENT: usize = 2;

/// The number of connections that the table has room for.
pub const CAPACITY: usize = 128;

/// The connection table: `mio::util::Slab` of the connections' states,
/// made for `CAPACITY` connections with tokens from `FIRST_CLIENT` on.
#[verifier::external_body]
pub struct ClientTable {
    slab: Slab<BusinessClient>,
}

/// The connections that a table holds, each under its token.
pub uninterp spec fn table_clients(table: ClientTable) -> Map<usize, BusinessClient>;

/// `Slab::new_starting_at`, with the offset `Token(2)` and room for 128: a
/// slab whose slots are all empty.
#[verifier::external_body]
pub(crate) fn table_new() -> (table: ClientTable)
    ensures
        table_clients(table).dom() == Set::<usize>::empty(),
{
    ClientTable { slab: Slab::new_starting_at(Token(FIRST_CLIENT), CAPACITY) }
}

/// `Slab::insert_with`: takes the slot at the head of the free list, fills
/// it with the state of a new connection that was made with the slot's
/// token, and gives the token. Which free slot it takes is open. It gives
/// nothing, and changes nothing, exactly when no slot is free.
#[verifier::external_body]
pub(crate) fn table_insert(table: &mut ClientTable, now: Timestamp) -> (outcome: Option<usize>)
    requires
        table_clients(*old(table)).dom().finite(),
    ensures
        outcome is None <==> table_clients(*old(table)).dom().len() >= CAPACITY,
        outcome is None ==> table_clients(*final(table)) == table_clients(*old(table)),
        outcome matches Some(token) ==> {
            &&& FIRST_CLIENT <= token < FIRST_CLIENT + CAPACITY
            &&& !table_clients(*old(table)).contains_key(token)
            &&& table_clients(*final(table)).contains_key(token)
            &&& table_clients(*final(table))[token]@ == ClientModel::fresh(token, now)
            &&& table_clients(*final(table)).remove(token) == table_clients(*old(table))
        },
{
    table.slab.insert_with(|token| BusinessClient::new(token.as_usize(), now)).map(|token| token.as_usize())
}

/// `Slab::remove` on a filled slot: empties the slot and gives what it
/// held. An empty slot is left out: emptying it again would break the
/// slab's free list.
#[verifier::external_body]
pub(crate) fn table_remove(table: &mut ClientTable, token: usize) -> (removed: Option<BusinessClient>)
    requires
        table_clients(*old(table)).contains_key(token),
    ensures
        removed == Some(table_clients(*old(table))[token]),
        table_clients(*final(table)) == table_clients(*old(table)).remove(token),
{
    table.slab.remove(Token(token))
}

/// `Slab::contains`: whether the slot of the token is filled. Tokens
/// behind the last slot are left out: the slab compares them with what its
/// vector has allocated, not with the number of its slots.
#[verifier::external_body]
pub(crate) fn table_contains(table: &ClientTable, token: usize) -> (filled: bool)
    requires
        token < FIRST_CLIENT + CAPACITY,
    ensures
        filled == table_clients(*table).contains_key(token),
{
    table.slab.contains(Token(token))
}

/// The slab's `Index`: the state in a filled slot.
#[verifier::external_body]
pub(crate) fn table_get(table: &ClientTable, token: usize) -> (client: &BusinessClient)
    requires
        table_clients(*table).contains_key(token),
    ensures
        *client == table_clients(*table)[token],
{
    &table.slab[Token(token)]
}

/// The slab's `IndexMut`: the state in a filled slot, to be changed in
/// place. No other slot changes.
#[verifier::external_body]
pub(crate) fn table_get_mut(table: &mut ClientTable, token: usize) -> (client: &mut BusinessClient)
    requires
        table_clients(*old(table)).contains_key(token),
    ensures
        *client == table_clients(*old(table))[token],
        table_clients(*final(table)) == table_clients(*old(table)).insert(token, *final(client)),
{
    &mut table.slab[Token(token)]
}

/// `Slab::iter`: walks the filled slots, each once, and here hands out
/// the token that each state holds. Where every state holds the token of
/// its slot, these are the tokens of the table, none of them twice.
#[verifier::external_body]
pub(crate) fn table_tokens(table: &ClientTable) -> (tokens: Vec<usize>)
    requires
        forall|token: usize| #[trigger]
            table_clients(*table).contains_key(token) ==> table_clients(*table)[token].token == token,
    ensures
        tokens@.no_duplicates(),
        forall|token: usize| tokens@.contains(token) <==> table_clients(*table).contains_key(token),
{
    table.slab.iter().map(|client| client.token).collect()
}

} // verus!

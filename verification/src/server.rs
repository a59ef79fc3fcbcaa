use vstd::prelude::*;

use crate::client::{current_time, BusinessClient, ClientModel, Interest, Timestamp, WriteError};
use crate::table::{
    table_clients, table_contains, table_get, table_get_mut, table_insert, table_new, table_remove,
    ClientTable, CAPACITY, FIRST_CLIENT,
};

verus! {

/// The token of the listening socket. No connection has it.
pub const LISTENER: usize = 1;

/// The router's state: the listener's token and the connection table.
pub struct Server {
    pub token: usize,
    pub clients: ClientTable,
}

impl View for Server {
    type V = Map<usize, ClientModel>;

    /// The connections, each under its token.
    open spec fn view(&self) -> Map<usize, ClientModel> {
        Map::new(
            |token: usize| table_clients(self.clients).contains_key(token),
            |token: usize| table_clients(self.clients)[token]@,
        )
    }
}

/// The kinds of readiness that the reactor reports in one event.
#[derive(Debug, Clone, Copy, PartialEq, Eq, Structural)]
pub struct Readiness {
    pub readable: bool,
    pub writable: bool,
    pub hup: bool,
    pub error: bool,
}

/// What one event asks for, in the order in which it is to be done.
#[derive(Debug, Clone, Copy, PartialEq, Eq, Structural)]
pub struct Plan {
    /// Tear down what stands under the token, and do nothing else.
    pub reset: bool,
    /// Write on the connection.
    pub write: bool,
    /// Accept one connection on the listener.
    pub accept: bool,
    /// Read on the connection.
    pub read: bool,
}

/// What an event on `token` asks for: an error or a hang-up tears the
/// token's connection down and ends the event; else a writable connection
/// writes, and then a readable listener accepts and a readable connection
/// reads.
pub open spec fn plan_for(listener: usize, token: usize, events: Readiness) -> Plan {
    if events.error || events.hup {
        Plan { reset: true, write: false, accept: false, read: false }
    } else {
        Plan {
            reset: false,
            write: events.writable,
            accept: events.readable && token == listener,
            read: events.readable && token != listener,
        }
    }
}

/// The connections without those under `tokens`.
pub open spec fn without(clients: Map<usize, ClientModel>, tokens: Seq<usize>) -> Map<usize, ClientModel> {
    Map::new(
        |token: usize| clients.contains_key(token) && !tokens.contains(token),
        |token: usize| clients[token],
    )
}

/// A connection right after it was accepted and registered.
pub open spec fn accepted_client(token: usize, now: Timestamp) -> ClientModel {
    ClientModel {
        interest: Interest { readable: true, writable: false, hup: true },
        ..ClientModel::fresh(token, now)
    }
}

impl Server {
    /// The invariant of the router's state: the listener's token is
    /// `LISTENER`, the table is finite, and every connection stands under a
    /// token of the table's range, which it holds itself.
    pub open spec fn wf(&self) -> bool {
        &&& self.token == LISTENER
        &&& table_clients(self.clients).dom().finite()
        &&& forall|token: usize| #[trigger]
            table_clients(self.clients).contains_key(token) ==> {
                &&& FIRST_CLIENT <= token < FIRST_CLIENT + CAPACITY
                &&& table_clients(self.clients)[token].token == token
            }
    }

    /// The view has the table's tokens, and is as finite as the table.
    pub proof fn lemma_view_dom(&self)
        ensures
            self@.dom() == table_clients(self.clients).dom(),
    {
        assert(self@.dom() =~= table_clients(self.clients).dom());
    }

    /// A router without connections.
    pub fn new() -> (server: Server)
        ensures
            server.wf(),
            server@ == Map::<usize, ClientModel>::empty(),
    {
        let server = Server { token: LISTENER, clients: table_new() };
        assert(server@ =~= Map::<usize, ClientModel>::empty());
        server
    }

    /// Whether a connection stands under the token.
    pub fn contains(&self, token: usize) -> (yes: bool)
        requires
            self.wf(),
        ensures
            yes == self@.contains_key(token),
    {
        token >= FIRST_CLIENT && token < FIRST_CLIENT + CAPACITY && table_contains(&self.clients, token)
    }

    /// The state of the connection under the token.
    pub fn client(&self, token: usize) -> (client: &BusinessClient)
        requires
            self.wf(),
            self@.contains_key(token),
        ensures
            client@ == self@[token],
            client.token == token,
    {
        table_get(&self.clients, token)
    }

    /// What an event asks for. Token zero stands for nothing, and the
    /// listener is never writable.
    pub fn ready(&self, token: usize, events: Readiness) -> (plan: Plan)
        requires
            token != 0,
            !(events.writable && !events.error && !events.hup && token == self.token),
        ensures
            plan == plan_for(self.token, token, events),
    {
        if events.error || events.hup {
            Plan { reset: true, write: false, accept: false, read: false }
        } else {
            Plan {
                reset: false,
                write: events.writable,
                accept: events.readable && token == self.token,
                read: events.readable && token != self.token,
            }
        }
    }

    /// Takes a new connection into the table, as of the moment `now`, and
    /// gives its token: a token that was free. The connection asks for
    /// readable events. A full table takes no connection.
    pub fn new_client_at(&mut self, now: Timestamp) -> (outcome: Option<usize>)
        requires
            old(self).wf(),
        ensures
            final(self).wf(),
            outcome is None <==> old(self)@.dom().len() >= CAPACITY,
            match outcome {
                None => final(self)@ == old(self)@,
                Some(token) => {
                    &&& token != LISTENER
                    &&& !old(self)@.contains_key(token)
                    &&& final(self)@ == old(self)@.insert(token, accepted_client(token, now))
                },
            },
    {
        proof {
            self.lemma_view_dom();
        }
        match table_insert(&mut self.clients, now) {
            None => {
                assert(self@ =~= old(self)@);
                None
            },
            Some(token) => {
                let ghost inserted = table_clients(self.clients);
                assert(inserted.dom() =~= table_clients(old(self).clients).dom().insert(token));
                let client = table_get_mut(&mut self.clients, token);
                let _ = client.register();
                assert(self@ =~= old(self)@.insert(token, accepted_client(token, now))) by {
                    assert forall|t: usize| t != token && #[trigger] inserted.contains_key(t) implies inserted[t]
                        == table_clients(old(self).clients)[t] by {
                        assert(inserted.remove(token)[t] == inserted[t]);
                    }
                }
                assert(self.wf()) by {
                    assert(table_clients(self.clients).dom() =~= inserted.dom());
                    assert forall|t: usize| #[trigger]
                        table_clients(self.clients).contains_key(t) implies FIRST_CLIENT <= t
                        < FIRST_CLIENT + CAPACITY && table_clients(self.clients)[t].token == t by {
                        if t != token {
                            assert(inserted.remove(token)[t] == inserted[t]);
                            assert(table_clients(old(self).clients).contains_key(t));
                        }
                    }
                }
                Some(token)
            },
        }
    }

    /// Takes a new connection into the table as of now, by the system's
    /// clock. Whatever moment the clock gives, the connection is the one
    /// that `new_client_at` takes at that moment.
    pub fn new_client(&mut self) -> (outcome: Option<usize>)
        requires
            old(self).wf(),
        ensures
            final(self).wf(),
            outcome is None <==> old(self)@.dom().len() >= CAPACITY,
            match outcome {
                None => final(self)@ == old(self)@,
                Some(token) => {
                    &&& token != LISTENER
                    &&& !old(self)@.contains_key(token)
                    &&& final(self)@.contains_key(token)
                    &&& final(self)@ == old(self)@.insert(
                        token,
                        accepted_client(token, final(self)@[token].last_activity),
                    )
                },
            },
    {
        let now = current_time();
        self.new_client_at(now)
    }

    /// Tears down what stands under the token. For the listener's token
    /// that is the whole router: the answer is to shut down, and the table
    /// stays. Any other token leaves the table.
    pub fn reset_connection(&mut self, token: usize) -> (shutdown: bool)
        requires
            old(self).wf(),
        ensures
            final(self).wf(),
            shutdown == (token == old(self).token),
            shutdown ==> final(self)@ == old(self)@,
            !shutdown ==> final(self)@ == old(self)@.remove(token),
            final(self).token == old(self).token,
    {
        if self.token == token {
            true
        } else {
            if self.contains(token) {
                let _ = table_remove(&mut self.clients, token);
            }
            assert(self@ =~= old(self)@.remove(token));
            false
        }
    }

    /// Tears down what stands under each of the tokens, as it is done for
    /// the peers that failed during a fan-out, once the fan-out is over.
    /// The answer is to shut down where the listener's token is among them.
    pub fn reset_connections(&mut self, tokens: &Vec<usize>) -> (shutdown: bool)
        requires
            old(self).wf(),
        ensures
            final(self).wf(),
            final(self).token == old(self).token,
            shutdown == tokens@.contains(old(self).token),
            final(self)@ == without(old(self)@, tokens@),
    {
        let mut shutdown = false;
        let mut i: usize = 0;
        proof {
            assert(tokens@.take(0) =~= Seq::<usize>::empty());
            assert(self@ =~= without(old(self)@, tokens@.take(0)));
        }
        while i < tokens.len()
            invariant
                self.wf(),
                old(self).wf(),
                self.token == old(self).token,
                i <= tokens@.len(),
                shutdown == tokens@.take(i as int).contains(self.token),
                self@ == without(old(self)@, tokens@.take(i as int)),
            decreases tokens@.len() - i,
        {
            let ghost seen = tokens@.take(i as int);
            let ghost more = tokens@.take(i + 1);
            let token = tokens[i];
            proof {
                assert(more.drop_last() =~= seen);
                assert(more.last() == token);
                assert forall|other: usize| more.contains(other) <==> seen.contains(other) || other
                    == token by {
                    if more.contains(other) {
                        let k = choose|k: int| 0 <= k < more.len() && more[k] == other;
                        if k < seen.len() {
                            assert(seen[k] == other);
                        }
                    }
                    if seen.contains(other) {
                        let k = choose|k: int| 0 <= k < seen.len() && seen[k] == other;
                        assert(more[k] == other);
                    }
                    if other == token {
                        assert(more[more.len() - 1] == other);
                    }
                }
                old(self).lemma_view_dom();
            }
            if self.reset_connection(token) {
                shutdown = true;
            }
            assert(self@ =~= without(old(self)@, more));
            i += 1;
        }
        assert(tokens@.take(i as int) =~= tokens@);
        shutdown
    }

    /// Makes ready what a writable connection writes next: the bytes stand
    /// in the connection's `unsent`. A connection that has nothing to
    /// write, or whose oldest object cannot be encoded, is closed.
    pub fn writable(&mut self, token: usize) -> (outcome: Result<(), WriteError>)
        requires
            old(self).wf(),
            old(self)@.contains_key(token),
        ensures
            final(self).wf(),
            final(self).token == old(self).token,
            outcome == old(self)@[token].write_outcome(),
            outcome is Ok ==> final(self)@ == old(self)@.insert(token, old(self)@[token].after_writable()),
            outcome is Err ==> final(self)@ == old(self)@.remove(token),
    {
        let client = table_get_mut(&mut self.clients, token);
        let outcome = client.writable();
        match outcome {
            Ok(()) => {
                assert(self@ =~= old(self)@.insert(token, old(self)@[token].after_writable()));
                assert(table_clients(self.clients).dom() =~= table_clients(old(self).clients).dom());
            },
            Err(_) => {
                let _ = table_remove(&mut self.clients, token);
                assert(self@ =~= old(self)@.remove(token));
            },
        }
        outcome
    }

    /// Records that the socket of a connection took `count` bytes of what
    /// was to be written.
    pub fn written(&mut self, token: usize, count: usize)
        requires
            old(self).wf(),
            old(self)@.contains_key(token),
            count <= old(self)@[token].unsent.len(),
        ensures
            final(self).wf(),
            final(self).token == old(self).token,
            final(self)@ == old(self)@.insert(token, old(self)@[token].written(count as int)),
    {
        let client = table_get_mut(&mut self.clients, token);
        client.written(count);
        assert(self@ =~= old(self)@.insert(token, old(self)@[token].written(count as int)));
        assert(table_clients(self.clients).dom() =~= table_clients(old(self).clients).dom());
    }
}

} // verus!

//! The table of the peers that a socket holds a connection to.

use vstd::prelude::*;
use crate::address::Address;
use crate::config::Config;
use crate::connection::{Connection, ConnectionView};

verus! {

/// The connections of a socket, one for each peer at most.
pub struct ActiveConnections {
    connections: Vec<Connection>,
}

/// What looking a peer up on the receiving side gives.
pub enum ConnectionLookup<'a> {
    /// The connection that the table holds for the peer.
    Existing(&'a mut Connection),
    /// A connection made for this one datagram, which the table does not
    /// hold.
    Anonymous(Connection),
}

pub open spec fn connection_views(s: Seq<Connection>) -> Seq<ConnectionView> {
    s.map_values(|c: Connection| c@)
}

/// Whether no two of the connections have the same peer.
pub open spec fn distinct(s: Seq<ConnectionView>) -> bool {
    forall|i: int, j: int| 0 <= i < j < s.len() ==> (#[trigger] s[i]).addr != (#[trigger] s[j]).addr
}

pub open spec fn holds(s: Seq<ConnectionView>, a: Address) -> bool {
    exists|i: int| 0 <= i < s.len() && (#[trigger] s[i]).addr == a
}

/// The connections by their peers.
pub open spec fn by_address(s: Seq<ConnectionView>) -> Map<Address, ConnectionView> {
    Map::new(
        |a: Address| holds(s, a),
        |a: Address| s[choose|i: int| 0 <= i < s.len() && (#[trigger] s[i]).addr == a],
    )
}

/// Whether a peer that was last heard at `last_heard` is idle at `now`: its
/// last datagram is older than `now - timeout`.
pub open spec fn is_idle(last_heard: u64, timeout: u64, now: u64) -> bool {
    last_heard + timeout < now
}

proof fn lemma_entry(s: Seq<ConnectionView>, i: int)
    requires
        distinct(s),
        0 <= i < s.len(),
    ensures
        by_address(s).contains_key(s[i].addr),
        by_address(s)[s[i].addr] == s[i],
{
    let a = s[i].addr;
    assert(holds(s, a));
    let k = choose|k: int| 0 <= k < s.len() && (#[trigger] s[k]).addr == a;
    assert(k == i);
}

proof fn lemma_absent(s: Seq<ConnectionView>, a: Address)
    requires
        forall|i: int| 0 <= i < s.len() ==> (#[trigger] s[i]).addr != a,
    ensures
        !by_address(s).contains_key(a),
{
}

proof fn lemma_push(s: Seq<ConnectionView>, c: ConnectionView)
    requires
        distinct(s),
        !by_address(s).contains_key(c.addr),
    ensures
        distinct(s.push(c)),
        by_address(s.push(c)) == by_address(s).insert(c.addr, c),
{
    let t = s.push(c);
    assert forall|i: int, j: int| 0 <= i < j < t.len() implies (#[trigger] t[i]).addr != (
    #[trigger] t[j]).addr by {
        if j == s.len() {
            assert(s[i].addr != c.addr) by {
                if s[i].addr == c.addr {
                    assert(holds(s, c.addr));
                }
            }
        } else {
            assert(t[i] == s[i] && t[j] == s[j]);
        }
    }
    assert forall|a: Address| by_address(t).contains_key(a) <==> by_address(s).insert(
        c.addr,
        c,
    ).contains_key(a) by {
        if holds(t, a) {
            let k = choose|k: int| 0 <= k < t.len() && (#[trigger] t[k]).addr == a;
            if k < s.len() {
                assert(s[k].addr == a);
            }
        }
        if holds(s, a) {
            let k = choose|k: int| 0 <= k < s.len() && (#[trigger] s[k]).addr == a;
            assert(t[k].addr == a);
        }
        if a == c.addr {
            assert(t[s.len() as int].addr == a);
        }
    }
    assert forall|a: Address| by_address(t).contains_key(a) implies by_address(t)[a]
        == by_address(s).insert(c.addr, c)[a] by {
        let k = choose|k: int| 0 <= k < t.len() && (#[trigger] t[k]).addr == a;
        lemma_entry(t, k);
        if k < s.len() {
            assert(t[k] == s[k]);
            lemma_entry(s, k);
        }
    }
    assert(by_address(t) =~= by_address(s).insert(c.addr, c));
}

proof fn lemma_update(s: Seq<ConnectionView>, i: int, c: ConnectionView)
    requires
        distinct(s),
        0 <= i < s.len(),
        c.addr == s[i].addr,
    ensures
        distinct(s.update(i, c)),
        by_address(s.update(i, c)) == by_address(s).insert(c.addr, c),
{
    let t = s.update(i, c);
    assert forall|x: int, y: int| 0 <= x < y < t.len() implies (#[trigger] t[x]).addr != (
    #[trigger] t[y]).addr by {
        assert(t[x].addr == s[x].addr && t[y].addr == s[y].addr);
    }
    assert forall|a: Address| by_address(t).contains_key(a) <==> by_address(s).insert(
        c.addr,
        c,
    ).contains_key(a) by {
        if holds(t, a) {
            let k = choose|k: int| 0 <= k < t.len() && (#[trigger] t[k]).addr == a;
            assert(s[k].addr == a);
        }
        if holds(s, a) {
            let k = choose|k: int| 0 <= k < s.len() && (#[trigger] s[k]).addr == a;
            assert(t[k].addr == a);
        }
        if a == c.addr {
            assert(t[i].addr == a);
        }
    }
    assert forall|a: Address| by_address(t).contains_key(a) implies by_address(t)[a]
        == by_address(s).insert(c.addr, c)[a] by {
        let k = choose|k: int| 0 <= k < t.len() && (#[trigger] t[k]).addr == a;
        lemma_entry(t, k);
        if k != i {
            assert(t[k] == s[k]);
            lemma_entry(s, k);
        }
    }
    assert(by_address(t) =~= by_address(s).insert(c.addr, c));
}

proof fn lemma_remove(s: Seq<ConnectionView>, i: int)
    requires
        distinct(s),
        0 <= i < s.len(),
    ensures
        distinct(s.remove(i)),
        by_address(s.remove(i)) == by_address(s).remove(s[i].addr),
{
    let t = s.remove(i);
    assert forall|x: int, y: int| 0 <= x < y < t.len() implies (#[trigger] t[x]).addr != (
    #[trigger] t[y]).addr by {
        let sx = if x < i { x } else { x + 1 };
        let sy = if y < i { y } else { y + 1 };
        assert(t[x] == s[sx] && t[y] == s[sy]);
    }
    assert forall|a: Address| by_address(t).contains_key(a) <==> by_address(s).remove(
        s[i].addr,
    ).contains_key(a) by {
        if holds(t, a) {
            let k = choose|k: int| 0 <= k < t.len() && (#[trigger] t[k]).addr == a;
            let sk = if k < i { k } else { k + 1 };
            assert(t[k] == s[sk]);
            assert(s[sk].addr == a);
            assert(a != s[i].addr);
        }
        if holds(s, a) && a != s[i].addr {
            let k = choose|k: int| 0 <= k < s.len() && (#[trigger] s[k]).addr == a;
            let tk = if k < i { k } else { k - 1 };
            assert(t[tk] == s[k]);
            assert(t[tk].addr == a);
        }
    }
    assert forall|a: Address| by_address(t).contains_key(a) implies by_address(t)[a]
        == by_address(s).remove(s[i].addr)[a] by {
        let k = choose|k: int| 0 <= k < t.len() && (#[trigger] t[k]).addr == a;
        lemma_entry(t, k);
        let sk = if k < i { k } else { k + 1 };
        assert(t[k] == s[sk]);
        lemma_entry(s, sk);
    }
    assert(by_address(t) =~= by_address(s).remove(s[i].addr));
}

proof fn lemma_count(s: Seq<ConnectionView>)
    requires
        distinct(s),
    ensures
        by_address(s).dom().finite(),
        by_address(s).dom().len() == s.len(),
    decreases s.len(),
{
    if s.len() == 0 {
        assert(by_address(s).dom() =~= Set::<Address>::empty());
    } else {
        let front = s.drop_last();
        assert forall|i: int, j: int| 0 <= i < j < front.len() implies (#[trigger] front[i]).addr
            != (#[trigger] front[j]).addr by {
            assert(front[i] == s[i] && front[j] == s[j]);
        }
        lemma_count(front);
        assert(!by_address(front).contains_key(s.last().addr)) by {
            if holds(front, s.last().addr) {
                let k = choose|k: int|
                    0 <= k < front.len() && (#[trigger] front[k]).addr == s.last().addr;
                assert(front[k] == s[k]);
                assert(s[k].addr != s[s.len() - 1].addr);
            }
        }
        lemma_push(front, s.last());
        assert(front.push(s.last()) =~= s);
        assert(by_address(s).dom() =~= by_address(front).dom().insert(s.last().addr));
    }
}

impl View for ActiveConnections {
    type V = Map<Address, ConnectionView>;

    closed spec fn view(&self) -> Map<Address, ConnectionView> {
        by_address(connection_views(self.connections@))
    }
}

impl ActiveConnections {
    /// Whether the table holds one connection for each peer at most, each
    /// under the address of its peer and in a state that its operations keep
    /// it in.
    pub closed spec fn wf(&self) -> bool {
        &&& distinct(connection_views(self.connections@))
        &&& forall|i: int|
            0 <= i < self.connections@.len() ==> (#[trigger] self.connections@[i]).wf()
    }

    pub fn new() -> (r: ActiveConnections)
        ensures
            r.wf(),
            r@ == Map::<Address, ConnectionView>::empty(),
    {
        let r = ActiveConnections { connections: Vec::new() };
        assert(r@ =~= Map::<Address, ConnectionView>::empty());
        r
    }

    /// The connections that the table holds, in the order it holds them.
    pub closed spec fn entries(&self) -> Seq<ConnectionView> {
        connection_views(self.connections@)
    }

    /// The table holds one connection for each peer at most: no two of its
    /// connections have the same peer, so it holds as many connections as
    /// peers, and the connection of a peer is the one that the table gives
    /// for it.
    pub proof fn lemma_one_entry_per_peer(&self)
        requires
            self.wf(),
        ensures
            distinct(self.entries()),
            self@ == by_address(self.entries()),
            self@.dom().finite(),
            self@.dom().len() == self.entries().len(),
            forall|i: int|
                0 <= i < self.entries().len() ==> self@.contains_key(
                    (#[trigger] self.entries()[i]).addr,
                ) && self@[self.entries()[i].addr] == self.entries()[i],
    {
        let s = connection_views(self.connections@);
        lemma_count(s);
        assert forall|i: int| 0 <= i < s.len() implies self@.contains_key((#[trigger] s[i]).addr)
            && self@[s[i].addr] == s[i] by {
            lemma_entry(s, i);
        }
    }

    /// The entries of a table agree with their keys, and each is in a state
    /// that its operations keep it in.
    pub proof fn lemma_entries(&self)
        requires
            self.wf(),
        ensures
            self@.dom().finite(),
            forall|a: Address| #[trigger] self@.contains_key(a) ==> self@[a].addr == a && self@[a].wf(),
    {
        let s = connection_views(self.connections@);
        lemma_count(s);
        assert forall|a: Address| #[trigger] self@.contains_key(a) implies self@[a].addr == a
            && self@[a].wf() by {
            let k = choose|k: int| 0 <= k < s.len() && (#[trigger] s[k]).addr == a;
            lemma_entry(s, k);
            assert(self.connections@[k].wf());
        }
    }

    fn position(&self, address: Address) -> (r: Option<usize>)
        requires
            self.wf(),
        ensures
            match r {
                Some(i) => i < self.connections@.len() && self.connections@[i as int]@.addr
                    == address && self@.contains_key(address) && self@[address]
                    == self.connections@[i as int]@,
                None => !self@.contains_key(address),
            },
    {
        let mut i: usize = 0;
        while i < self.connections.len()
            invariant
                self.wf(),
                i <= self.connections@.len(),
                forall|k: int| 0 <= k < i ==> (#[trigger] self.connections@[k])@.addr != address,
            decreases self.connections@.len() - i,
        {
            if self.connections[i].remote_address() == address {
                proof {
                    lemma_entry(connection_views(self.connections@), i as int);
                }
                return Some(i);
            }
            i += 1;
        }
        proof {
            let s = connection_views(self.connections@);
            assert forall|k: int| 0 <= k < s.len() implies (#[trigger] s[k]).addr != address by {
                assert(self.connections@[k]@.addr != address);
            }
            lemma_absent(s, address);
        }
        None
    }

    /// Whether the table holds a connection to the peer.
    pub fn contains(&self, address: &Address) -> (r: bool)
        requires
            self.wf(),
        ensures
            r == self@.contains_key(*address),
    {
        self.position(*address).is_some()
    }

    /// How many connections the table holds.
    pub fn count(&self) -> (r: usize)
        requires
            self.wf(),
        ensures
            r == self@.dom().len(),
            self@.dom().finite(),
    {
        proof {
            lemma_count(connection_views(self.connections@));
        }
        self.connections.len()
    }

    /// The connection to the peer, which is made and put into the table if
    /// the table holds none: the way of the sending side.
    ///
    /// What the caller then does to the connection is done to the entry of
    /// the table.
    pub fn get_or_insert_connection(&mut self, address: Address, config: &Config, time: u64) -> (r:
        &mut Connection)
        requires
            old(self).wf(),
        ensures
            r.wf(),
            r@.addr == address,
            r@ == (if old(self)@.contains_key(address) {
                old(self)@[address]
            } else {
                ConnectionView::initial(address, *config, time)
            }),
            final(r).wf() && final(r)@.addr == address ==> final(self).wf() && final(self)@ == old(self)@.insert(address, final(r)@),
    {
        let at = match self.position(address) {
            Some(i) => i,
            None => {
                proof {
                    lemma_push(
                        connection_views(self.connections@),
                        ConnectionView::initial(address, *config, time),
                    );
                }
                let ghost before = self.connections@;
                let fresh = Connection::new(address, config, time);
                self.connections.push(fresh);
                assert(connection_views(self.connections@) =~= connection_views(before).push(
                    fresh@,
                ));
                self.connections.len() - 1
            },
        };
        let ghost held = self.connections@;
        proof {
            lemma_entry(connection_views(held), at as int);
            assert forall|c: Connection|
                c.wf() && c@.addr == address implies distinct(
                connection_views(held.update(at as int, c)),
            ) && by_address(connection_views(held.update(at as int, c))) == by_address(
                connection_views(held),
            ).insert(address, c@) && (forall|i: int|
                0 <= i < held.len() ==> (#[trigger] held.update(at as int, c)[i]).wf()) by {
                lemma_update(connection_views(held), at as int, c@);
                assert(connection_views(held.update(at as int, c)) =~= connection_views(
                    held,
                ).update(at as int, c@));
            }
            if old(self)@.contains_key(address) {
            } else {
                assert(by_address(connection_views(held)).insert(address, held[at as int]@)
                    =~= by_address(connection_views(held)));
                assert forall|c: Connection| true implies #[trigger] by_address(
                    connection_views(held),
                ).insert(address, c@) == old(self)@.insert(address, c@) by {
                    assert(by_address(connection_views(held)).insert(address, c@) =~= old(self)@.insert(address, held[at as int]@).insert(address, c@));
                    assert(old(self)@.insert(address, held[at as int]@).insert(address, c@)
                        =~= old(self)@.insert(address, c@));
                }
            }
        }
        &mut self.connections[at]
    }

    /// The connection to the peer if the table holds one, else a
    /// connection made for this one datagram: the way of the receiving
    /// side, which never puts a peer into the table.
    pub fn get_or_create_connection(&mut self, address: Address, config: &Config, time: u64) -> (r:
        ConnectionLookup<'_>)
        requires
            old(self).wf(),
        ensures
            old(self)@.contains_key(address) ==> (r matches ConnectionLookup::Existing(c) && c.wf()
                && c@ == old(self)@[address] && c@.addr == address && (final(c).wf() && final(c)@.addr == address ==> final(self).wf() && final(self)@ == old(self)@.insert(
                address,
                final(c)@,
            ))),
            !old(self)@.contains_key(address) ==> (r matches ConnectionLookup::Anonymous(c)
                && c.wf() && c@ == ConnectionView::initial(address, *config, time) && final(self).wf() && final(self)@ == old(self)@),
    {
        match self.position(address) {
            Some(at) => {
                let ghost held = self.connections@;
                proof {
                    lemma_entry(connection_views(held), at as int);
                    assert forall|c: Connection|
                        c.wf() && c@.addr == address implies distinct(
                        connection_views(held.update(at as int, c)),
                    ) && by_address(connection_views(held.update(at as int, c))) == by_address(
                        connection_views(held),
                    ).insert(address, c@) && (forall|i: int|
                        0 <= i < held.len() ==> (#[trigger] held.update(at as int, c)[i]).wf()) by {
                        lemma_update(connection_views(held), at as int, c@);
                        assert(connection_views(held.update(at as int, c)) =~= connection_views(
                            held,
                        ).update(at as int, c@));
                    }
                }
                ConnectionLookup::Existing(&mut self.connections[at])
            },
            None => ConnectionLookup::Anonymous(Connection::new(address, config, time)),
        }
    }

    /// Takes the connection to the peer out of the table, if there is one.
    pub fn remove_connection(&mut self, address: &Address)
        requires
            old(self).wf(),
        ensures
            final(self).wf(),
            final(self)@ == old(self)@.remove(*address),
    {
        match self.position(*address) {
            Some(at) => {
                let ghost held = self.connections@;
                proof {
                    lemma_remove(connection_views(held), at as int);
                }
                self.connections.remove(at);
                assert(connection_views(self.connections@) =~= connection_views(held).remove(
                    at as int,
                ));
            },
            None => {
                assert(self@.remove(*address) =~= self@);
            },
        }
    }

    /// The peers that are idle at `time`: each one whose last datagram is
    /// older than `time - max_idle_time`, once.
    pub fn idle_connections(&self, max_idle_time: u64, time: u64) -> (r: Vec<Address>)
        requires
            self.wf(),
        ensures
            r@.no_duplicates(),
            forall|a: Address|
                r@.contains(a) <==> self@.contains_key(a) && is_idle(
                    self@[a].last_heard,
                    max_idle_time,
                    time,
                ),
    {
        let mut out: Vec<Address> = Vec::new();
        let mut i: usize = 0;
        let ghost s = connection_views(self.connections@);
        while i < self.connections.len()
            invariant
                self.wf(),
                s == connection_views(self.connections@),
                i <= self.connections@.len(),
                out@.no_duplicates(),
                forall|a: Address|
                    out@.contains(a) <==> exists|k: int|
                        0 <= k < i && (#[trigger] s[k]).addr == a && is_idle(
                            s[k].last_heard,
                            max_idle_time,
                            time,
                        ),
            decreases self.connections@.len() - i,
        {
            let c = &self.connections[i];
            let heard = c.last_heard_at();
            let ghost before = out@;
            if time > heard && time - heard > max_idle_time {
                let a = c.remote_address();
                proof {
                    assert(s[i as int].addr == a);
                    if before.contains(a) {
                        let k = choose|k: int|
                            0 <= k < i && (#[trigger] s[k]).addr == a && is_idle(
                                s[k].last_heard,
                                max_idle_time,
                                time,
                            );
                        assert(s[k].addr != s[i as int].addr);
                    }
                }
                out.push(a);
                proof {
                    assert forall|b: Address| out@.contains(b) <==> exists|k: int|
                        0 <= k < i + 1 && (#[trigger] s[k]).addr == b && is_idle(
                            s[k].last_heard,
                            max_idle_time,
                            time,
                        ) by {
                        if out@.contains(b) {
                            let j = choose|j: int| 0 <= j < out@.len() && out@[j] == b;
                            if j < before.len() {
                                assert(before[j] == b);
                                assert(before.contains(b));
                            } else {
                                assert(s[i as int].addr == b);
                            }
                        }
                        if exists|k: int|
                            0 <= k < i + 1 && (#[trigger] s[k]).addr == b && is_idle(
                                s[k].last_heard,
                                max_idle_time,
                                time,
                            ) {
                            let k = choose|k: int|
                                0 <= k < i + 1 && (#[trigger] s[k]).addr == b && is_idle(
                                    s[k].last_heard,
                                    max_idle_time,
                                    time,
                                );
                            if k < i {
                                assert(before.contains(b));
                                let j = choose|j: int| 0 <= j < before.len() && before[j] == b;
                                assert(out@[j] == b);
                            } else {
                                assert(out@[before.len() as int] == b);
                            }
                        }
                    }
                }
            } else {
                proof {
                    assert forall|b: Address| out@.contains(b) <==> exists|k: int|
                        0 <= k < i + 1 && (#[trigger] s[k]).addr == b && is_idle(
                            s[k].last_heard,
                            max_idle_time,
                            time,
                        ) by {
                        if exists|k: int|
                            0 <= k < i + 1 && (#[trigger] s[k]).addr == b && is_idle(
                                s[k].last_heard,
                                max_idle_time,
                                time,
                            ) {
                            let k = choose|k: int|
                                0 <= k < i + 1 && (#[trigger] s[k]).addr == b && is_idle(
                                    s[k].last_heard,
                                    max_idle_time,
                                    time,
                                );
                            assert(k < i);
                        }
                    }
                }
            }
            i += 1;
        }
        proof {
            assert forall|a: Address|
                out@.contains(a) <==> self@.contains_key(a) && is_idle(
                    self@[a].last_heard,
                    max_idle_time,
                    time,
                ) by {
                if out@.contains(a) {
                    let k = choose|k: int|
                        0 <= k < i && (#[trigger] s[k]).addr == a && is_idle(
                            s[k].last_heard,
                            max_idle_time,
                            time,
                        );
                    lemma_entry(s, k);
                }
                if self@.contains_key(a) && is_idle(self@[a].last_heard, max_idle_time, time) {
                    let k = choose|k: int| 0 <= k < s.len() && (#[trigger] s[k]).addr == a;
                    lemma_entry(s, k);
                }
            }
        }
        out
    }
}

} // verus!

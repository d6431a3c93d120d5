//! A connected, identified client: its identity, the set of group names it
//! is subscribed to, and its outbound mailbox. The mailbox is an unbounded
//! FIFO: producers append frames, and the client's dispatcher drains them
//! in order to the socket.

use vstd::prelude::*;

use crate::payload::{ClientInfo, ClientInfoView, Origin, OriginView, PayloadOut, PayloadOutView};
use crate::seqs::{lemma_remove_contains, lemma_remove_unique, seq_unique};

verus! {

pub struct Client {
    /// Client id, unique for the whole process.
    uuid: u128,
    /// Client name, unique among connected clients.
    name: String,
    /// Names of the groups this client is subscribed to.
    groups: Vec<String>,
    /// Outbound frames not yet written to the socket, oldest first.
    mailbox: Vec<PayloadOut>,
}

pub struct ClientView {
    pub uuid: u128,
    pub name: Seq<char>,
    pub groups: Seq<Seq<char>>,
    pub mailbox: Seq<PayloadOutView>,
}

impl ClientView {
    /// Whether this client is subscribed to the group called `n`.
    pub open spec fn has_group_name(self, n: Seq<char>) -> bool {
        self.groups.contains(n)
    }

    /// The public identity `(uuid, name)` of this client.
    pub open spec fn info(self) -> ClientInfoView {
        ClientInfoView { uuid: self.uuid, name: self.name }
    }
}

impl View for Client {
    type V = ClientView;

    closed spec fn view(&self) -> ClientView {
        ClientView {
            uuid: self.uuid,
            name: self.name@,
            groups: self.groups@.map_values(|g: String| g@),
            mailbox: self.mailbox@.map_values(|p: PayloadOut| p@),
        }
    }
}

impl Client {
    /// Create a new client with no subscriptions and an empty mailbox.
    pub fn new(uuid: u128, name: String) -> (c: Client)
        ensures
            c@.uuid == uuid,
            c@.name == name@,
            c@.groups == Seq::<Seq<char>>::empty(),
            c@.mailbox == Seq::<PayloadOutView>::empty(),
    {
        let c = Client { uuid, name, groups: Vec::new(), mailbox: Vec::new() };
        proof {
            assert(c@.groups =~= Seq::<Seq<char>>::empty());
            assert(c@.mailbox =~= Seq::<PayloadOutView>::empty());
        }
        c
    }

    pub fn uuid(&self) -> (u: u128)
        ensures
            u == self@.uuid,
    {
        self.uuid
    }

    pub fn name(&self) -> (n: &str)
        ensures
            n@ == self@.name,
    {
        self.name.as_str()
    }

    /// The `(uuid, name)` pair announced in join and leave broadcasts.
    pub fn make_payload(&self) -> (p: ClientInfo)
        ensures
            p@ == self@.info(),
    {
        ClientInfo { uuid: self.uuid, name: self.name.clone() }
    }

    /// Utility method to construct an origin receipt on certain payloads.
    pub fn origin_receipt(&self) -> (o: Origin)
        ensures
            o@ == (OriginView { uuid: self@.uuid, name: self@.name, group: None }),
    {
        Origin { uuid: self.uuid, name: self.name.clone(), group: None }
    }

    /// Append a frame to the mailbox; it will reach the socket after every
    /// frame already enqueued.
    pub fn send(&mut self, payload: PayloadOut)
        ensures
            final(self)@.uuid == old(self)@.uuid,
            final(self)@.name == old(self)@.name,
            final(self)@.groups == old(self)@.groups,
            final(self)@.mailbox == old(self)@.mailbox.push(payload@),
    {
        let ghost p = payload@;
        self.mailbox.push(payload);
        proof {
            assert(self@.mailbox =~= old(self)@.mailbox.push(p));
        }
    }

    /// Take every pending frame, oldest first, leaving the mailbox empty.
    /// This is the dispatcher's half: frames come out in enqueue order.
    pub fn drain_mailbox(&mut self) -> (out: Vec<PayloadOut>)
        ensures
            final(self)@.uuid == old(self)@.uuid,
            final(self)@.name == old(self)@.name,
            final(self)@.groups == old(self)@.groups,
            final(self)@.mailbox == Seq::<PayloadOutView>::empty(),
            out@.map_values(|p: PayloadOut| p@) == old(self)@.mailbox,
    {
        let mut out: Vec<PayloadOut> = Vec::new();
        core::mem::swap(&mut out, &mut self.mailbox);
        proof {
            assert(self@.mailbox =~= Seq::<PayloadOutView>::empty());
        }
        out
    }

    /// Whether this client is subscribed to the group called `n`.
    pub fn contains_group(&self, n: &String) -> (r: bool)
        ensures
            r == self@.has_group_name(n@),
    {
        let mut i: usize = 0;
        while i < self.groups.len()
            invariant
                i <= self.groups@.len(),
                forall|j: int| 0 <= j < i ==> self.groups@[j]@ != n@,
            decreases self.groups@.len() - i,
        {
            if self.groups[i] == *n {
                proof {
                    assert(self@.groups[i as int] == n@);
                }
                return true;
            }
            i = i + 1;
        }
        proof {
            assert forall|j: int| 0 <= j < self@.groups.len() implies self@.groups[j] != n@ by {
                assert(self.groups@[j]@ != n@);
            }
        }
        false
    }

    /// Record a subscription. Subscribing again to a group already in the
    /// set leaves it unchanged.
    pub fn add_group(&mut self, n: String)
        ensures
            final(self)@.uuid == old(self)@.uuid,
            final(self)@.name == old(self)@.name,
            final(self)@.mailbox == old(self)@.mailbox,
            old(self)@.has_group_name(n@) ==> final(self)@.groups == old(self)@.groups,
            !old(self)@.has_group_name(n@) ==> final(self)@.groups == old(self)@.groups.push(n@),
    {
        if !self.contains_group(&n) {
            let ghost nv = n@;
            self.groups.push(n);
            proof {
                assert(self@.groups =~= old(self)@.groups.push(nv));
            }
        }
    }

    /// Drop a subscription. Removing a group not in the set leaves it
    /// unchanged, so the operation is idempotent.
    pub fn remove_group_name(&mut self, n: &String)
        requires
            seq_unique(old(self)@.groups),
        ensures
            final(self)@.uuid == old(self)@.uuid,
            final(self)@.name == old(self)@.name,
            final(self)@.mailbox == old(self)@.mailbox,
            seq_unique(final(self)@.groups),
            !old(self)@.has_group_name(n@) ==> final(self)@.groups == old(self)@.groups,
            old(self)@.has_group_name(n@) ==> final(self)@.groups.len() == old(
                self,
            )@.groups.len() - 1,
            forall|m: Seq<char>|
                final(self)@.has_group_name(m) <==> (old(self)@.has_group_name(m) && m != n@),
    {
        let ghost gs = self@.groups;
        let mut i: usize = 0;
        while i < self.groups.len()
            invariant
                gs == self@.groups,
                gs == old(self)@.groups,
                seq_unique(gs),
                self@.uuid == old(self)@.uuid,
                self@.name == old(self)@.name,
                self@.mailbox == old(self)@.mailbox,
                i <= gs.len(),
                forall|j: int| 0 <= j < i ==> gs[j] != n@,
            decreases gs.len() - i,
        {
            if self.groups[i] == *n {
                proof {
                    assert(gs[i as int] == n@);
                }
                self.groups.remove(i);
                proof {
                    assert(self@.groups =~= gs.remove(i as int));
                    lemma_remove_unique(gs, i as int);
                    assert forall|m: Seq<char>|
                        self@.has_group_name(m) <==> (old(self)@.has_group_name(m) && m
                            != n@) by {
                        lemma_remove_contains(gs, i as int, m);
                        if old(self)@.has_group_name(m) && m != n@ {
                            let j = choose|j: int| 0 <= j < gs.len() && gs[j] == m;
                            assert(j != i);
                        }
                        if exists|j: int| 0 <= j < gs.len() && j != i && gs[j] == m {
                            let j = choose|j: int| 0 <= j < gs.len() && j != i && gs[j] == m;
                            assert(gs[j] == m && j != i as int);
                            assert(m != n@);
                        }
                    }
                }
                return ;
            }
            i = i + 1;
        }
        proof {
            assert forall|m: Seq<char>|
                self@.has_group_name(m) <==> (old(self)@.has_group_name(m) && m != n@) by {
                if old(self)@.has_group_name(n@) {
                    let j = choose|j: int| 0 <= j < gs.len() && gs[j] == n@;
                    assert(gs[j] != n@);
                }
            }
        }
    }

    /// Some group this client is subscribed to, if any.
    pub fn first_group(&self) -> (r: Option<String>)
        ensures
            r is Some <==> self@.groups.len() > 0,
            r is Some ==> r->0@ == self@.groups[0],
    {
        if self.groups.len() > 0 {
            Some(self.groups[0].clone())
        } else {
            None
        }
    }

    /// The group names this client is subscribed to, as a fresh list.
    pub fn groups_list(&self) -> (r: Vec<String>)
        ensures
            r@.map_values(|g: String| g@) == self@.groups,
    {
        let mut r: Vec<String> = Vec::new();
        let mut i: usize = 0;
        while i < self.groups.len()
            invariant
                i <= self.groups@.len(),
                r@.len() == i,
                forall|j: int| 0 <= j < i ==> r@[j]@ == self.groups@[j]@,
            decreases self.groups@.len() - i,
        {
            r.push(self.groups[i].clone());
            i = i + 1;
        }
        proof {
            assert(r@.map_values(|g: String| g@) =~= self@.groups);
        }
        r
    }
}

} // verus!

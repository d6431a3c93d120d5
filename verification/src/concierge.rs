//! The registry at the heart of the hub: the three interlocking tables —
//! clients by id, the namespace of names, and the named groups — together
//! with the cross-table invariants that every operation preserves:
//!
//! * a name is in the namespace exactly when a client carries it;
//! * a group member is a connected client that lists the group, and a
//!   client lists exactly the groups it is a member of;
//! * every group's owner is a connected client;
//! * a client id is never issued twice within the process.
//!
//! All compound operations (registration, deregistration with owner-based
//! group reaping, subscription churn, broadcast fan-out) live here and are
//! atomic: the hub serializes access to the registry, so each call is one
//! observable step.

use vstd::prelude::*;

use crate::clients::{Client, ClientView};
use crate::ext::fresh_uuid;
use crate::payload::{ClientInfo, PayloadOut, PayloadOutView, StatusData, StatusDataView};
use crate::seqs::{lemma_filter_push, lemma_prefix_push, lemma_prefix_trans, lemma_remove_contains, lemma_remove_unique, seq_unique};

verus! {

/// One namespace entry: a name and the id of the client that carries it.
pub struct NameEntry {
    pub name: String,
    pub uuid: u128,
}

pub struct NameEntryView {
    pub name: Seq<char>,
    pub uuid: u128,
}

impl View for NameEntry {
    type V = NameEntryView;

    open spec fn view(&self) -> NameEntryView {
        NameEntryView { name: self.name@, uuid: self.uuid }
    }
}

/// A named fan-out set of clients owned by one client.
pub struct Group {
    pub name: String,
    pub owner: u128,
    pub clients: Vec<u128>,
}

pub struct GroupView {
    pub name: Seq<char>,
    pub owner: u128,
    pub clients: Seq<u128>,
}

impl View for Group {
    type V = GroupView;

    open spec fn view(&self) -> GroupView {
        GroupView { name: self.name@, owner: self.owner, clients: self.clients@ }
    }
}

impl Group {
    pub fn new(name: String, owner: u128) -> (g: Group)
        ensures
            g@.name == name@,
            g@.owner == owner,
            g@.clients == Seq::<u128>::empty(),
    {
        let g = Group { name, owner, clients: Vec::new() };
        proof {
            assert(g@.clients =~= Seq::<u128>::empty());
        }
        g
    }
}

/// Central struct that stores the hub's data.
pub struct Concierge {
    /// The groups registered in the hub, unique by name.
    groups: Vec<Group>,
    /// The namespace: the authoritative name-to-id index.
    namespace: Vec<NameEntry>,
    /// The connected clients, unique by id.
    clients: Vec<Client>,
    /// Every id ever issued, so that none is issued twice.
    issued: Vec<u128>,
}

pub struct ConciergeView {
    pub groups: Seq<GroupView>,
    pub namespace: Seq<NameEntryView>,
    pub clients: Seq<ClientView>,
    pub issued: Seq<u128>,
}

impl View for Concierge {
    type V = ConciergeView;

    closed spec fn view(&self) -> ConciergeView {
        ConciergeView {
            groups: self.groups@.map_values(|g: Group| g@),
            namespace: self.namespace@.map_values(|e: NameEntry| e@),
            clients: self.clients@.map_values(|c: Client| c@),
            issued: self.issued@,
        }
    }
}

/// Some client in `cs` has id `u`.
pub open spec fn clients_have_uuid(cs: Seq<ClientView>, u: u128) -> bool {
    exists|i: int| 0 <= i < cs.len() && (#[trigger] cs[i]).uuid == u
}

/// Some entry in `ns` carries name `n`.
pub open spec fn namespace_has_name(ns: Seq<NameEntryView>, n: Seq<char>) -> bool {
    exists|i: int| 0 <= i < ns.len() && (#[trigger] ns[i]).name == n
}

/// Some group in `gs` is called `n`.
pub open spec fn groups_have_name(gs: Seq<GroupView>, n: Seq<char>) -> bool {
    exists|i: int| 0 <= i < gs.len() && (#[trigger] gs[i]).name == n
}

impl ConciergeView {
    /// A client with id `u` is connected.
    pub open spec fn has_client(self, u: u128) -> bool {
        clients_have_uuid(self.clients, u)
    }

    /// The index of the client with id `u` (meaningful under `wf` when
    /// `has_client(u)`).
    pub open spec fn client_i(self, u: u128) -> int {
        choose|i: int| 0 <= i < self.clients.len() && (#[trigger] self.clients[i]).uuid == u
    }

    /// The client with id `u`.
    pub open spec fn client(self, u: u128) -> ClientView {
        self.clients[self.client_i(u)]
    }

    /// The pending outbound frames of the client with id `u`.
    pub open spec fn mailbox_of(self, u: u128) -> Seq<PayloadOutView> {
        self.client(u).mailbox
    }

    /// The name `n` is taken in the namespace.
    pub open spec fn has_name(self, n: Seq<char>) -> bool {
        namespace_has_name(self.namespace, n)
    }

    pub open spec fn name_i(self, n: Seq<char>) -> int {
        choose|i: int| 0 <= i < self.namespace.len() && (#[trigger] self.namespace[i]).name == n
    }

    /// The id the namespace maps name `n` to.
    pub open spec fn uuid_of(self, n: Seq<char>) -> u128 {
        self.namespace[self.name_i(n)].uuid
    }

    /// A group called `n` exists.
    pub open spec fn has_group(self, n: Seq<char>) -> bool {
        groups_have_name(self.groups, n)
    }

    pub open spec fn group_i(self, n: Seq<char>) -> int {
        choose|i: int| 0 <= i < self.groups.len() && (#[trigger] self.groups[i]).name == n
    }

    /// The group called `n`.
    pub open spec fn group(self, n: Seq<char>) -> GroupView {
        self.groups[self.group_i(n)]
    }

    /// The client with id `u` is a member of the group called `n`.
    pub open spec fn member(self, n: Seq<char>, u: u128) -> bool {
        self.has_group(n) && self.group(n).clients.contains(u)
    }

    pub open spec fn clients_unique(self) -> bool {
        forall|i: int, j: int|
            0 <= i < j < self.clients.len() ==> (#[trigger] self.clients[i]).uuid != (
            #[trigger] self.clients[j]).uuid
    }

    pub open spec fn namespace_unique(self) -> bool {
        forall|i: int, j: int|
            0 <= i < j < self.namespace.len() ==> (#[trigger] self.namespace[i]).name != (
            #[trigger] self.namespace[j]).name
    }

    pub open spec fn groups_unique(self) -> bool {
        forall|i: int, j: int|
            0 <= i < j < self.groups.len() ==> (#[trigger] self.groups[i]).name != (
            #[trigger] self.groups[j]).name
    }

    /// Every namespace entry is backed by a client with that name and id.
    pub open spec fn entry_backed(self, i: int) -> bool {
        exists|j: int|
            0 <= j < self.clients.len() && (#[trigger] self.clients[j]).uuid
                == self.namespace[i].uuid && self.clients[j].name == self.namespace[i].name
    }

    pub open spec fn namespace_to_clients(self) -> bool {
        forall|i: int| 0 <= i < self.namespace.len() ==> #[trigger] self.entry_backed(i)
    }

    /// Every client's name is listed in the namespace under its id.
    pub open spec fn client_named(self, j: int) -> bool {
        exists|i: int|
            0 <= i < self.namespace.len() && (#[trigger] self.namespace[i]).name
                == self.clients[j].name && self.namespace[i].uuid == self.clients[j].uuid
    }

    pub open spec fn clients_to_namespace(self) -> bool {
        forall|j: int| 0 <= j < self.clients.len() ==> #[trigger] self.client_named(j)
    }

    /// Every group's owner is a connected client.
    pub open spec fn owners_ok(self) -> bool {
        forall|k: int| 0 <= k < self.groups.len() ==> self.has_client((#[trigger] self.groups[k]).owner)
    }

    /// A member of a group is a connected client that lists the group.
    pub open spec fn member_backed(self, k: int, m: int) -> bool {
        exists|j: int|
            0 <= j < self.clients.len() && (#[trigger] self.clients[j]).uuid
                == self.groups[k].clients[m] && self.clients[j].has_group_name(
                self.groups[k].name)
    }

    pub open spec fn members_ok(self) -> bool {
        forall|k: int, m: int|
            0 <= k < self.groups.len() && 0 <= m < self.groups[k].clients.len()
                ==> #[trigger] self.member_backed(k, m)
    }

    pub open spec fn members_unique(self) -> bool {
        forall|k: int| 0 <= k < self.groups.len() ==> seq_unique((#[trigger] self.groups[k]).clients)
    }

    /// A group a client lists exists and counts the client as a member.
    pub open spec fn subscription_backed(self, j: int, t: int) -> bool {
        exists|k: int|
            0 <= k < self.groups.len() && (#[trigger] self.groups[k]).name
                == self.clients[j].groups[t] && self.groups[k].clients.contains(
                self.clients[j].uuid)
    }

    pub open spec fn client_groups_ok(self) -> bool {
        forall|j: int, t: int|
            0 <= j < self.clients.len() && 0 <= t < self.clients[j].groups.len()
                ==> #[trigger] self.subscription_backed(j, t)
    }

    pub open spec fn client_groups_unique(self) -> bool {
        forall|j: int| 0 <= j < self.clients.len() ==> seq_unique((#[trigger] self.clients[j]).groups)
    }

    /// Connected clients only carry ids that were issued.
    pub open spec fn issued_ok(self) -> bool {
        forall|j: int| 0 <= j < self.clients.len() ==> self.issued.contains((#[trigger] self.clients[j]).uuid)
    }

    /// The cross-table invariant of the registry; it holds at every
    /// external observation point.
    pub open spec fn wf(self) -> bool {
        &&& self.clients_unique()
        &&& self.namespace_unique()
        &&& self.groups_unique()
        &&& self.namespace_to_clients()
        &&& self.clients_to_namespace()
        &&& self.owners_ok()
        &&& self.members_ok()
        &&& self.members_unique()
        &&& self.client_groups_ok()
        &&& self.client_groups_unique()
        &&& self.issued_ok()
    }
}

/// With distinct client ids, the client found at index `i` is the one the
/// lookup functions denote.
pub proof fn lemma_client_at(v: ConciergeView, i: int)
    requires
        v.clients_unique(),
        0 <= i < v.clients.len(),
    ensures
        v.has_client(v.clients[i].uuid),
        v.client_i(v.clients[i].uuid) == i,
        v.client(v.clients[i].uuid) == v.clients[i],
{
    assert(0 <= i < v.clients.len() && v.clients[i].uuid == v.clients[i].uuid);
}

/// With distinct names, the namespace entry at index `i` is the one the
/// lookup functions denote.
pub proof fn lemma_name_at(v: ConciergeView, i: int)
    requires
        v.namespace_unique(),
        0 <= i < v.namespace.len(),
    ensures
        v.has_name(v.namespace[i].name),
        v.name_i(v.namespace[i].name) == i,
        v.uuid_of(v.namespace[i].name) == v.namespace[i].uuid,
{
    assert(0 <= i < v.namespace.len() && v.namespace[i].name == v.namespace[i].name);
}

/// With distinct group names, the group at index `i` is the one the lookup
/// functions denote.
pub proof fn lemma_group_at(v: ConciergeView, i: int)
    requires
        v.groups_unique(),
        0 <= i < v.groups.len(),
    ensures
        v.has_group(v.groups[i].name),
        v.group_i(v.groups[i].name) == i,
        v.group(v.groups[i].name) == v.groups[i],
{
    assert(0 <= i < v.groups.len() && v.groups[i].name == v.groups[i].name);
}

/// Why a registration attempt was refused.
#[derive(Debug, Clone, Copy, PartialEq, Eq)]
pub enum RegisterError {
    /// The requested name is already in the namespace.
    DuplicateName,
    /// The freshly drawn id was issued before; the caller may retry.
    IdCollision,
}

fn find_client_index(clients: &Vec<Client>, uuid: u128) -> (r: Option<usize>)
    ensures
        match r {
            Some(i) => i < clients@.len() && clients@[i as int]@.uuid == uuid,
            None => forall|j: int| 0 <= j < clients@.len() ==> (#[trigger] clients@[j])@.uuid != uuid,
        },
{
    let mut i: usize = 0;
    while i < clients.len()
        invariant
            i <= clients@.len(),
            forall|j: int| 0 <= j < i ==> (#[trigger] clients@[j])@.uuid != uuid,
        decreases clients@.len() - i,
    {
        if clients[i].uuid() == uuid {
            return Some(i);
        }
        i = i + 1;
    }
    None
}

fn find_name_index(namespace: &Vec<NameEntry>, name: &String) -> (r: Option<usize>)
    ensures
        match r {
            Some(i) => i < namespace@.len() && namespace@[i as int]@.name == name@,
            None => forall|j: int|
                0 <= j < namespace@.len() ==> (#[trigger] namespace@[j])@.name != name@,
        },
{
    let mut i: usize = 0;
    while i < namespace.len()
        invariant
            i <= namespace@.len(),
            forall|j: int| 0 <= j < i ==> (#[trigger] namespace@[j])@.name != name@,
        decreases namespace@.len() - i,
    {
        if namespace[i].name == *name {
            return Some(i);
        }
        i = i + 1;
    }
    None
}

fn find_group_index(groups: &Vec<Group>, name: &String) -> (r: Option<usize>)
    ensures
        match r {
            Some(i) => i < groups@.len() && groups@[i as int]@.name == name@,
            None => forall|j: int| 0 <= j < groups@.len() ==> (#[trigger] groups@[j])@.name != name@,
        },
{
    let mut i: usize = 0;
    while i < groups.len()
        invariant
            i <= groups@.len(),
            forall|j: int| 0 <= j < i ==> (#[trigger] groups@[j])@.name != name@,
        decreases groups@.len() - i,
    {
        if groups[i].name == *name {
            return Some(i);
        }
        i = i + 1;
    }
    None
}

fn contains_u128(v: &Vec<u128>, x: u128) -> (r: bool)
    ensures
        r == v@.contains(x),
{
    let mut i: usize = 0;
    while i < v.len()
        invariant
            i <= v@.len(),
            forall|j: int| 0 <= j < i ==> v@[j] != x,
        decreases v@.len() - i,
    {
        if v[i] == x {
            return true;
        }
        i = i + 1;
    }
    false
}

impl Concierge {
    /// Creates a new hub with no clients, no names and no groups.
    pub fn new() -> (c: Concierge)
        ensures
            c@.wf(),
            c@.groups == Seq::<GroupView>::empty(),
            c@.namespace == Seq::<NameEntryView>::empty(),
            c@.clients == Seq::<ClientView>::empty(),
            c@.issued == Seq::<u128>::empty(),
    {
        let c = Concierge {
            groups: Vec::new(),
            namespace: Vec::new(),
            clients: Vec::new(),
            issued: Vec::new(),
        };
        proof {
            assert(c@.groups =~= Seq::<GroupView>::empty());
            assert(c@.namespace =~= Seq::<NameEntryView>::empty());
            assert(c@.clients =~= Seq::<ClientView>::empty());
            assert(c@.issued =~= Seq::<u128>::empty());
        }
        c
    }

    /// The name `name` resolved to the id it maps to, if any.
    pub fn resolve_name(&self, name: &String) -> (r: Option<u128>)
        requires
            self@.wf(),
        ensures
            r is Some <==> self@.has_name(name@),
            r is Some ==> r->0 == self@.uuid_of(name@),
    {
        match find_name_index(&self.namespace, name) {
            Some(i) => {
                proof {
                    lemma_name_at(self@, i as int);
                }
                Some(self.namespace[i].uuid)
            },
            None => {
                proof {
                    if self@.has_name(name@) {
                        let j = self@.name_i(name@);
                        assert(self.namespace@[j]@.name == name@);
                    }
                }
                None
            },
        }
    }

    /// The name of the connected client with id `uuid`, if any.
    pub fn resolve_uuid(&self, uuid: u128) -> (r: Option<String>)
        requires
            self@.wf(),
        ensures
            r is Some <==> self@.has_client(uuid),
            r is Some ==> r->0@ == self@.client(uuid).name,
    {
        match find_client_index(&self.clients, uuid) {
            Some(i) => {
                proof {
                    lemma_client_at(self@, i as int);
                }
                Some(String::from_str(self.clients[i].name()))
            },
            None => {
                proof {
                    if self@.has_client(uuid) {
                        let j = self@.client_i(uuid);
                        assert(self.clients@[j]@.uuid == uuid);
                    }
                }
                None
            },
        }
    }

    /// Register `name` under the given id: insert into the namespace and
    /// the clients table atomically, or refuse. Succeeds exactly when the
    /// name is free and the id was never issued.
    pub fn register_with_uuid(&mut self, name: String, uuid: u128) -> (r: Result<
        (),
        RegisterError,
    >)
        requires
            old(self)@.wf(),
        ensures
            final(self)@.wf(),
            r is Ok <==> (!old(self)@.has_name(name@) && !old(self)@.issued.contains(uuid)),
            r == Err::<(), RegisterError>(RegisterError::DuplicateName) <==> old(self)@.has_name(
                name@,
            ),
            r is Err ==> final(self)@ == old(self)@,
            r is Ok ==> final(self)@.groups == old(self)@.groups && final(self)@.namespace == old(
                self,
            )@.namespace.push(NameEntryView { name: name@, uuid }) && final(self)@.clients == old(
                self,
            )@.clients.push(
                ClientView {
                    uuid,
                    name: name@,
                    groups: Seq::<Seq<char>>::empty(),
                    mailbox: Seq::<PayloadOutView>::empty(),
                },
            ) && final(self)@.issued == old(self)@.issued.push(uuid),
    {
        let ghost pre = self@;
        match find_name_index(&self.namespace, &name) {
            Some(i) => {
                proof {
                    assert(pre.namespace[i as int].name == name@);
                    assert(pre.has_name(name@));
                }
                Err(RegisterError::DuplicateName)
            },
            None => {
                proof {
                    assert(!pre.has_name(name@)) by {
                        if pre.has_name(name@) {
                            let j = pre.name_i(name@);
                            assert(pre.namespace[j] == self.namespace@[j]@);
                        }
                    }
                }
                if contains_u128(&self.issued, uuid) {
                    Err(RegisterError::IdCollision)
                } else {
                    let ghost nv = name@;
                    let client = Client::new(uuid, name.clone());
                    self.clients.push(client);
                    self.namespace.push(NameEntry { name, uuid });
                    self.issued.push(uuid);
                    proof {
                        let post = self@;
                        let cv = ClientView {
                            uuid,
                            name: nv,
                            groups: Seq::<Seq<char>>::empty(),
                            mailbox: Seq::<PayloadOutView>::empty(),
                        };
                        assert(post.clients =~= pre.clients.push(cv));
                        assert(post.namespace =~= pre.namespace.push(
                            NameEntryView { name: nv, uuid },
                        ));
                        assert(post.issued =~= pre.issued.push(uuid));
                        assert(post.groups =~= pre.groups);
                        lemma_register_preserves_wf(pre, post, nv, uuid);
                    }
                    Ok(())
                }
            },
        }
    }

    /// Register `name` under a freshly drawn id. Fails with
    /// `DuplicateName` exactly when the name is taken; fails with
    /// `IdCollision` in the statistically negligible case that the drawn
    /// id was issued before, leaving the registry unchanged.
    pub fn try_register(&mut self, name: String) -> (r: Result<u128, RegisterError>)
        requires
            old(self)@.wf(),
        ensures
            final(self)@.wf(),
            r == Err::<u128, RegisterError>(RegisterError::DuplicateName) <==> old(
                self,
            )@.has_name(name@),
            r is Err ==> final(self)@ == old(self)@,
            r is Ok ==> !old(self)@.issued.contains(r->Ok_0) && final(self)@.groups == old(
                self,
            )@.groups && final(self)@.namespace == old(self)@.namespace.push(
                NameEntryView { name: name@, uuid: r->Ok_0 },
            ) && final(self)@.clients == old(self)@.clients.push(
                ClientView {
                    uuid: r->Ok_0,
                    name: name@,
                    groups: Seq::<Seq<char>>::empty(),
                    mailbox: Seq::<PayloadOutView>::empty(),
                },
            ) && final(self)@.issued == old(self)@.issued.push(r->Ok_0),
    {
        let uuid = fresh_uuid();
        match self.register_with_uuid(name, uuid) {
            Ok(()) => Ok(uuid),
            Err(e) => Err(e),
        }
    }
}

/// `c` with its mailbox replaced by `m`.
pub open spec fn with_mailbox(c: ClientView, m: Seq<PayloadOutView>) -> ClientView {
    ClientView { uuid: c.uuid, name: c.name, groups: c.groups, mailbox: m }
}

/// Changes that only touch mailboxes preserve the registry invariant.
pub proof fn lemma_wf_mailboxes(pre: ConciergeView, post: ConciergeView)
    requires
        pre.wf(),
        post.namespace == pre.namespace,
        post.groups == pre.groups,
        post.issued == pre.issued,
        post.clients.len() == pre.clients.len(),
        forall|i: int|
            0 <= i < pre.clients.len() ==> (#[trigger] post.clients[i]).uuid == pre.clients[i].uuid
                && post.clients[i].name == pre.clients[i].name && post.clients[i].groups
                == pre.clients[i].groups,
    ensures
        post.wf(),
{
    assert forall|u: u128| pre.has_client(u) implies post.has_client(u) by {
        let j = pre.client_i(u);
        assert(post.clients[j].uuid == u);
    }
    assert forall|i: int| 0 <= i < post.namespace.len() implies post.entry_backed(i) by {
        assert(pre.entry_backed(i));
        let j = choose|j: int|
            0 <= j < pre.clients.len() && (#[trigger] pre.clients[j]).uuid == pre.namespace[i].uuid
                && pre.clients[j].name == pre.namespace[i].name;
        assert(post.clients[j].uuid == pre.namespace[i].uuid);
    }
    assert forall|j: int| 0 <= j < post.clients.len() implies post.client_named(j) by {
        assert(pre.client_named(j));
    }
    assert forall|k: int, m: int|
        0 <= k < post.groups.len() && 0 <= m < post.groups[k].clients.len()
            implies post.member_backed(k, m) by {
        assert(pre.member_backed(k, m));
        let j = choose|j: int|
            0 <= j < pre.clients.len() && (#[trigger] pre.clients[j]).uuid
                == pre.groups[k].clients[m] && pre.clients[j].has_group_name(pre.groups[k].name);
        assert(post.clients[j].uuid == pre.groups[k].clients[m]);
        assert(post.clients[j].has_group_name(post.groups[k].name));
    }
    assert forall|j: int, t: int|
        0 <= j < post.clients.len() && 0 <= t < post.clients[j].groups.len()
            implies post.subscription_backed(j, t) by {
        assert(pre.subscription_backed(j, t));
    }
}

impl Concierge {
    /// Append `frame` to the mailbox of the client with id `uuid`; reports
    /// whether such a client is connected, and changes nothing otherwise.
    pub fn enqueue(&mut self, uuid: u128, frame: PayloadOut) -> (r: bool)
        requires
            old(self)@.wf(),
        ensures
            final(self)@.wf(),
            r <==> old(self)@.has_client(uuid),
            !r ==> final(self)@ == old(self)@,
            r ==> final(self)@.namespace == old(self)@.namespace && final(self)@.groups == old(
                self,
            )@.groups && final(self)@.issued == old(self)@.issued && final(self)@.clients.len()
                == old(self)@.clients.len() && (forall|i: int|
                0 <= i < old(self)@.clients.len() ==> #[trigger] final(self)@.clients[i] == (
                if old(self)@.clients[i].uuid == uuid {
                    with_mailbox(
                        old(self)@.clients[i],
                        old(self)@.clients[i].mailbox.push(frame@),
                    )
                } else {
                    old(self)@.clients[i]
                })),
    {
        let ghost pre = self@;
        match find_client_index(&self.clients, uuid) {
            None => {
                proof {
                    if pre.has_client(uuid) {
                        let j = pre.client_i(uuid);
                        assert(pre.clients[j] == self.clients@[j]@);
                    }
                    assert(final(self)@ =~= pre);
                }
                false
            },
            Some(i) => {
                let c = vstd::std_specs::vec::vec_index_mut(&mut self.clients, i);
                c.send(frame);
                proof {
                    assert(pre.has_client(uuid)) by {
                        assert(pre.clients[i as int].uuid == uuid);
                    }
                    assert forall|j: int| 0 <= j < pre.clients.len() implies #[trigger] self@.clients[j]
                        == (if pre.clients[j].uuid == uuid {
                        with_mailbox(pre.clients[j], pre.clients[j].mailbox.push(frame@))
                    } else {
                        pre.clients[j]
                    }) by {
                        if j != i as int {
                            assert(self.clients@[j] == old(self).clients@[j]);
                            if pre.clients[j].uuid == uuid {
                                assert(pre.clients[i as int].uuid == uuid);
                            }
                        }
                    }
                    lemma_wf_mailboxes(pre, self@);
                }
                true
            },
        }
    }

    /// Broadcast a frame to all connected clients: every mailbox gets one
    /// copy appended, and nothing else changes.
    pub fn broadcast_all(&mut self, frame: &PayloadOut)
        requires
            old(self)@.wf(),
        ensures
            final(self)@.wf(),
            final(self)@.namespace == old(self)@.namespace,
            final(self)@.groups == old(self)@.groups,
            final(self)@.issued == old(self)@.issued,
            final(self)@.clients.len() == old(self)@.clients.len(),
            forall|i: int|
                0 <= i < old(self)@.clients.len() ==> #[trigger] final(self)@.clients[i]
                    == with_mailbox(
                    old(self)@.clients[i],
                    old(self)@.clients[i].mailbox.push(frame@),
                ),
    {
        let ghost pre = self@;
        let n = self.clients.len();
        let mut i: usize = 0;
        while i < n
            invariant
                pre == old(self)@,
                pre.wf(),
                n == pre.clients.len(),
                i <= n,
                self.clients@.len() == n,
                self@.namespace == pre.namespace,
                self@.groups == pre.groups,
                self@.issued == pre.issued,
                forall|j: int|
                    0 <= j < i ==> #[trigger] self@.clients[j] == with_mailbox(
                        pre.clients[j],
                        pre.clients[j].mailbox.push(frame@),
                    ),
                forall|j: int| i <= j < n ==> #[trigger] self@.clients[j] == pre.clients[j],
            decreases n - i,
        {
            let ghost before = self@.clients;
            let f = frame.clone();
            let c = vstd::std_specs::vec::vec_index_mut(&mut self.clients, i);
            c.send(f);
            proof {
                assert(self@.clients =~= before.update(
                    i as int,
                    with_mailbox(before[i as int], before[i as int].mailbox.push(frame@)),
                ));
            }
            i = i + 1;
        }
        proof {
            lemma_wf_mailboxes(pre, self@);
        }
    }

    /// Create an empty group owned by `owner`; reports whether the name
    /// was free, and changes nothing when it was not.
    pub fn create_group(&mut self, name: String, owner: u128) -> (r: bool)
        requires
            old(self)@.wf(),
            old(self)@.has_client(owner),
        ensures
            final(self)@.wf(),
            r <==> !old(self)@.has_group(name@),
            !r ==> final(self)@ == old(self)@,
            r ==> final(self)@.namespace == old(self)@.namespace && final(self)@.clients == old(
                self,
            )@.clients && final(self)@.issued == old(self)@.issued && final(self)@.groups == old(
                self,
            )@.groups.push(GroupView { name: name@, owner, clients: Seq::<u128>::empty() }),
    {
        let ghost pre = self@;
        match find_group_index(&self.groups, &name) {
            Some(k) => {
                proof {
                    assert(pre.groups[k as int].name == name@);
                    assert(pre.has_group(name@));
                    assert(final(self)@ =~= pre);
                }
                false
            },
            None => {
                proof {
                    assert(!pre.has_group(name@)) by {
                        if pre.has_group(name@) {
                            let j = pre.group_i(name@);
                            assert(pre.groups[j] == self.groups@[j]@);
                        }
                    }
                }
                let ghost nv = name@;
                let g = Group::new(name, owner);
                self.groups.push(g);
                proof {
                    let post = self@;
                    let gv = GroupView { name: nv, owner, clients: Seq::<u128>::empty() };
                    assert(post.groups =~= pre.groups.push(gv));
                    assert(post.namespace =~= pre.namespace);
                    assert(post.clients =~= pre.clients);
                    assert(post.issued =~= pre.issued);
                    let gl = pre.groups.len() as int;
                    assert forall|i: int, j: int|
                        0 <= i < j < post.groups.len() implies (post.groups[i]).name != (
                    post.groups[j]).name by {
                        if j == gl {
                            assert(pre.has_group(pre.groups[i].name)) by {
                                assert(0 <= i < pre.groups.len() && pre.groups[i].name
                                    == pre.groups[i].name);
                            }
                        }
                    }
                    assert forall|k: int| 0 <= k < post.groups.len() implies post.has_client(
                        (post.groups[k]).owner,
                    ) by {
                        if k < gl {
                            assert(pre.has_client(pre.groups[k].owner));
                        }
                    }
                    assert forall|k: int, m2: int|
                        0 <= k < post.groups.len() && 0 <= m2 < post.groups[k].clients.len()
                            implies post.member_backed(k, m2) by {
                        assert(k < gl);
                        assert(pre.member_backed(k, m2));
                    }
                    assert forall|j: int, t: int|
                        0 <= j < post.clients.len() && 0 <= t < post.clients[j].groups.len()
                            implies post.subscription_backed(j, t) by {
                        assert(pre.subscription_backed(j, t));
                        let k = choose|k: int|
                            0 <= k < pre.groups.len() && (#[trigger] pre.groups[k]).name
                                == pre.clients[j].groups[t] && pre.groups[k].clients.contains(
                                pre.clients[j].uuid,
                            );
                        assert(post.groups[k] == pre.groups[k]);
                    }
                    assert forall|i: int| 0 <= i < post.namespace.len() implies post.entry_backed(
                        i,
                    ) by {
                        assert(pre.entry_backed(i));
                    }
                    assert forall|j: int| 0 <= j < post.clients.len() implies post.client_named(
                        j,
                    ) by {
                        assert(pre.client_named(j));
                    }
                }
                true
            },
        }
    }
}

/// `g` with its member list replaced by `cs`.
pub open spec fn with_members(g: GroupView, cs: Seq<u128>) -> GroupView {
    GroupView { name: g.name, owner: g.owner, clients: cs }
}

/// `c` with its subscription list replaced by `gs`.
pub open spec fn with_groups(c: ClientView, gs: Seq<Seq<char>>) -> ClientView {
    ClientView { uuid: c.uuid, name: c.name, groups: gs, mailbox: c.mailbox }
}

/// Under the registry invariant, membership in a group and listing that
/// group are the same thing: the client at index `i` is in the member list
/// of the group at index `k` exactly when it lists that group's name.
pub proof fn lemma_member_iff_listed(v: ConciergeView, k: int, i: int)
    requires
        v.wf(),
        0 <= k < v.groups.len(),
        0 <= i < v.clients.len(),
    ensures
        v.groups[k].clients.contains(v.clients[i].uuid) <==> v.clients[i].has_group_name(
            v.groups[k].name,
        ),
{
    if v.groups[k].clients.contains(v.clients[i].uuid) {
        let m = choose|m: int|
            0 <= m < v.groups[k].clients.len() && v.groups[k].clients[m] == v.clients[i].uuid;
        assert(v.member_backed(k, m));
        let j = choose|j: int|
            0 <= j < v.clients.len() && (#[trigger] v.clients[j]).uuid == v.groups[k].clients[m]
                && v.clients[j].has_group_name(v.groups[k].name);
        if j != i {
            assert(v.clients[j].uuid == v.clients[i].uuid);
            assert(false);
        }
    }
    if v.clients[i].has_group_name(v.groups[k].name) {
        let t = choose|t: int|
            0 <= t < v.clients[i].groups.len() && v.clients[i].groups[t] == v.groups[k].name;
        assert(v.subscription_backed(i, t));
        let k2 = choose|k2: int|
            0 <= k2 < v.groups.len() && (#[trigger] v.groups[k2]).name == v.clients[i].groups[t]
                && v.groups[k2].clients.contains(v.clients[i].uuid);
        if k2 != k {
            assert(v.groups[k2].name == v.groups[k].name);
            assert(false);
        }
    }
}

fn remove_u128(v: &mut Vec<u128>, x: u128)
    requires
        seq_unique(old(v)@),
    ensures
        seq_unique(final(v)@),
        !old(v)@.contains(x) ==> final(v)@ == old(v)@,
        old(v)@.contains(x) ==> final(v)@.len() == old(v)@.len() - 1,
        forall|y: u128| final(v)@.contains(y) <==> (old(v)@.contains(y) && y != x),
{
    let ghost vs = v@;
    let mut i: usize = 0;
    while i < v.len()
        invariant
            vs == v@,
            vs == old(v)@,
            seq_unique(vs),
            i <= vs.len(),
            forall|j: int| 0 <= j < i ==> vs[j] != x,
        decreases vs.len() - i,
    {
        if v[i] == x {
            v.remove(i);
            proof {
                assert(v@ =~= vs.remove(i as int));
                lemma_remove_unique(vs, i as int);
                assert forall|y: u128| v@.contains(y) <==> (vs.contains(y) && y != x) by {
                    lemma_remove_contains(vs, i as int, y);
                    if vs.contains(y) && y != x {
                        let j = choose|j: int| 0 <= j < vs.len() && vs[j] == y;
                        assert(j != i);
                    }
                    if exists|j: int| 0 <= j < vs.len() && j != i && vs[j] == y {
                        let j = choose|j: int| 0 <= j < vs.len() && j != i && vs[j] == y;
                        assert(vs[j] == y && j != i as int);
                    }
                }
            }
            return ;
        }
        i = i + 1;
    }
    proof {
        if vs.contains(x) {
            let j = choose|j: int| 0 <= j < vs.len() && vs[j] == x;
            assert(vs[j] != x);
        }
    }
}

/// Adding one member to the group at `gi` and the group's name to the
/// subscriber at `ci` preserves the registry invariant.
proof fn lemma_subscribe_preserves_wf(
    pre: ConciergeView,
    post: ConciergeView,
    gi: int,
    ci: int,
    uuid: u128,
)
    requires
        pre.wf(),
        0 <= gi < pre.groups.len(),
        0 <= ci < pre.clients.len(),
        pre.clients[ci].uuid == uuid,
        !pre.groups[gi].clients.contains(uuid),
        !pre.clients[ci].has_group_name(pre.groups[gi].name),
        post.namespace == pre.namespace,
        post.issued == pre.issued,
        post.groups == pre.groups.update(
            gi,
            with_members(pre.groups[gi], pre.groups[gi].clients.push(uuid)),
        ),
        post.clients == pre.clients.update(
            ci,
            with_groups(pre.clients[ci], pre.clients[ci].groups.push(pre.groups[gi].name)),
        ),
    ensures
        post.wf(),
{
    let gname = pre.groups[gi].name;
    assert forall|u: u128| pre.has_client(u) implies post.has_client(u) by {
        let j = pre.client_i(u);
        assert(post.clients[j].uuid == u);
    }
    assert forall|i: int| 0 <= i < post.namespace.len() implies post.entry_backed(i) by {
        assert(pre.entry_backed(i));
        let j = choose|j: int|
            0 <= j < pre.clients.len() && (#[trigger] pre.clients[j]).uuid == pre.namespace[i].uuid
                && pre.clients[j].name == pre.namespace[i].name;
        assert(post.clients[j].uuid == pre.namespace[i].uuid && post.clients[j].name
            == pre.namespace[i].name);
    }
    assert forall|j: int| 0 <= j < post.clients.len() implies post.client_named(j) by {
        assert(pre.client_named(j));
    }
    assert forall|k: int, m: int|
        0 <= k < post.groups.len() && 0 <= m < post.groups[k].clients.len()
            implies post.member_backed(k, m) by {
        if k == gi && m == pre.groups[gi].clients.len() {
            assert(post.clients[ci].uuid == uuid);
            assert(post.clients[ci].has_group_name(gname)) by {
                assert(post.clients[ci].groups.last() == gname);
            }
            assert(post.groups[k].clients[m] == uuid);
        } else {
            assert(pre.member_backed(k, m));
            let j = choose|j: int|
                0 <= j < pre.clients.len() && (#[trigger] pre.clients[j]).uuid
                    == pre.groups[k].clients[m] && pre.clients[j].has_group_name(
                    pre.groups[k].name,
                );
            assert(post.groups[k].clients[m] == pre.groups[k].clients[m]);
            assert(post.groups[k].name == pre.groups[k].name);
            if j == ci {
                let t = choose|t: int|
                    0 <= t < pre.clients[ci].groups.len() && pre.clients[ci].groups[t]
                        == pre.groups[k].name;
                assert(post.clients[ci].groups[t] == pre.groups[k].name);
                assert(post.clients[ci].has_group_name(pre.groups[k].name));
            } else {
                assert(post.clients[j] == pre.clients[j]);
            }
        }
    }
    assert forall|j: int, t: int|
        0 <= j < post.clients.len() && 0 <= t < post.clients[j].groups.len()
            implies post.subscription_backed(j, t) by {
        if j == ci && t == pre.clients[ci].groups.len() {
            assert(post.groups[gi].name == gname);
            assert(post.groups[gi].clients.last() == uuid);
            assert(post.groups[gi].clients.contains(uuid));
            assert(post.clients[ci].groups[t] == gname);
        } else {
            assert(pre.subscription_backed(j, t));
            let k = choose|k: int|
                0 <= k < pre.groups.len() && (#[trigger] pre.groups[k]).name
                    == pre.clients[j].groups[t] && pre.groups[k].clients.contains(
                    pre.clients[j].uuid,
                );
            assert(post.clients[j].groups[t] == pre.clients[j].groups[t]);
            assert(post.clients[j].uuid == pre.clients[j].uuid);
            if k == gi {
                let m = choose|m: int|
                    0 <= m < pre.groups[gi].clients.len() && pre.groups[gi].clients[m]
                        == pre.clients[j].uuid;
                assert(post.groups[gi].clients[m] == pre.clients[j].uuid);
                assert(post.groups[gi].clients.contains(pre.clients[j].uuid));
                assert(post.groups[gi].name == gname);
            } else {
                assert(post.groups[k] == pre.groups[k]);
            }
        }
    }
    assert forall|k: int| 0 <= k < post.groups.len() implies seq_unique(
        (#[trigger] post.groups[k]).clients,
    ) by {
        if k == gi {
            assert(seq_unique(pre.groups[gi].clients));
            let cs = pre.groups[gi].clients;
            assert forall|a: int, b: int|
                0 <= a < b < post.groups[gi].clients.len() implies post.groups[gi].clients[a]
                != post.groups[gi].clients[b] by {
                if b == cs.len() {
                    assert(cs[a] == post.groups[gi].clients[a]);
                    assert(cs.contains(cs[a]));
                }
            }
        } else {
            assert(seq_unique(pre.groups[k].clients));
        }
    }
    assert forall|j: int| 0 <= j < post.clients.len() implies seq_unique(
        (#[trigger] post.clients[j]).groups,
    ) by {
        if j == ci {
            assert(seq_unique(pre.clients[ci].groups));
            let gs = pre.clients[ci].groups;
            assert forall|a: int, b: int|
                0 <= a < b < post.clients[ci].groups.len() implies post.clients[ci].groups[a]
                != post.clients[ci].groups[b] by {
                if b == gs.len() {
                    assert(gs[a] == post.clients[ci].groups[a]);
                    assert(gs.contains(gs[a]));
                }
            }
        } else {
            assert(seq_unique(pre.clients[j].groups));
        }
    }
    assert forall|k: int| 0 <= k < post.groups.len() implies post.has_client(
        (post.groups[k]).owner,
    ) by {
        assert(post.groups[k].owner == pre.groups[k].owner);
        assert(pre.has_client(pre.groups[k].owner));
    }
    assert forall|j: int| 0 <= j < post.clients.len() implies post.issued.contains(
        (#[trigger] post.clients[j]).uuid,
    ) by {
        assert(post.clients[j].uuid == pre.clients[j].uuid);
    }
}

impl Concierge {
    /// Add the client to the group's member list and the group's name to
    /// the client's subscriptions. Re-subscribing is idempotent. Reports
    /// whether the group exists; changes nothing when it does not.
    pub fn subscribe(&mut self, uuid: u128, group: &String) -> (r: bool)
        requires
            old(self)@.wf(),
            old(self)@.has_client(uuid),
        ensures
            final(self)@.wf(),
            r <==> old(self)@.has_group(group@),
            !r ==> final(self)@ == old(self)@,
            r && old(self)@.member(group@, uuid) ==> final(self)@ == old(self)@,
            r && !old(self)@.member(group@, uuid) ==> ({
                let gi = old(self)@.group_i(group@);
                let ci = old(self)@.client_i(uuid);
                final(self)@.namespace == old(self)@.namespace && final(self)@.issued == old(
                    self,
                )@.issued && final(self)@.groups == old(self)@.groups.update(
                    gi,
                    with_members(
                        old(self)@.groups[gi],
                        old(self)@.groups[gi].clients.push(uuid),
                    ),
                ) && final(self)@.clients == old(self)@.clients.update(
                    ci,
                    with_groups(
                        old(self)@.clients[ci],
                        old(self)@.clients[ci].groups.push(group@),
                    ),
                )
            }),
    {
        let ghost pre = self@;
        match find_group_index(&self.groups, group) {
            None => {
                proof {
                    if pre.has_group(group@) {
                        let j = pre.group_i(group@);
                        assert(pre.groups[j] == self.groups@[j]@);
                    }
                    assert(final(self)@ =~= pre);
                }
                false
            },
            Some(k) => {
                proof {
                    assert(pre.groups[k as int].name == group@);
                    lemma_group_at(pre, k as int);
                }
                let i = match find_client_index(&self.clients, uuid) {
                    Some(i) => i,
                    None => {
                        proof {
                            let j = pre.client_i(uuid);
                            assert(pre.clients[j] == self.clients@[j]@);
                        }
                        vstd::pervasive::unreached()
                    },
                };
                proof {
                    lemma_client_at(pre, i as int);
                    lemma_member_iff_listed(pre, k as int, i as int);
                }
                let is_member = contains_u128(&self.groups[k].clients, uuid);
                if is_member {
                    proof {
                        assert(final(self)@ =~= pre);
                    }
                    true
                } else {
                    let g = vstd::std_specs::vec::vec_index_mut(&mut self.groups, k);
                    g.clients.push(uuid);
                    proof {
                        assert(self@.groups =~= pre.groups.update(
                            k as int,
                            with_members(
                                pre.groups[k as int],
                                pre.groups[k as int].clients.push(uuid),
                            ),
                        ));
                        assert(self@.clients =~= pre.clients);
                    }
                    let c = vstd::std_specs::vec::vec_index_mut(&mut self.clients, i);
                    c.add_group(group.clone());
                    proof {
                        assert(self@.clients =~= pre.clients.update(
                            i as int,
                            with_groups(
                                pre.clients[i as int],
                                pre.clients[i as int].groups.push(group@),
                            ),
                        ));
                        lemma_subscribe_preserves_wf(pre, self@, k as int, i as int, uuid);
                    }
                    true
                }
            },
        }
    }
}

/// Dropping one member from the group at `gi` together with the group's
/// name from that member's subscriptions preserves the registry invariant.
proof fn lemma_unsubscribe_preserves_wf(
    pre: ConciergeView,
    post: ConciergeView,
    gi: int,
    ci: int,
    uuid: u128,
)
    requires
        pre.wf(),
        0 <= gi < pre.groups.len(),
        0 <= ci < pre.clients.len(),
        pre.clients[ci].uuid == uuid,
        post.namespace == pre.namespace,
        post.issued == pre.issued,
        post.groups.len() == pre.groups.len(),
        forall|k: int| 0 <= k < pre.groups.len() && k != gi ==> post.groups[k] == pre.groups[k],
        post.groups[gi].name == pre.groups[gi].name,
        post.groups[gi].owner == pre.groups[gi].owner,
        seq_unique(post.groups[gi].clients),
        forall|y: u128|
            post.groups[gi].clients.contains(y) <==> (pre.groups[gi].clients.contains(y) && y
                != uuid),
        post.clients.len() == pre.clients.len(),
        forall|j: int| 0 <= j < pre.clients.len() && j != ci ==> post.clients[j] == pre.clients[j],
        post.clients[ci].uuid == uuid,
        post.clients[ci].name == pre.clients[ci].name,
        post.clients[ci].mailbox == pre.clients[ci].mailbox,
        seq_unique(post.clients[ci].groups),
        forall|m: Seq<char>|
            post.clients[ci].has_group_name(m) <==> (pre.clients[ci].has_group_name(m) && m
                != pre.groups[gi].name),
    ensures
        post.wf(),
{
    let gname = pre.groups[gi].name;
    assert forall|j: int| 0 <= j < post.clients.len() implies (#[trigger] post.clients[j]).uuid
        == pre.clients[j].uuid && post.clients[j].name == pre.clients[j].name by {}
    assert forall|u: u128| pre.has_client(u) implies post.has_client(u) by {
        let j = pre.client_i(u);
        assert(post.clients[j].uuid == u);
    }
    assert forall|k: int| 0 <= k < post.groups.len() implies (#[trigger] post.groups[k]).name
        == pre.groups[k].name && post.groups[k].owner == pre.groups[k].owner by {}
    assert forall|i: int| 0 <= i < post.namespace.len() implies post.entry_backed(i) by {
        assert(pre.entry_backed(i));
        let j = choose|j: int|
            0 <= j < pre.clients.len() && (#[trigger] pre.clients[j]).uuid == pre.namespace[i].uuid
                && pre.clients[j].name == pre.namespace[i].name;
        assert(post.clients[j].uuid == pre.namespace[i].uuid && post.clients[j].name
            == pre.namespace[i].name);
    }
    assert forall|j: int| 0 <= j < post.clients.len() implies post.client_named(j) by {
        assert(pre.client_named(j));
    }
    assert forall|k: int| 0 <= k < post.groups.len() implies post.has_client(
        (post.groups[k]).owner,
    ) by {
        assert(pre.has_client(pre.groups[k].owner));
    }
    assert forall|k: int, m: int|
        0 <= k < post.groups.len() && 0 <= m < post.groups[k].clients.len()
            implies post.member_backed(k, m) by {
        let u = post.groups[k].clients[m];
        if k == gi {
            assert(post.groups[gi].clients.contains(u));
            assert(pre.groups[gi].clients.contains(u) && u != uuid);
            let m2 = choose|m2: int|
                0 <= m2 < pre.groups[gi].clients.len() && pre.groups[gi].clients[m2] == u;
            assert(pre.member_backed(gi, m2));
            let j = choose|j: int|
                0 <= j < pre.clients.len() && (#[trigger] pre.clients[j]).uuid
                    == pre.groups[gi].clients[m2] && pre.clients[j].has_group_name(
                    pre.groups[gi].name,
                );
            assert(j != ci);
            assert(post.clients[j] == pre.clients[j]);
            assert(post.groups[gi].name == gname);
        } else {
            assert(pre.member_backed(k, m));
            let j = choose|j: int|
                0 <= j < pre.clients.len() && (#[trigger] pre.clients[j]).uuid
                    == pre.groups[k].clients[m] && pre.clients[j].has_group_name(
                    pre.groups[k].name,
                );
            if j == ci {
                assert(pre.groups[k].name != gname) by {
                    if k < gi {
                        assert(pre.groups[k].name != pre.groups[gi].name);
                    } else {
                        assert(pre.groups[gi].name != pre.groups[k].name);
                    }
                }
                assert(post.clients[ci].has_group_name(pre.groups[k].name));
            } else {
                assert(post.clients[j] == pre.clients[j]);
            }
        }
    }
    assert forall|j: int, t: int|
        0 <= j < post.clients.len() && 0 <= t < post.clients[j].groups.len()
            implies post.subscription_backed(j, t) by {
        let m = post.clients[j].groups[t];
        if j == ci {
            assert(post.clients[ci].has_group_name(m)) by {
                assert(post.clients[ci].groups[t] == m);
            }
            assert(pre.clients[ci].has_group_name(m) && m != gname);
            let t2 = choose|t2: int|
                0 <= t2 < pre.clients[ci].groups.len() && pre.clients[ci].groups[t2] == m;
            assert(pre.subscription_backed(ci, t2));
            let k = choose|k: int|
                0 <= k < pre.groups.len() && (#[trigger] pre.groups[k]).name
                    == pre.clients[ci].groups[t2] && pre.groups[k].clients.contains(
                    pre.clients[ci].uuid,
                );
            assert(k != gi);
            assert(post.groups[k] == pre.groups[k]);
        } else {
            assert(pre.subscription_backed(j, t));
            let k = choose|k: int|
                0 <= k < pre.groups.len() && (#[trigger] pre.groups[k]).name
                    == pre.clients[j].groups[t] && pre.groups[k].clients.contains(
                    pre.clients[j].uuid,
                );
            if k == gi {
                assert(pre.clients[j].uuid != uuid) by {
                    if j < ci {
                        assert(pre.clients[j].uuid != pre.clients[ci].uuid);
                    } else {
                        assert(pre.clients[ci].uuid != pre.clients[j].uuid);
                    }
                }
                assert(post.groups[gi].clients.contains(pre.clients[j].uuid));
                assert(post.groups[gi].name == pre.groups[gi].name);
            } else {
                assert(post.groups[k] == pre.groups[k]);
            }
        }
    }
    assert forall|k: int| 0 <= k < post.groups.len() implies seq_unique(
        (#[trigger] post.groups[k]).clients,
    ) by {
        if k != gi {
            assert(seq_unique(pre.groups[k].clients));
        }
    }
    assert forall|j: int| 0 <= j < post.clients.len() implies seq_unique(
        (#[trigger] post.clients[j]).groups,
    ) by {
        if j != ci {
            assert(seq_unique(pre.clients[j].groups));
        }
    }
    assert forall|j: int| 0 <= j < post.clients.len() implies post.issued.contains(
        (#[trigger] post.clients[j]).uuid,
    ) by {
        assert(pre.issued.contains(pre.clients[j].uuid));
    }
}

impl Concierge {
    /// Remove the client from the group's member list and the group's name
    /// from the client's subscriptions. Never fails for a client that is
    /// not a member: the registry is then left unchanged. Reports whether
    /// the group exists; changes nothing when it does not.
    pub fn unsubscribe(&mut self, uuid: u128, group: &String) -> (r: bool)
        requires
            old(self)@.wf(),
            old(self)@.has_client(uuid),
        ensures
            final(self)@.wf(),
            r <==> old(self)@.has_group(group@),
            !r ==> final(self)@ == old(self)@,
            r && !old(self)@.member(group@, uuid) ==> final(self)@ == old(self)@,
            r && old(self)@.member(group@, uuid) ==> ({
                let pre = old(self)@;
                let post = final(self)@;
                let gi = pre.group_i(group@);
                let ci = pre.client_i(uuid);
                post.namespace == pre.namespace && post.issued == pre.issued && post.groups.len()
                    == pre.groups.len() && (forall|k: int|
                    0 <= k < pre.groups.len() && k != gi ==> #[trigger] post.groups[k]
                        == pre.groups[k]) && post.groups[gi].name == pre.groups[gi].name
                    && post.groups[gi].owner == pre.groups[gi].owner && (forall|y: u128|
                    post.groups[gi].clients.contains(y) <==> (pre.groups[gi].clients.contains(y)
                        && y != uuid)) && post.clients.len() == pre.clients.len() && (forall|j: int|
                    0 <= j < pre.clients.len() && j != ci ==> #[trigger] post.clients[j]
                        == pre.clients[j]) && post.clients[ci].uuid == uuid
                    && post.clients[ci].name == pre.clients[ci].name && post.clients[ci].mailbox
                    == pre.clients[ci].mailbox && post.clients[ci].groups.len()
                    == pre.clients[ci].groups.len() - 1 && (forall|m: Seq<char>|
                    post.clients[ci].has_group_name(m) <==> (pre.clients[ci].has_group_name(m)
                        && m != group@))
            }),
    {
        let ghost pre = self@;
        match find_group_index(&self.groups, group) {
            None => {
                proof {
                    if pre.has_group(group@) {
                        let j = pre.group_i(group@);
                        assert(pre.groups[j] == self.groups@[j]@);
                    }
                    assert(final(self)@ =~= pre);
                }
                false
            },
            Some(k) => {
                proof {
                    assert(pre.groups[k as int].name == group@);
                    lemma_group_at(pre, k as int);
                }
                let i = match find_client_index(&self.clients, uuid) {
                    Some(i) => i,
                    None => {
                        proof {
                            let j = pre.client_i(uuid);
                            assert(pre.clients[j] == self.clients@[j]@);
                        }
                        vstd::pervasive::unreached()
                    },
                };
                proof {
                    lemma_client_at(pre, i as int);
                    lemma_member_iff_listed(pre, k as int, i as int);
                }
                let ghost was_member = pre.groups[k as int].clients.contains(uuid);
                let g = vstd::std_specs::vec::vec_index_mut(&mut self.groups, k);
                remove_u128(&mut g.clients, uuid);
                proof {
                    assert(self@.clients =~= pre.clients);
                    assert(self@.groups.len() == pre.groups.len());
                    assert forall|k2: int|
                        0 <= k2 < pre.groups.len() && k2 != k as int implies #[trigger] self@.groups[k2]
                        == pre.groups[k2] by {
                        assert(self.groups@[k2] == old(self).groups@[k2]);
                    }
                }
                let ghost mid = self@;
                let c = vstd::std_specs::vec::vec_index_mut(&mut self.clients, i);
                c.remove_group_name(group);
                proof {
                    assert(self@.groups == mid.groups);
                    assert(self@.clients.len() == pre.clients.len());
                    assert forall|j: int|
                        0 <= j < pre.clients.len() && j != i as int implies #[trigger] self@.clients[j]
                        == pre.clients[j] by {
                        assert(self.clients@[j] == old(self).clients@[j]);
                    }
                    if was_member {
                        lemma_unsubscribe_preserves_wf(pre, self@, k as int, i as int, uuid);
                    } else {
                        assert(!pre.clients[i as int].has_group_name(group@));
                        assert(self@.groups[k as int] == pre.groups[k as int]) by {
                            assert(self@.groups[k as int].clients == pre.groups[k as int].clients);
                        }
                        assert(self@.clients[i as int] == pre.clients[i as int]) by {
                            assert(self@.clients[i as int].groups == pre.clients[
                                i as int
                            ].groups);
                        }
                        assert(self@.groups =~= pre.groups);
                        assert(self@.clients =~= pre.clients);
                        assert(self@ == pre);
                    }
                }
                true
            },
        }
    }
}

/// The status frame broadcast to a group's members when the group goes
/// away under them.
pub open spec fn unsubscribed_frame(g: Seq<char>) -> PayloadOutView {
    PayloadOutView::Status { seq: None, data: StatusDataView::Unsubscribed { group: g } }
}

/// The predicate "is exactly frame `f`".
pub open spec fn frame_eq(f: PayloadOutView) -> spec_fn(PayloadOutView) -> bool {
    |p: PayloadOutView| p == f
}

/// How many times frame `f` occurs in mailbox `m`.
pub open spec fn count_frames(m: Seq<PayloadOutView>, f: PayloadOutView) -> nat {
    m.filter(frame_eq(f)).len()
}

/// Appending one frame raises its own count by one and no other count.
pub proof fn lemma_count_push(m: Seq<PayloadOutView>, x: PayloadOutView, f: PayloadOutView)
    ensures
        x == f ==> count_frames(m.push(x), f) == count_frames(m, f) + 1,
        x != f ==> count_frames(m.push(x), f) == count_frames(m, f),
{
    lemma_filter_push(m, frame_eq(f), x);
    assert(frame_eq(f)(x) == (x == f));
}

/// Push the `Unsubscribed` receipt for group `gname` into the mailbox of
/// every client in `members`, and drop `gname` from those clients'
/// subscription lists. Clients outside `members` are untouched.
fn reap_notify(clients: &mut Vec<Client>, members: &Vec<u128>, gname: &String)
    requires
        forall|j: int|
            0 <= j < old(clients)@.len() ==> seq_unique((#[trigger] old(clients)@[j])@.groups),
    ensures
        final(clients)@.len() == old(clients)@.len(),
        forall|j: int|
            0 <= j < old(clients)@.len() ==> (#[trigger] final(clients)@[j])@.uuid == old(
                clients,
            )@[j]@.uuid && final(clients)@[j]@.name == old(clients)@[j]@.name,
        forall|j: int|
            0 <= j < old(clients)@.len() && !members@.contains(old(clients)@[j]@.uuid)
                ==> (#[trigger] final(clients)@[j])@ == old(clients)@[j]@,
        forall|j: int|
            0 <= j < old(clients)@.len() && members@.contains(old(clients)@[j]@.uuid)
                ==> (#[trigger] final(clients)@[j])@.mailbox == old(clients)@[j]@.mailbox.push(
                unsubscribed_frame(gname@),
            ) && seq_unique(final(clients)@[j]@.groups) && (forall|m: Seq<char>|
                final(clients)@[j]@.has_group_name(m) <==> (old(
                    clients,
                )@[j]@.has_group_name(m) && m != gname@)),
    {
        let n = clients.len();
        let mut j: usize = 0;
        while j < n
            invariant
                n == old(clients)@.len(),
                j <= n,
                clients@.len() == n,
                forall|t: int|
                    0 <= t < n ==> seq_unique((#[trigger] old(clients)@[t])@.groups),
                forall|t: int| j <= t < n ==> #[trigger] clients@[t] == old(clients)@[t],
                forall|t: int|
                    0 <= t < j ==> (#[trigger] clients@[t])@.uuid == old(clients)@[t]@.uuid
                        && clients@[t]@.name == old(clients)@[t]@.name,
                forall|t: int|
                    0 <= t < j && !members@.contains(old(clients)@[t]@.uuid)
                        ==> (#[trigger] clients@[t])@ == old(clients)@[t]@,
                forall|t: int|
                    0 <= t < j && members@.contains(old(clients)@[t]@.uuid)
                        ==> (#[trigger] clients@[t])@.mailbox == old(clients)@[t]@.mailbox.push(
                        unsubscribed_frame(gname@),
                    ) && seq_unique(clients@[t]@.groups) && (forall|m: Seq<char>|
                        clients@[t]@.has_group_name(m) <==> (old(clients)@[t]@.has_group_name(m)
                            && m != gname@)),
            decreases n - j,
        {
            let is_member = contains_u128(members, clients[j].uuid());
            if is_member {
                let frame = PayloadOut::Status {
                    seq: None,
                    data: StatusData::Unsubscribed { group: gname.clone() },
                };
                proof {
                    assert(frame@ == unsubscribed_frame(gname@));
                }
                let c = vstd::std_specs::vec::vec_index_mut(clients, j);
                c.send(frame);
                c.remove_group_name(gname);
            }
            j = j + 1;
        }
    }

/// Membership and lookup facts after removing the group at index `k`.
pub proof fn lemma_groups_remove_facts(pre: Seq<GroupView>, post: Seq<GroupView>, k: int)
    requires
        0 <= k < pre.len(),
        post == pre.remove(k),
        forall|i: int, j: int|
            0 <= i < j < pre.len() ==> (#[trigger] pre[i]).name != (#[trigger] pre[j]).name,
    ensures
        forall|i: int, j: int|
            0 <= i < j < post.len() ==> (#[trigger] post[i]).name != (#[trigger] post[j]).name,
        forall|i: int|
            0 <= i < post.len() ==> #[trigger] post[i] == (if i < k {
                pre[i]
            } else {
                pre[i + 1]
            }),
        forall|n: Seq<char>|
            #[trigger] groups_have_name(post, n) <==> (groups_have_name(pre, n) && n
                != pre[k].name),
{
    assert forall|i: int, j: int|
        0 <= i < j < post.len() implies (#[trigger] post[i]).name != (#[trigger] post[j]).name by {
        let si: int = if i < k {
            i
        } else {
            i + 1
        };
        let sj: int = if j < k {
            j
        } else {
            j + 1
        };
        assert(post[i] == pre[si]);
        assert(post[j] == pre[sj]);
    }
    assert forall|n: Seq<char>|
        #[trigger] groups_have_name(post, n) <==> (groups_have_name(pre, n) && n
            != pre[k].name) by {
        if groups_have_name(post, n) {
            let i = choose|i: int| 0 <= i < post.len() && (#[trigger] post[i]).name == n;
            if i < k {
                assert(pre[i].name == n);
            } else {
                assert(pre[i + 1].name == n);
            }
        }
        if groups_have_name(pre, n) && n != pre[k].name {
            let i = choose|i: int| 0 <= i < pre.len() && (#[trigger] pre[i]).name == n;
            if i < k {
                assert(post[i].name == n);
            } else {
                assert(post[i - 1].name == n);
            }
        }
    }
}

/// Deleting a group and unlinking its members preserves the registry
/// invariant.
proof fn lemma_delete_group_preserves_wf(pre: ConciergeView, post: ConciergeView, k: int)
    requires
        pre.wf(),
        0 <= k < pre.groups.len(),
        post.namespace == pre.namespace,
        post.issued == pre.issued,
        post.groups == pre.groups.remove(k),
        post.clients.len() == pre.clients.len(),
        forall|j: int|
            0 <= j < pre.clients.len() ==> (#[trigger] post.clients[j]).uuid == pre.clients[j].uuid
                && post.clients[j].name == pre.clients[j].name,
        forall|j: int|
            0 <= j < pre.clients.len() && !pre.groups[k].clients.contains(pre.clients[j].uuid)
                ==> #[trigger] post.clients[j] == pre.clients[j],
        forall|j: int|
            0 <= j < pre.clients.len() && pre.groups[k].clients.contains(pre.clients[j].uuid)
                ==> seq_unique((#[trigger] post.clients[j]).groups) && (forall|m: Seq<char>|
                post.clients[j].has_group_name(m) <==> (pre.clients[j].has_group_name(m) && m
                    != pre.groups[k].name)),
    ensures
        post.wf(),
{
    let gname = pre.groups[k].name;
    lemma_groups_remove_facts(pre.groups, post.groups, k);
    assert forall|u: u128| pre.has_client(u) implies post.has_client(u) by {
        let j = pre.client_i(u);
        assert(post.clients[j].uuid == u);
    }
    assert forall|i: int| 0 <= i < post.namespace.len() implies post.entry_backed(i) by {
        assert(pre.entry_backed(i));
        let j = choose|j: int|
            0 <= j < pre.clients.len() && (#[trigger] pre.clients[j]).uuid == pre.namespace[i].uuid
                && pre.clients[j].name == pre.namespace[i].name;
        assert(post.clients[j].uuid == pre.namespace[i].uuid && post.clients[j].name
            == pre.namespace[i].name);
    }
    assert forall|j: int| 0 <= j < post.clients.len() implies post.client_named(j) by {
        assert(pre.client_named(j));
    }
    assert forall|k2: int| 0 <= k2 < post.groups.len() implies post.has_client(
        (post.groups[k2]).owner,
    ) by {
        let sk: int = if k2 < k {
            k2
        } else {
            k2 + 1
        };
        assert(post.groups[k2] == pre.groups[sk]);
        assert(pre.has_client(pre.groups[sk].owner));
    }
    assert forall|k2: int, m: int|
        0 <= k2 < post.groups.len() && 0 <= m < post.groups[k2].clients.len()
            implies post.member_backed(k2, m) by {
        let sk: int = if k2 < k {
            k2
        } else {
            k2 + 1
        };
        assert(post.groups[k2] == pre.groups[sk]);
        assert(pre.member_backed(sk, m));
        let j = choose|j: int|
            0 <= j < pre.clients.len() && (#[trigger] pre.clients[j]).uuid
                == pre.groups[sk].clients[m] && pre.clients[j].has_group_name(
                pre.groups[sk].name,
            );
        assert(pre.groups[sk].name != gname) by {
            if sk < k {
                assert(pre.groups[sk].name != pre.groups[k].name);
            } else {
                assert(pre.groups[k].name != pre.groups[sk].name);
            }
        }
        if pre.groups[k].clients.contains(pre.clients[j].uuid) {
            assert(post.clients[j].has_group_name(pre.groups[sk].name));
        } else {
            assert(post.clients[j] == pre.clients[j]);
        }
    }
    assert forall|j: int, t: int|
        0 <= j < post.clients.len() && 0 <= t < post.clients[j].groups.len()
            implies post.subscription_backed(j, t) by {
        let m = post.clients[j].groups[t];
        let was_member = pre.groups[k].clients.contains(pre.clients[j].uuid);
        assert(pre.clients[j].has_group_name(m) && m != gname) by {
            if was_member {
                assert(post.clients[j].has_group_name(m)) by {
                    assert(post.clients[j].groups[t] == m);
                }
            } else {
                assert(post.clients[j] == pre.clients[j]);
                assert(pre.clients[j].groups[t] == m);
                assert(pre.clients[j].has_group_name(m));
                if m == gname {
                    let t2 = choose|t2: int|
                        0 <= t2 < pre.clients[j].groups.len() && pre.clients[j].groups[t2] == m;
                    assert(pre.subscription_backed(j, t2));
                    let k2 = choose|k2: int|
                        0 <= k2 < pre.groups.len() && (#[trigger] pre.groups[k2]).name
                            == pre.clients[j].groups[t2] && pre.groups[k2].clients.contains(
                            pre.clients[j].uuid,
                        );
                    assert(k2 == k) by {
                        if k2 != k {
                            if k2 < k {
                                assert(pre.groups[k2].name != pre.groups[k].name);
                            } else {
                                assert(pre.groups[k].name != pre.groups[k2].name);
                            }
                        }
                    }
                    assert(false);
                }
            }
        }
        let t2 = choose|t2: int|
            0 <= t2 < pre.clients[j].groups.len() && pre.clients[j].groups[t2] == m;
        assert(pre.subscription_backed(j, t2));
        let k2 = choose|k2: int|
            0 <= k2 < pre.groups.len() && (#[trigger] pre.groups[k2]).name
                == pre.clients[j].groups[t2] && pre.groups[k2].clients.contains(
                pre.clients[j].uuid,
            );
        assert(k2 != k);
        let pk: int = if k2 < k {
            k2
        } else {
            k2 - 1
        };
        assert(post.groups[pk] == pre.groups[k2]);
        assert(post.groups[pk].name == m);
        assert(post.groups[pk].clients.contains(post.clients[j].uuid));
    }
    assert forall|k2: int| 0 <= k2 < post.groups.len() implies seq_unique(
        (#[trigger] post.groups[k2]).clients,
    ) by {
        let sk: int = if k2 < k {
            k2
        } else {
            k2 + 1
        };
        assert(post.groups[k2] == pre.groups[sk]);
        assert(seq_unique(pre.groups[sk].clients));
    }
    assert forall|j: int| 0 <= j < post.clients.len() implies seq_unique(
        (#[trigger] post.clients[j]).groups,
    ) by {
        if !pre.groups[k].clients.contains(pre.clients[j].uuid) {
            assert(post.clients[j] == pre.clients[j]);
            assert(seq_unique(pre.clients[j].groups));
        }
    }
    assert forall|j: int| 0 <= j < post.clients.len() implies post.issued.contains(
        (#[trigger] post.clients[j]).uuid,
    ) by {
        assert(pre.issued.contains(pre.clients[j].uuid));
    }
}

impl ConciergeView {
    /// A group called `n` exists and is owned by `owner`.
    pub open spec fn owned_group(self, owner: u128, n: Seq<char>) -> bool {
        self.has_group(n) && self.group(n).owner == owner
    }
}

/// Frame `t` in client `i`'s mailbox of `cur` is the `Unsubscribed`
/// receipt of some group that was owned by `owner` in `pre` and had the
/// client as a member.
pub open spec fn reap_frame_at(
    pre: ConciergeView,
    cur: ConciergeView,
    owner: u128,
    i: int,
    t: int,
) -> bool {
    exists|n: Seq<char>|
        pre.owned_group(owner, n) && pre.group(n).clients.contains(pre.clients[i].uuid)
            && cur.clients[i].mailbox[t] == #[trigger] unsubscribed_frame(n)
}

impl Concierge {
    /// Remove every group owned by `owner_id`, broadcasting exactly one
    /// `Unsubscribed` receipt per removed group to each of its members and
    /// unlinking the group from their subscription lists. Nothing else is
    /// appended to any mailbox, and no other table changes.
    pub fn remove_groups_owned_by(&mut self, owner_id: u128)
        requires
            old(self)@.wf(),
        ensures
            final(self)@.wf(),
            final(self)@.namespace == old(self)@.namespace,
            final(self)@.issued == old(self)@.issued,
            forall|n: Seq<char>|
                #[trigger] final(self)@.has_group(n) <==> (old(self)@.has_group(n) && old(
                    self,
                )@.group(n).owner != owner_id),
            forall|n: Seq<char>|
                #[trigger] final(self)@.has_group(n) ==> final(self)@.group(n) == old(
                    self,
                )@.group(n),
            final(self)@.clients.len() == old(self)@.clients.len(),
            forall|i: int|
                0 <= i < old(self)@.clients.len() ==> (#[trigger] final(self)@.clients[i]).uuid
                    == old(self)@.clients[i].uuid && final(self)@.clients[i].name == old(
                    self,
                )@.clients[i].name,
            forall|i: int, m: Seq<char>|
                0 <= i < old(self)@.clients.len() ==> ((#[trigger] final(self)@.clients[i].has_group_name(m))
                    <==> (old(self)@.clients[i].has_group_name(m) && !old(self)@.owned_group(
                    owner_id,
                    m,
                ))),
            forall|i: int|
                0 <= i < old(self)@.clients.len() ==> old(self)@.clients[i].mailbox.is_prefix_of(
                    (#[trigger] final(self)@.clients[i]).mailbox,
                ),
            forall|i: int, n: Seq<char>|
                0 <= i < old(self)@.clients.len() ==> #[trigger] count_frames(
                    final(self)@.clients[i].mailbox,
                    unsubscribed_frame(n),
                ) == count_frames(old(self)@.clients[i].mailbox, unsubscribed_frame(n)) + (if old(
                    self,
                )@.owned_group(owner_id, n) && old(self)@.group(n).clients.contains(
                    old(self)@.clients[i].uuid,
                ) {
                    1nat
                } else {
                    0nat
                }),
            forall|i: int, t: int|
                0 <= i < old(self)@.clients.len() && old(self)@.clients[i].mailbox.len() <= t
                    < final(self)@.clients[i].mailbox.len() ==> reap_frame_at(
                    old(self)@,
                    final(self)@,
                    owner_id,
                    i,
                    t,
                ),
    {
        let ghost pre = self@;
        let mut k: usize = 0;
        while k < self.groups.len()
            invariant
                pre.wf(),
                self@.wf(),
                self@.namespace == pre.namespace,
                self@.issued == pre.issued,
                self@.clients.len() == pre.clients.len(),
                k <= self.groups@.len(),
                self@.groups.len() == self.groups@.len(),
                forall|q: int| 0 <= q < k ==> (#[trigger] self@.groups[q]).owner != owner_id,
                forall|n: Seq<char>|
                    #[trigger] self@.has_group(n) ==> pre.has_group(n) && self@.group(n)
                        == pre.group(n),
                forall|n: Seq<char>|
                    pre.has_group(n) && pre.group(n).owner != owner_id ==> #[trigger] self@.has_group(
                        n,
                    ),
                forall|i: int|
                    0 <= i < pre.clients.len() ==> (#[trigger] self@.clients[i]).uuid
                        == pre.clients[i].uuid && self@.clients[i].name == pre.clients[i].name,
                forall|i: int, m: Seq<char>|
                    0 <= i < pre.clients.len() ==> (#[trigger] self@.clients[i].has_group_name(m)
                        <==> (pre.clients[i].has_group_name(m) && !(pre.owned_group(owner_id, m)
                        && !self@.has_group(m)))),
                forall|i: int|
                    0 <= i < pre.clients.len() ==> pre.clients[i].mailbox.is_prefix_of(
                        (#[trigger] self@.clients[i]).mailbox,
                    ),
                forall|i: int, n: Seq<char>|
                    0 <= i < pre.clients.len() ==> #[trigger] count_frames(
                        self@.clients[i].mailbox,
                        unsubscribed_frame(n),
                    ) == count_frames(pre.clients[i].mailbox, unsubscribed_frame(n)) + (if (
                    pre.owned_group(owner_id, n) && !self@.has_group(n) && pre.group(
                        n,
                    ).clients.contains(pre.clients[i].uuid)) {
                        1nat
                    } else {
                        0nat
                    }),
                forall|i: int, t: int|
                    0 <= i < pre.clients.len() && pre.clients[i].mailbox.len() <= t
                        < self@.clients[i].mailbox.len() ==> reap_frame_at(
                        pre,
                        self@,
                        owner_id,
                        i,
                        t,
                    ),
            decreases self.groups@.len() - k,
        {
            if self.groups[k].owner == owner_id {
                let ghost mid = self@;
                let ghost gname = self@.groups[k as int].name;
                proof {
                    lemma_group_at(mid, k as int);
                    assert(mid.owned_group(owner_id, gname));
                    assert(pre.has_group(gname) && pre.group(gname) == mid.group(gname));
                    assert(pre.owned_group(owner_id, gname));
                }
                self.delete_group_at(k);
                proof {
                    let cur = self@;
                    lemma_groups_remove_facts(mid.groups, cur.groups, k as int);
                    // Which groups survive, and unchanged.
                    assert forall|n: Seq<char>| #[trigger] cur.has_group(n) implies pre.has_group(
                        n,
                    ) && cur.group(n) == pre.group(n) by {
                        let j = cur.group_i(n);
                        lemma_group_at(cur, j);
                        let sj: int = if j < k as int {
                            j
                        } else {
                            j + 1
                        };
                        assert(cur.groups[j] == mid.groups[sj]);
                        lemma_group_at(mid, sj);
                        assert(mid.has_group(n) && mid.group(n) == cur.group(n));
                    }
                    assert forall|n: Seq<char>|
                        pre.has_group(n) && pre.group(n).owner != owner_id implies #[trigger] cur.has_group(
                        n,
                    ) by {
                        assert(mid.has_group(n));
                        assert(mid.group(n) == pre.group(n));
                        assert(n != gname) by {
                            if n == gname {
                                assert(mid.group(gname).owner == owner_id);
                            }
                        }
                        assert(groups_have_name(cur.groups, n));
                    }
                    assert(!cur.has_group(gname));
                    // The deleted group as the delete step saw it.
                    assert(mid.groups[k as int] == pre.group(gname));
                    let members = pre.group(gname).clients;
                    // Per-client bookkeeping.
                    assert forall|i: int, m: Seq<char>|
                        0 <= i < pre.clients.len() implies (#[trigger] cur.clients[i].has_group_name(
                        m,
                    ) <==> (pre.clients[i].has_group_name(m) && !(pre.owned_group(owner_id, m)
                        && !cur.has_group(m)))) by {
                        let was_member = members.contains(mid.clients[i].uuid);
                        {
                            assert(mid.clients[i].has_group_name(m) <==> (
                            pre.clients[i].has_group_name(m) && !(pre.owned_group(owner_id, m)
                                && !mid.has_group(m))));
                            assert(cur.has_group(m) <==> (mid.has_group(m) && m != gname)) by {
                                assert(cur.has_group(m) == groups_have_name(cur.groups, m));
                                assert(mid.has_group(m) == groups_have_name(mid.groups, m));
                            }
                            if !was_member {
                                assert(cur.clients[i] == mid.clients[i]);
                                if m == gname {
                                    if mid.clients[i].has_group_name(gname) {
                                        lemma_member_iff_listed(mid, k as int, i);
                                    }
                                    assert(!mid.clients[i].has_group_name(gname));
                                    assert(!pre.clients[i].has_group_name(gname)) by {
                                        assert(mid.has_group(gname));
                                    }
                                }
                            } else {
                                assert(cur.clients[i].has_group_name(m) <==> (
                                mid.clients[i].has_group_name(m) && m != gname));
                                if m == gname {
                                    assert(!cur.clients[i].has_group_name(gname));
                                    assert(pre.owned_group(owner_id, gname) && !cur.has_group(
                                        gname,
                                    ));
                                }
                            }
                        }
                    }

                    // Mailboxes.
                    assert forall|i: int|
                        0 <= i < pre.clients.len() implies pre.clients[i].mailbox.is_prefix_of(
                        (#[trigger] cur.clients[i]).mailbox,
                    ) by {
                        if members.contains(mid.clients[i].uuid) {
                            lemma_prefix_push(mid.clients[i].mailbox, unsubscribed_frame(gname));
                            lemma_prefix_trans(
                                pre.clients[i].mailbox,
                                mid.clients[i].mailbox,
                                cur.clients[i].mailbox,
                            );
                        }
                    }
                    assert forall|i: int, n: Seq<char>|
                        0 <= i < pre.clients.len() implies #[trigger] count_frames(
                        cur.clients[i].mailbox,
                        unsubscribed_frame(n),
                    ) == count_frames(pre.clients[i].mailbox, unsubscribed_frame(n)) + (if (
                    pre.owned_group(owner_id, n) && !cur.has_group(n) && pre.group(
                        n,
                    ).clients.contains(pre.clients[i].uuid)) {
                        1nat
                    } else {
                        0nat
                    }) by {
                        if members.contains(mid.clients[i].uuid) {
                            lemma_count_push(
                                mid.clients[i].mailbox,
                                unsubscribed_frame(gname),
                                unsubscribed_frame(n),
                            );
                        }
                        if n != gname {
                            assert(cur.has_group(n) <==> mid.has_group(n)) by {
                                if mid.has_group(n) {
                                    assert(groups_have_name(cur.groups, n));
                                }
                            }
                        }
                    }
                    assert forall|i: int, t: int|
                        0 <= i < pre.clients.len() && pre.clients[i].mailbox.len() <= t
                            < cur.clients[i].mailbox.len() implies reap_frame_at(
                        pre,
                        cur,
                        owner_id,
                        i,
                        t,
                    ) by {
                        if members.contains(mid.clients[i].uuid) {
                            if t < mid.clients[i].mailbox.len() {
                                assert(reap_frame_at(pre, mid, owner_id, i, t));
                                let n = choose|n: Seq<char>|
                                    pre.owned_group(owner_id, n) && pre.group(n).clients.contains(
                                        pre.clients[i].uuid,
                                    ) && mid.clients[i].mailbox[t] == #[trigger] unsubscribed_frame(
                                        n,
                                    );
                                assert(cur.clients[i].mailbox[t] == unsubscribed_frame(n));
                            } else {
                                assert(cur.clients[i].mailbox[t] == unsubscribed_frame(gname));
                            }
                        } else {
                            assert(reap_frame_at(pre, mid, owner_id, i, t));
                            let n = choose|n: Seq<char>|
                                pre.owned_group(owner_id, n) && pre.group(n).clients.contains(
                                    pre.clients[i].uuid,
                                ) && mid.clients[i].mailbox[t] == #[trigger] unsubscribed_frame(n);
                            assert(cur.clients[i].mailbox[t] == unsubscribed_frame(n));
                        }
                    }
                }
            } else {
                k = k + 1;
            }
        }
        proof {
            let cur = self@;
            assert forall|n: Seq<char>| #[trigger] cur.has_group(n) implies (pre.has_group(n)
                && pre.group(n).owner != owner_id) by {
                let j = cur.group_i(n);
                lemma_group_at(cur, j);
                assert(cur.groups[j].owner != owner_id);
            }
            assert forall|n: Seq<char>| pre.owned_group(owner_id, n) implies !cur.has_group(n) by {
                if cur.has_group(n) {
                    assert(cur.group(n) == pre.group(n));
                }
            }
        }
    }
}

/// Membership and lookup facts after removing the namespace entry at `k`.
pub proof fn lemma_namespace_remove_facts(pre: Seq<NameEntryView>, post: Seq<NameEntryView>, k: int)
    requires
        0 <= k < pre.len(),
        post == pre.remove(k),
        forall|i: int, j: int|
            0 <= i < j < pre.len() ==> (#[trigger] pre[i]).name != (#[trigger] pre[j]).name,
    ensures
        forall|i: int, j: int|
            0 <= i < j < post.len() ==> (#[trigger] post[i]).name != (#[trigger] post[j]).name,
        forall|i: int|
            0 <= i < post.len() ==> #[trigger] post[i] == (if i < k {
                pre[i]
            } else {
                pre[i + 1]
            }),
        forall|n: Seq<char>|
            #[trigger] namespace_has_name(post, n) <==> (namespace_has_name(pre, n) && n
                != pre[k].name),
{
    assert forall|i: int, j: int|
        0 <= i < j < post.len() implies (#[trigger] post[i]).name != (#[trigger] post[j]).name by {
        let si: int = if i < k {
            i
        } else {
            i + 1
        };
        let sj: int = if j < k {
            j
        } else {
            j + 1
        };
        assert(post[i] == pre[si]);
        assert(post[j] == pre[sj]);
    }
    assert forall|n: Seq<char>|
        #[trigger] namespace_has_name(post, n) <==> (namespace_has_name(pre, n) && n
            != pre[k].name) by {
        if namespace_has_name(post, n) {
            let i = choose|i: int| 0 <= i < post.len() && (#[trigger] post[i]).name == n;
            if i < k {
                assert(pre[i].name == n);
            } else {
                assert(pre[i + 1].name == n);
            }
        }
        if namespace_has_name(pre, n) && n != pre[k].name {
            let i = choose|i: int| 0 <= i < pre.len() && (#[trigger] pre[i]).name == n;
            if i < k {
                assert(post[i].name == n);
            } else {
                assert(post[i - 1].name == n);
            }
        }
    }
}

/// Removing a client that owns no group, is a member of no group, and
/// lists no group, together with its namespace entry, preserves the
/// registry invariant.
proof fn lemma_remove_client_preserves_wf(
    pre: ConciergeView,
    post: ConciergeView,
    ci: int,
    ni: int,
    uuid: u128,
)
    requires
        pre.wf(),
        0 <= ci < pre.clients.len(),
        0 <= ni < pre.namespace.len(),
        pre.clients[ci].uuid == uuid,
        pre.namespace[ni].name == pre.clients[ci].name,
        pre.namespace[ni].uuid == uuid,
        pre.clients[ci].groups.len() == 0,
        forall|k: int| 0 <= k < pre.groups.len() ==> (#[trigger] pre.groups[k]).owner != uuid,
        forall|k: int|
            0 <= k < pre.groups.len() ==> !(#[trigger] pre.groups[k]).clients.contains(uuid),
        post.clients == pre.clients.remove(ci),
        post.namespace == pre.namespace.remove(ni),
        post.groups == pre.groups,
        post.issued == pre.issued,
    ensures
        post.wf(),
{
    assert forall|i: int, j: int|
        0 <= i < j < post.clients.len() implies (#[trigger] post.clients[i]).uuid != (
    #[trigger] post.clients[j]).uuid by {
        let si: int = if i < ci {
            i
        } else {
            i + 1
        };
        let sj: int = if j < ci {
            j
        } else {
            j + 1
        };
        assert(post.clients[i] == pre.clients[si]);
        assert(post.clients[j] == pre.clients[sj]);
    }
    lemma_namespace_remove_facts(pre.namespace, post.namespace, ni);
    assert forall|u: u128| pre.has_client(u) && u != uuid implies post.has_client(u) by {
        let j = pre.client_i(u);
        assert(j != ci);
        if j < ci {
            assert(post.clients[j].uuid == u);
        } else {
            assert(post.clients[j - 1].uuid == u);
        }
    }
    assert forall|i: int| 0 <= i < post.namespace.len() implies post.entry_backed(i) by {
        let si: int = if i < ni {
            i
        } else {
            i + 1
        };
        assert(post.namespace[i] == pre.namespace[si]);
        assert(pre.entry_backed(si));
        let j = choose|j: int|
            0 <= j < pre.clients.len() && (#[trigger] pre.clients[j]).uuid
                == pre.namespace[si].uuid && pre.clients[j].name == pre.namespace[si].name;
        assert(j != ci) by {
            if j == ci {
                assert(pre.namespace[si].name == pre.clients[ci].name);
                assert(si != ni);
                if si < ni {
                    assert(pre.namespace[si].name != pre.namespace[ni].name);
                } else {
                    assert(pre.namespace[ni].name != pre.namespace[si].name);
                }
                assert(false);
            }
        }
        let pj: int = if j < ci {
            j
        } else {
            j - 1
        };
        assert(post.clients[pj] == pre.clients[j]);
    }
    assert forall|j: int| 0 <= j < post.clients.len() implies post.client_named(j) by {
        let sj: int = if j < ci {
            j
        } else {
            j + 1
        };
        assert(post.clients[j] == pre.clients[sj]);
        assert(pre.client_named(sj));
        let e = choose|e: int|
            0 <= e < pre.namespace.len() && (#[trigger] pre.namespace[e]).name
                == pre.clients[sj].name && pre.namespace[e].uuid == pre.clients[sj].uuid;
        assert(e != ni) by {
            if e == ni {
                assert(pre.clients[sj].uuid == uuid);
                assert(sj != ci);
                if sj < ci {
                    assert(pre.clients[sj].uuid != pre.clients[ci].uuid);
                } else {
                    assert(pre.clients[ci].uuid != pre.clients[sj].uuid);
                }
                assert(false);
            }
        }
        let pe: int = if e < ni {
            e
        } else {
            e - 1
        };
        assert(post.namespace[pe] == pre.namespace[e]);
    }
    assert forall|k: int| 0 <= k < post.groups.len() implies post.has_client(
        (post.groups[k]).owner,
    ) by {
        assert(pre.has_client(pre.groups[k].owner));
        assert(pre.groups[k].owner != uuid);
    }
    assert forall|k: int, m: int|
        0 <= k < post.groups.len() && 0 <= m < post.groups[k].clients.len()
            implies post.member_backed(k, m) by {
        assert(pre.member_backed(k, m));
        let j = choose|j: int|
            0 <= j < pre.clients.len() && (#[trigger] pre.clients[j]).uuid
                == pre.groups[k].clients[m] && pre.clients[j].has_group_name(pre.groups[k].name);
        assert(j != ci) by {
            if j == ci {
                assert(pre.groups[k].clients.contains(uuid)) by {
                    assert(pre.groups[k].clients[m] == uuid);
                }
                assert(false);
            }
        }
        let pj: int = if j < ci {
            j
        } else {
            j - 1
        };
        assert(post.clients[pj] == pre.clients[j]);
    }
    assert forall|j: int, t: int|
        0 <= j < post.clients.len() && 0 <= t < post.clients[j].groups.len()
            implies post.subscription_backed(j, t) by {
        let sj: int = if j < ci {
            j
        } else {
            j + 1
        };
        assert(post.clients[j] == pre.clients[sj]);
        assert(pre.subscription_backed(sj, t));
        let k = choose|k: int|
            0 <= k < pre.groups.len() && (#[trigger] pre.groups[k]).name
                == pre.clients[sj].groups[t] && pre.groups[k].clients.contains(
                pre.clients[sj].uuid,
            );
        assert(post.groups[k] == pre.groups[k]);
    }
    assert forall|k: int| 0 <= k < post.groups.len() implies seq_unique(
        (#[trigger] post.groups[k]).clients,
    ) by {
        assert(seq_unique(pre.groups[k].clients));
    }
    assert forall|j: int| 0 <= j < post.clients.len() implies seq_unique(
        (#[trigger] post.clients[j]).groups,
    ) && post.issued.contains((post.clients[j]).uuid) by {
        let sj: int = if j < ci {
            j
        } else {
            j + 1
        };
        assert(post.clients[j] == pre.clients[sj]);
        assert(seq_unique(pre.clients[sj].groups));
        assert(pre.issued.contains(pre.clients[sj].uuid));
    }
}

/// Why a group deletion request did not delete.
#[derive(Debug, Clone, Copy, PartialEq, Eq)]
pub enum GroupRemoval {
    Deleted,
    NotFound,
    NotOwner,
}

impl Concierge {
    /// Delete the group at index `k`: broadcast `Unsubscribed` to its
    /// members, unlink it from their subscription lists, and drop it.
    fn delete_group_at(&mut self, k: usize)
        requires
            old(self)@.wf(),
            k < old(self)@.groups.len(),
        ensures
            final(self)@.wf(),
            final(self)@.namespace == old(self)@.namespace,
            final(self)@.issued == old(self)@.issued,
            final(self)@.groups == old(self)@.groups.remove(k as int),
            final(self)@.clients.len() == old(self)@.clients.len(),
            forall|j: int|
                0 <= j < old(self)@.clients.len() ==> (#[trigger] final(self)@.clients[j]).uuid
                    == old(self)@.clients[j].uuid && final(self)@.clients[j].name == old(
                    self,
                )@.clients[j].name,
            forall|j: int|
                0 <= j < old(self)@.clients.len() && !old(self)@.groups[k as int].clients.contains(
                    old(self)@.clients[j].uuid,
                ) ==> #[trigger] final(self)@.clients[j] == old(self)@.clients[j],
            forall|j: int|
                0 <= j < old(self)@.clients.len() && old(self)@.groups[k as int].clients.contains(
                    old(self)@.clients[j].uuid,
                ) ==> (#[trigger] final(self)@.clients[j]).mailbox == old(
                    self,
                )@.clients[j].mailbox.push(unsubscribed_frame(old(self)@.groups[k as int].name))
                    && (forall|m: Seq<char>|
                    final(self)@.clients[j].has_group_name(m) <==> (old(
                        self,
                    )@.clients[j].has_group_name(m) && m != old(self)@.groups[k as int].name)),
    {
        let ghost pre = self@;
        let g = self.groups.remove(k);
        proof {
            assert(self@.groups =~= pre.groups.remove(k as int));
            assert(self@.clients =~= pre.clients);
            assert(g@ == pre.groups[k as int]);
        }
        proof {
            assert forall|j: int| 0 <= j < self.clients@.len() implies seq_unique(
                (#[trigger] self.clients@[j])@.groups,
            ) by {
                assert(pre.clients[j] == self.clients@[j]@);
            }
        }
        reap_notify(&mut self.clients, &g.clients, &g.name);
        proof {
            lemma_delete_group_preserves_wf(pre, self@, k as int);
        }
    }

    /// Remove a group if the requester owns it. Members receive exactly
    /// one `Unsubscribed` receipt and the group disappears from their
    /// subscription lists; otherwise nothing changes.
    pub fn remove_group(&mut self, group: &String, owner_id: u128) -> (r: GroupRemoval)
        requires
            old(self)@.wf(),
        ensures
            final(self)@.wf(),
            r == GroupRemoval::NotFound <==> !old(self)@.has_group(group@),
            r == GroupRemoval::NotOwner <==> (old(self)@.has_group(group@) && old(self)@.group(
                group@,
            ).owner != owner_id),
            r == GroupRemoval::Deleted <==> (old(self)@.has_group(group@) && old(self)@.group(
                group@,
            ).owner == owner_id),
            r != GroupRemoval::Deleted ==> final(self)@ == old(self)@,
            r == GroupRemoval::Deleted ==> ({
                let pre = old(self)@;
                let post = final(self)@;
                let gi = pre.group_i(group@);
                post.namespace == pre.namespace && post.issued == pre.issued && post.groups
                    == pre.groups.remove(gi) && post.clients.len() == pre.clients.len() && (
                forall|j: int|
                    0 <= j < pre.clients.len() ==> (#[trigger] post.clients[j]).uuid
                        == pre.clients[j].uuid && post.clients[j].name == pre.clients[j].name)
                    && (forall|j: int|
                    0 <= j < pre.clients.len() && !pre.groups[gi].clients.contains(
                        pre.clients[j].uuid,
                    ) ==> #[trigger] post.clients[j] == pre.clients[j]) && (forall|j: int|
                    0 <= j < pre.clients.len() && pre.groups[gi].clients.contains(
                        pre.clients[j].uuid,
                    ) ==> (#[trigger] post.clients[j]).mailbox == pre.clients[j].mailbox.push(
                        unsubscribed_frame(group@),
                    ) && (forall|m: Seq<char>|
                        post.clients[j].has_group_name(m) <==> (pre.clients[j].has_group_name(m)
                            && m != group@)))
            }),
    {
        let ghost pre = self@;
        match find_group_index(&self.groups, group) {
            None => {
                proof {
                    if pre.has_group(group@) {
                        let j = pre.group_i(group@);
                        assert(pre.groups[j] == self.groups@[j]@);
                    }
                    assert(final(self)@ =~= pre);
                }
                GroupRemoval::NotFound
            },
            Some(k) => {
                proof {
                    assert(pre.groups[k as int].name == group@);
                    lemma_group_at(pre, k as int);
                }
                if self.groups[k].owner != owner_id {
                    proof {
                        assert(final(self)@ =~= pre);
                    }
                    GroupRemoval::NotOwner
                } else {
                    self.delete_group_at(k);
                    GroupRemoval::Deleted
                }
            },
        }
    }
}

impl Concierge {
    /// Remove a client from the clients table, the namespace, its owned
    /// groups (reaping them with `Unsubscribed` broadcasts to their
    /// members) and every member list. Returns the removed client, or
    /// `None` — changing nothing — when no such client is connected.
    pub fn remove_client(&mut self, uuid: u128) -> (r: Option<Client>)
        requires
            old(self)@.wf(),
        ensures
            final(self)@.wf(),
            r is Some <==> old(self)@.has_client(uuid),
            r is None ==> final(self)@ == old(self)@,
            r is Some ==> ({
                let pre = old(self)@;
                let post = final(self)@;
                let ci = pre.client_i(uuid);
                r->0@.uuid == uuid && r->0@.name == pre.client(uuid).name && post.issued
                    == pre.issued && post.namespace == pre.namespace.remove(
                    pre.name_i(pre.client(uuid).name),
                ) && !post.has_client(uuid) && (forall|u: u128|
                    #[trigger] post.has_client(u) <==> (pre.has_client(u) && u != uuid)) && (
                forall|n: Seq<char>|
                    #[trigger] post.has_name(n) <==> (pre.has_name(n) && n != pre.client(
                        uuid,
                    ).name)) && (forall|n: Seq<char>|
                    #[trigger] post.has_group(n) <==> (pre.has_group(n) && pre.group(n).owner
                        != uuid)) && (forall|n: Seq<char>|
                    #[trigger] post.has_group(n) ==> post.group(n).owner == pre.group(n).owner && (
                    forall|y: u128|
                        post.group(n).clients.contains(y) <==> (pre.group(n).clients.contains(y)
                            && y != uuid))) && post.clients.len() == pre.clients.len() - 1 && (
                forall|j: int|
                    0 <= j < post.clients.len() ==> #[trigger] post.clients[j].uuid
                        == pre.clients[client_shift(j, ci)].uuid && post.clients[j].name
                        == pre.clients[client_shift(j, ci)].name) && (forall|j: int, m: Seq<char>|
                    0 <= j < post.clients.len() ==> ((#[trigger] post.clients[j].has_group_name(m))
                        <==> (pre.clients[client_shift(j, ci)].has_group_name(m)
                        && !pre.owned_group(uuid, m)))) && (forall|j: int|
                    0 <= j < post.clients.len() ==> pre.clients[client_shift(
                        j,
                        ci,
                    )].mailbox.is_prefix_of((#[trigger] post.clients[j]).mailbox)) && (forall|
                    j: int,
                    n: Seq<char>,
                |
                    0 <= j < post.clients.len() ==> #[trigger] count_frames(
                        post.clients[j].mailbox,
                        unsubscribed_frame(n),
                    ) == count_frames(
                        pre.clients[client_shift(j, ci)].mailbox,
                        unsubscribed_frame(n),
                    ) + (if pre.owned_group(uuid, n) && pre.group(n).clients.contains(
                        pre.clients[client_shift(j, ci)].uuid,
                    ) {
                        1nat
                    } else {
                        0nat
                    })) && (forall|j: int, t: int|
                    #![trigger post.clients[j].mailbox[t]]
                    0 <= j < post.clients.len() && pre.clients[client_shift(j, ci)].mailbox.len()
                        <= t < post.clients[j].mailbox.len() ==> (exists|n: Seq<char>|
                        pre.owned_group(uuid, n) && pre.group(n).clients.contains(
                            pre.clients[client_shift(j, ci)].uuid,
                        ) && post.clients[j].mailbox[t] == #[trigger] unsubscribed_frame(n)))
            }),
    {
        let ghost pre = self@;
        let i = match find_client_index(&self.clients, uuid) {
            None => {
                proof {
                    if pre.has_client(uuid) {
                        let j = pre.client_i(uuid);
                        assert(pre.clients[j] == self.clients@[j]@);
                    }
                    assert(final(self)@ =~= pre);
                }
                return None;
            },
            Some(i) => i,
        };
        proof {
            lemma_client_at(pre, i as int);
        }
        // Reap the groups this client owns, with their broadcasts.
        self.remove_groups_owned_by(uuid);
        let ghost s1 = self@;
        proof {
            assert(s1.clients[i as int].uuid == uuid);
            assert forall|k: int| 0 <= k < s1.groups.len() implies (#[trigger] s1.groups[k]).owner
                != uuid by {
                lemma_group_at(s1, k);
                assert(s1.has_group(s1.groups[k].name));
            }
        }
        // Leave every group the client is still subscribed to.
        loop
            invariant
                s1.wf(),
                self@.wf(),
                i < s1.clients.len(),
                s1.clients[i as int].uuid == uuid,
                self@.clients.len() == s1.clients.len(),
                self@.namespace == s1.namespace,
                self@.issued == s1.issued,
                forall|j: int|
                    0 <= j < s1.clients.len() && j != i as int ==> #[trigger] self@.clients[j]
                        == s1.clients[j],
                self@.clients[i as int].uuid == uuid,
                self@.clients[i as int].name == s1.clients[i as int].name,
                self@.clients[i as int].mailbox == s1.clients[i as int].mailbox,
                self@.groups.len() == s1.groups.len(),
                forall|k: int|
                    0 <= k < s1.groups.len() ==> (#[trigger] self@.groups[k]).name
                        == s1.groups[k].name && self@.groups[k].owner == s1.groups[k].owner,
                forall|k: int, y: u128|
                    0 <= k < s1.groups.len() && y != uuid ==> ((#[trigger] self@.groups[k].clients.contains(
                        y,
                    )) <==> s1.groups[k].clients.contains(y)),
            ensures
                self@.wf(),
                self@.clients[i as int].groups.len() == 0,
                self@.clients.len() == s1.clients.len(),
                self@.namespace == s1.namespace,
                self@.issued == s1.issued,
                forall|j: int|
                    0 <= j < s1.clients.len() && j != i as int ==> #[trigger] self@.clients[j]
                        == s1.clients[j],
                self@.clients[i as int].uuid == uuid,
                self@.clients[i as int].name == s1.clients[i as int].name,
                self@.groups.len() == s1.groups.len(),
                forall|k: int|
                    0 <= k < s1.groups.len() ==> (#[trigger] self@.groups[k]).name
                        == s1.groups[k].name && self@.groups[k].owner == s1.groups[k].owner,
                forall|k: int, y: u128|
                    0 <= k < s1.groups.len() && y != uuid ==> ((#[trigger] self@.groups[k].clients.contains(
                        y,
                    )) <==> s1.groups[k].clients.contains(y)),
            decreases self@.clients[i as int].groups.len(),
        {
            let next = self.clients[i].first_group();
            match next {
                None => {
                    break ;
                },
                Some(gname) => {
                    proof {
                        let cur = self@;
                        assert(cur.clients[i as int].has_group_name(gname@)) by {
                            assert(cur.clients[i as int].groups[0] == gname@);
                        }
                        assert(cur.subscription_backed(i as int, 0));
                        let k = choose|k: int|
                            0 <= k < cur.groups.len() && (#[trigger] cur.groups[k]).name
                                == cur.clients[i as int].groups[0] && cur.groups[k].clients.contains(
                                cur.clients[i as int].uuid,
                            );
                        assert(cur.groups[k].name == gname@);
                        assert(groups_have_name(cur.groups, gname@));
                        lemma_group_at(cur, k);
                        assert(cur.member(gname@, uuid));
                        lemma_client_at(cur, i as int);
                    }
                    self.unsubscribe(uuid, &gname);
                },
            }
        }
        let ghost s2 = self@;
        proof {
            assert(s2.clients[i as int].groups.len() == 0);
            assert forall|k: int|
                0 <= k < s2.groups.len() implies !(#[trigger] s2.groups[k]).clients.contains(
                uuid,
            ) by {
                if s2.groups[k].clients.contains(uuid) {
                    let m = choose|m: int|
                        0 <= m < s2.groups[k].clients.len() && s2.groups[k].clients[m] == uuid;
                    assert(s2.member_backed(k, m));
                    let j = choose|j: int|
                        0 <= j < s2.clients.len() && (#[trigger] s2.clients[j]).uuid
                            == s2.groups[k].clients[m] && s2.clients[j].has_group_name(
                            s2.groups[k].name,
                        );
                    assert(j == i as int) by {
                        if j != i as int {
                            if j < i as int {
                                assert(s2.clients[j].uuid != s2.clients[i as int].uuid);
                            } else {
                                assert(s2.clients[i as int].uuid != s2.clients[j].uuid);
                            }
                        }
                    }
                    assert(false);
                }
            }
        }
        // Take the client out of the table and the namespace.
        let cname = self.clients[i].make_payload().name;
        let client = self.clients.remove(i);
        proof {
            assert(self@.clients =~= s2.clients.remove(i as int));
        }
        let ni = match find_name_index(&self.namespace, &cname) {
            None => {
                proof {
                    assert(s2.client_named(i as int));
                    let e = choose|e: int|
                        0 <= e < s2.namespace.len() && (#[trigger] s2.namespace[e]).name
                            == s2.clients[i as int].name && s2.namespace[e].uuid == s2.clients[
                            i as int
                        ].uuid;
                    assert(s2.namespace[e] == self.namespace@[e]@);
                }
                vstd::pervasive::unreached()
            },
            Some(ni) => ni,
        };
        proof {
            assert(s2.namespace[ni as int].name == cname@);
            assert(s2.namespace[ni as int].uuid == uuid) by {
                assert(s2.client_named(i as int));
                let e = choose|e: int|
                    0 <= e < s2.namespace.len() && (#[trigger] s2.namespace[e]).name
                        == s2.clients[i as int].name && s2.namespace[e].uuid == s2.clients[
                        i as int
                    ].uuid;
                assert(e == ni as int) by {
                    if e != ni as int {
                        if e < ni as int {
                            assert(s2.namespace[e].name != s2.namespace[ni as int].name);
                        } else {
                            assert(s2.namespace[ni as int].name != s2.namespace[e].name);
                        }
                    }
                }
            }
        }
        self.namespace.remove(ni);
        proof {
            let post = self@;
            assert(post.namespace =~= s2.namespace.remove(ni as int));
            assert(post.groups =~= s2.groups);
            assert(post.issued =~= s2.issued);
            lemma_remove_client_preserves_wf(s2, post, i as int, ni as int, uuid);
            lemma_remove_client_summary(pre, s1, s2, post, i as int, ni as int, uuid);
        }
        Some(client)
    }
}

/// Chains the three stages of a client removal — reaping owned groups,
/// leaving subscribed groups, dropping the client and its name — into the
/// facts `remove_client` promises about the whole step.
proof fn lemma_remove_client_summary(
    pre: ConciergeView,
    s1: ConciergeView,
    s2: ConciergeView,
    post: ConciergeView,
    ci: int,
    ni: int,
    uuid: u128,
)
    requires
        pre.wf(),
        s1.wf(),
        s2.wf(),
        0 <= ci < pre.clients.len(),
        pre.clients[ci].uuid == uuid,
        // After reaping owned groups:
        s1.namespace == pre.namespace,
        s1.issued == pre.issued,
        forall|n: Seq<char>|
            #[trigger] s1.has_group(n) <==> (pre.has_group(n) && pre.group(n).owner != uuid),
        forall|n: Seq<char>| #[trigger] s1.has_group(n) ==> s1.group(n) == pre.group(n),
        s1.clients.len() == pre.clients.len(),
        forall|i: int|
            0 <= i < pre.clients.len() ==> (#[trigger] s1.clients[i]).uuid == pre.clients[i].uuid
                && s1.clients[i].name == pre.clients[i].name,
        forall|i: int, m: Seq<char>|
            0 <= i < pre.clients.len() ==> ((#[trigger] s1.clients[i].has_group_name(m)) <==> (
            pre.clients[i].has_group_name(m) && !pre.owned_group(uuid, m))),
        forall|i: int|
            0 <= i < pre.clients.len() ==> pre.clients[i].mailbox.is_prefix_of(
                (#[trigger] s1.clients[i]).mailbox,
            ),
        forall|i: int, n: Seq<char>|
            0 <= i < pre.clients.len() ==> #[trigger] count_frames(
                s1.clients[i].mailbox,
                unsubscribed_frame(n),
            ) == count_frames(pre.clients[i].mailbox, unsubscribed_frame(n)) + (if pre.owned_group(
                uuid,
                n,
            ) && pre.group(n).clients.contains(pre.clients[i].uuid) {
                1nat
            } else {
                0nat
            }),
        forall|i: int, t: int|
            0 <= i < pre.clients.len() && pre.clients[i].mailbox.len() <= t
                < s1.clients[i].mailbox.len() ==> reap_frame_at(pre, s1, uuid, i, t),
        // After leaving subscribed groups:
        s2.clients.len() == s1.clients.len(),
        s2.namespace == s1.namespace,
        s2.issued == s1.issued,
        forall|j: int|
            0 <= j < s1.clients.len() && j != ci ==> #[trigger] s2.clients[j] == s1.clients[j],
        s2.clients[ci].uuid == uuid,
        s2.clients[ci].name == s1.clients[ci].name,
        s2.groups.len() == s1.groups.len(),
        forall|k: int|
            0 <= k < s1.groups.len() ==> (#[trigger] s2.groups[k]).name == s1.groups[k].name && (
            s2.groups[k]).owner == s1.groups[k].owner,
        forall|k: int, y: u128|
            0 <= k < s1.groups.len() && y != uuid ==> ((#[trigger] s2.groups[k].clients.contains(
                y,
            )) <==> s1.groups[k].clients.contains(y)),
        forall|k: int|
            0 <= k < s2.groups.len() ==> !(#[trigger] s2.groups[k]).clients.contains(uuid),
        // After dropping the client and its namespace entry:
        0 <= ni < s2.namespace.len(),
        s2.namespace[ni].name == s2.clients[ci].name,
        post.clients == s2.clients.remove(ci),
        post.namespace == s2.namespace.remove(ni),
        post.groups == s2.groups,
        post.issued == s2.issued,
    ensures
        pre.client_i(uuid) == ci,
        post.issued == pre.issued,
        post.namespace == pre.namespace.remove(pre.name_i(pre.client(uuid).name)),
        !post.has_client(uuid),
        forall|u: u128| #[trigger] post.has_client(u) <==> (pre.has_client(u) && u != uuid),
        forall|n: Seq<char>|
            #[trigger] post.has_name(n) <==> (pre.has_name(n) && n != pre.client(uuid).name),
        forall|n: Seq<char>|
            #[trigger] post.has_group(n) <==> (pre.has_group(n) && pre.group(n).owner != uuid),
        forall|n: Seq<char>|
            #[trigger] post.has_group(n) ==> post.group(n).owner == pre.group(n).owner && (forall|
                y: u128,
            |
                post.group(n).clients.contains(y) <==> (pre.group(n).clients.contains(y) && y
                    != uuid)),
        post.clients.len() == pre.clients.len() - 1,
        forall|j: int|
            0 <= j < post.clients.len() ==> #[trigger] post.clients[j].uuid == pre.clients[
                client_shift(j, ci)
            ].uuid && post.clients[j].name == pre.clients[client_shift(j, ci)].name,
        forall|j: int, m: Seq<char>|
            0 <= j < post.clients.len() ==> ((#[trigger] post.clients[j].has_group_name(m)) <==> (
            pre.clients[client_shift(j, ci)].has_group_name(m) && !pre.owned_group(uuid, m))),
        forall|j: int|
            0 <= j < post.clients.len() ==> pre.clients[client_shift(j, ci)].mailbox.is_prefix_of(
                (#[trigger] post.clients[j]).mailbox,
            ),
        forall|j: int, n: Seq<char>|
            0 <= j < post.clients.len() ==> #[trigger] count_frames(
                post.clients[j].mailbox,
                unsubscribed_frame(n),
            ) == count_frames(pre.clients[client_shift(j, ci)].mailbox, unsubscribed_frame(n)) + (
            if pre.owned_group(uuid, n) && pre.group(n).clients.contains(
                pre.clients[client_shift(j, ci)].uuid,
            ) {
                1nat
            } else {
                0nat
            }),
        forall|j: int, t: int|
            #![trigger post.clients[j].mailbox[t]]
            0 <= j < post.clients.len() && pre.clients[client_shift(j, ci)].mailbox.len() <= t
                < post.clients[j].mailbox.len() ==> (exists|n: Seq<char>|
                pre.owned_group(uuid, n) && pre.group(n).clients.contains(
                    pre.clients[client_shift(j, ci)].uuid,
                ) && post.clients[j].mailbox[t] == #[trigger] unsubscribed_frame(n)),
{
    lemma_client_at(pre, ci);
    let cname = pre.client(uuid).name;
    assert(s1.clients[ci].name == pre.clients[ci].name);
    assert(s2.clients[ci].name == cname);
    assert(pre.namespace[ni].name == cname);
    lemma_name_at(pre, ni);
    assert(pre.name_i(cname) == ni);
    lemma_namespace_remove_facts(s2.namespace, post.namespace, ni);
    // Survivor indexing.
    assert forall|j: int| 0 <= j < post.clients.len() implies #[trigger] post.clients[j]
        == s2.clients[client_shift(j, ci)] && client_shift(j, ci) != ci && s2.clients[client_shift(
        j,
        ci,
    )] == s1.clients[client_shift(j, ci)] by {}
    // Client sets.
    assert(!post.has_client(uuid)) by {
        if post.has_client(uuid) {
            let j = choose|j: int|
                0 <= j < post.clients.len() && (#[trigger] post.clients[j]).uuid == uuid;
            let sj = client_shift(j, ci);
            assert(pre.clients[sj].uuid == uuid);
            if sj < ci {
                assert(pre.clients[sj].uuid != pre.clients[ci].uuid);
            } else {
                assert(pre.clients[ci].uuid != pre.clients[sj].uuid);
            }
        }
    }
    assert forall|u: u128| #[trigger] post.has_client(u) <==> (pre.has_client(u) && u
        != uuid) by {
        if post.has_client(u) {
            let j = choose|j: int|
                0 <= j < post.clients.len() && (#[trigger] post.clients[j]).uuid == u;
            let sj = client_shift(j, ci);
            assert(pre.clients[sj].uuid == u);
            assert(pre.has_client(u));
            assert(u != uuid);
        }
        if pre.has_client(u) && u != uuid {
            let j = pre.client_i(u);
            assert(pre.clients[j].uuid == u);
            assert(j != ci);
            let pj: int = if j < ci {
                j
            } else {
                j - 1
            };
            assert(post.clients[pj] == s2.clients[j]);
            assert(post.clients[pj].uuid == u);
        }
    }
    // Group sets: the tables of s2 and s1 name the same groups.
    assert forall|n: Seq<char>| #[trigger] s2.has_group(n) <==> s1.has_group(n) by {
        if groups_have_name(s2.groups, n) {
            let k = choose|k: int| 0 <= k < s2.groups.len() && (#[trigger] s2.groups[k]).name == n;
            assert(s1.groups[k].name == n);
        }
        if groups_have_name(s1.groups, n) {
            let k = choose|k: int| 0 <= k < s1.groups.len() && (#[trigger] s1.groups[k]).name == n;
            assert(s2.groups[k].name == n);
        }
    }
    assert forall|n: Seq<char>| #[trigger] post.has_group(n) <==> (pre.has_group(n) && pre.group(
        n,
    ).owner != uuid) by {
        assert(post.has_group(n) == groups_have_name(post.groups, n));
        assert(s2.has_group(n) == groups_have_name(s2.groups, n));
        assert(s1.has_group(n) <==> (pre.has_group(n) && pre.group(n).owner != uuid));
    }
    assert forall|n: Seq<char>| #[trigger] post.has_group(n) implies post.group(n).owner
        == pre.group(n).owner && (forall|y: u128|
        post.group(n).clients.contains(y) <==> (pre.group(n).clients.contains(y) && y
            != uuid)) by {
        let k = post.group_i(n);
        lemma_group_at(post, k);
        assert(s2.groups[k].name == n);
        assert(s1.groups[k].name == n);
        lemma_group_at(s1, k);
        assert(s1.group(n) == s1.groups[k]);
        assert(s1.has_group(n));
        assert(s1.group(n) == pre.group(n));
        assert forall|y: u128|
            post.group(n).clients.contains(y) <==> (pre.group(n).clients.contains(y) && y
                != uuid) by {
            if y != uuid {
                assert(s2.groups[k].clients.contains(y) <==> s1.groups[k].clients.contains(y));
            } else {
                assert(!s2.groups[k].clients.contains(uuid));
            }
        }
    }
    // Per-surviving-client facts.
    assert forall|j: int|
        0 <= j < post.clients.len() implies #[trigger] post.clients[j].uuid == pre.clients[
        client_shift(j, ci)
    ].uuid && post.clients[j].name == pre.clients[client_shift(j, ci)].name by {
        let sj = client_shift(j, ci);
        assert(post.clients[j] == s1.clients[sj]);
    }
    assert forall|j: int, m: Seq<char>|
        0 <= j < post.clients.len() implies ((#[trigger] post.clients[j].has_group_name(m)) <==> (
    pre.clients[client_shift(j, ci)].has_group_name(m) && !pre.owned_group(uuid, m))) by {
        let sj = client_shift(j, ci);
        assert(post.clients[j] == s1.clients[sj]);
        assert(s1.clients[sj].has_group_name(m) <==> (pre.clients[sj].has_group_name(m)
            && !pre.owned_group(uuid, m)));
    }
    assert forall|j: int|
        0 <= j < post.clients.len() implies pre.clients[client_shift(
        j,
        ci,
    )].mailbox.is_prefix_of((#[trigger] post.clients[j]).mailbox) by {
        let sj = client_shift(j, ci);
        assert(post.clients[j] == s1.clients[sj]);
    }
    assert forall|j: int, n: Seq<char>|
        0 <= j < post.clients.len() implies #[trigger] count_frames(
        post.clients[j].mailbox,
        unsubscribed_frame(n),
    ) == count_frames(pre.clients[client_shift(j, ci)].mailbox, unsubscribed_frame(n)) + (
    if pre.owned_group(uuid, n) && pre.group(n).clients.contains(
        pre.clients[client_shift(j, ci)].uuid,
    ) {
        1nat
    } else {
        0nat
    }) by {
        let sj = client_shift(j, ci);
        assert(post.clients[j] == s1.clients[sj]);
        assert(count_frames(s1.clients[sj].mailbox, unsubscribed_frame(n)) == count_frames(
            pre.clients[sj].mailbox,
            unsubscribed_frame(n),
        ) + (if pre.owned_group(uuid, n) && pre.group(n).clients.contains(pre.clients[sj].uuid) {
            1nat
        } else {
            0nat
        }));
    }
    assert forall|j: int, t: int|
        #![trigger post.clients[j].mailbox[t]]
        0 <= j < post.clients.len() && pre.clients[client_shift(j, ci)].mailbox.len() <= t
            < post.clients[j].mailbox.len() implies (exists|n: Seq<char>|
        pre.owned_group(uuid, n) && pre.group(n).clients.contains(
            pre.clients[client_shift(j, ci)].uuid,
        ) && post.clients[j].mailbox[t] == #[trigger] unsubscribed_frame(n)) by {
        let sj = client_shift(j, ci);
        assert(reap_frame_at(pre, s1, uuid, sj, t));
        let n = choose|n: Seq<char>|
            pre.owned_group(uuid, n) && pre.group(n).clients.contains(pre.clients[sj].uuid)
                && s1.clients[sj].mailbox[t] == #[trigger] unsubscribed_frame(n);
        assert(post.clients[j].mailbox[t] == unsubscribed_frame(n));
    }
}

fn clone_u128s(v: &Vec<u128>) -> (r: Vec<u128>)
    ensures
        r@ == v@,
{
    let mut r: Vec<u128> = Vec::new();
    let mut i: usize = 0;
    while i < v.len()
        invariant
            i <= v@.len(),
            r@.len() == i,
            forall|j: int| 0 <= j < i ==> r@[j] == v@[j],
        decreases v@.len() - i,
    {
        r.push(v[i]);
        i = i + 1;
    }
    proof {
        assert(r@ =~= v@);
    }
    r
}

impl Concierge {
    /// Remove a name from the namespace. This is a teardown primitive: it
    /// touches the namespace alone, so callers must pair it with the
    /// matching client removal to keep the registry invariant.
    pub fn remove_name(&mut self, name: &String)
        requires
            old(self)@.namespace_unique(),
        ensures
            final(self)@.clients == old(self)@.clients,
            final(self)@.groups == old(self)@.groups,
            final(self)@.issued == old(self)@.issued,
            final(self)@.namespace_unique(),
            !old(self)@.has_name(name@) ==> final(self)@ == old(self)@,
            forall|n: Seq<char>|
                #[trigger] final(self)@.has_name(n) <==> (old(self)@.has_name(n) && n != name@),
    {
        let ghost pre = self@;
        match find_name_index(&self.namespace, name) {
            None => {
                proof {
                    assert(!pre.has_name(name@)) by {
                        if pre.has_name(name@) {
                            let j = pre.name_i(name@);
                            assert(pre.namespace[j] == self.namespace@[j]@);
                        }
                    }
                    assert(final(self)@ =~= pre);
                }
            },
            Some(i) => {
                self.namespace.remove(i);
                proof {
                    assert(self@.namespace =~= pre.namespace.remove(i as int));
                    assert(pre.namespace[i as int].name == name@);
                    lemma_namespace_remove_facts(pre.namespace, self@.namespace, i as int);
                    assert(self@.clients =~= pre.clients);
                    assert(self@.groups =~= pre.groups);
                    assert(self@.issued =~= pre.issued);
                }
            },
        }
    }

    /// Remove a client id from every group's member list. This is a
    /// teardown primitive: the subscription lists of a still-connected
    /// client are not touched, so under the registry invariant it only
    /// makes sense — and provably changes nothing — once the client is
    /// gone.
    pub fn remove_from_all_groups(&mut self, uuid: u128)
        requires
            old(self)@.members_unique(),
        ensures
            final(self)@.clients == old(self)@.clients,
            final(self)@.namespace == old(self)@.namespace,
            final(self)@.issued == old(self)@.issued,
            final(self)@.groups.len() == old(self)@.groups.len(),
            final(self)@.members_unique(),
            forall|k: int|
                0 <= k < old(self)@.groups.len() ==> (#[trigger] final(self)@.groups[k]).name
                    == old(self)@.groups[k].name && final(self)@.groups[k].owner == old(
                    self,
                )@.groups[k].owner,
            forall|k: int, y: u128|
                0 <= k < old(self)@.groups.len() ==> ((#[trigger] final(self)@.groups[k].clients.contains(y))
                    <==> (old(self)@.groups[k].clients.contains(y) && y != uuid)),
            old(self)@.wf() && !old(self)@.has_client(uuid) ==> final(self)@ == old(self)@
                && final(self)@.wf(),
    {
        let ghost pre = self@;
        let n = self.groups.len();
        let mut k: usize = 0;
        while k < n
            invariant
                pre.members_unique(),
                n == pre.groups.len(),
                k <= n,
                self@.clients == pre.clients,
                self@.namespace == pre.namespace,
                self@.issued == pre.issued,
                self@.groups.len() == n,
                forall|q: int| k <= q < n ==> #[trigger] self@.groups[q] == pre.groups[q],
                forall|q: int|
                    0 <= q < k ==> (#[trigger] self@.groups[q]).name == pre.groups[q].name && (
                    self@.groups[q]).owner == pre.groups[q].owner && seq_unique(
                        self@.groups[q].clients,
                    ),
                forall|q: int, y: u128|
                    0 <= q < k ==> ((#[trigger] self@.groups[q].clients.contains(y)) <==> (
                    pre.groups[q].clients.contains(y) && y != uuid)),
                forall|q: int|
                    0 <= q < k && !pre.groups[q].clients.contains(uuid)
                        ==> #[trigger] self@.groups[q] == pre.groups[q],
            decreases n - k,
        {
            proof {
                assert(self@.groups[k as int] == self.groups@[k as int]@);
                assert(self@.groups[k as int] == pre.groups[k as int]);
                assert(seq_unique(pre.groups[k as int].clients));
            }
            let ghost before = self@.groups;
            let g = vstd::std_specs::vec::vec_index_mut(&mut self.groups, k);
            remove_u128(&mut g.clients, uuid);
            proof {
                assert(self@.groups =~= before.update(k as int, self.groups@[k as int]@));
                assert(self@.groups[k as int].name == before[k as int].name);
                assert(self@.groups[k as int].owner == before[k as int].owner);
            }
            k = k + 1;
        }
        proof {
            if pre.wf() && !pre.has_client(uuid) {
                assert forall|q: int| 0 <= q < n implies #[trigger] self@.groups[q]
                    == pre.groups[q] by {
                    assert(!pre.groups[q].clients.contains(uuid)) by {
                        if pre.groups[q].clients.contains(uuid) {
                            let m = choose|m: int|
                                0 <= m < pre.groups[q].clients.len() && pre.groups[q].clients[m]
                                    == uuid;
                            assert(pre.member_backed(q, m));
                            let j = choose|j: int|
                                0 <= j < pre.clients.len() && (#[trigger] pre.clients[j]).uuid
                                    == pre.groups[q].clients[m] && pre.clients[j].has_group_name(
                                    pre.groups[q].name,
                                );
                            assert(pre.has_client(uuid)) by {
                                assert(pre.clients[j].uuid == uuid);
                            }
                        }
                    }
                }
                assert(self@.groups =~= pre.groups);
                assert(self@ =~= pre);
            }
        }
    }

    /// Broadcast a frame to every member of the named group: each member's
    /// mailbox gets one copy appended. Reports whether the group exists;
    /// changes nothing when it does not.
    pub fn broadcast_group(&mut self, group: &String, frame: &PayloadOut) -> (r: bool)
        requires
            old(self)@.wf(),
        ensures
            final(self)@.wf(),
            r <==> old(self)@.has_group(group@),
            !r ==> final(self)@ == old(self)@,
            r ==> final(self)@.namespace == old(self)@.namespace && final(self)@.groups == old(
                self,
            )@.groups && final(self)@.issued == old(self)@.issued && final(self)@.clients.len()
                == old(self)@.clients.len() && (forall|i: int|
                0 <= i < old(self)@.clients.len() ==> #[trigger] final(self)@.clients[i] == (
                if old(self)@.group(group@).clients.contains(old(self)@.clients[i].uuid) {
                    with_mailbox(
                        old(self)@.clients[i],
                        old(self)@.clients[i].mailbox.push(frame@),
                    )
                } else {
                    old(self)@.clients[i]
                })),
    {
        let ghost pre = self@;
        match find_group_index(&self.groups, group) {
            None => {
                proof {
                    if pre.has_group(group@) {
                        let j = pre.group_i(group@);
                        assert(pre.groups[j] == self.groups@[j]@);
                    }
                    assert(final(self)@ =~= pre);
                }
                false
            },
            Some(k) => {
                proof {
                    assert(pre.groups[k as int].name == group@);
                    lemma_group_at(pre, k as int);
                }
                let members = clone_u128s(&self.groups[k].clients);
                let n = self.clients.len();
                let mut i: usize = 0;
                while i < n
                    invariant
                        pre.wf(),
                        members@ == pre.group(group@).clients,
                        n == pre.clients.len(),
                        i <= n,
                        self.clients@.len() == n,
                        self@.namespace == pre.namespace,
                        self@.groups == pre.groups,
                        self@.issued == pre.issued,
                        forall|j: int|
                            0 <= j < i ==> #[trigger] self@.clients[j] == (if members@.contains(
                                pre.clients[j].uuid,
                            ) {
                                with_mailbox(
                                    pre.clients[j],
                                    pre.clients[j].mailbox.push(frame@),
                                )
                            } else {
                                pre.clients[j]
                            }),
                        forall|j: int| i <= j < n ==> #[trigger] self@.clients[j] == pre.clients[j],
                    decreases n - i,
                {
                    let ghost before = self@.clients;
                    let u = self.clients[i].uuid();
                    if contains_u128(&members, u) {
                        let f = frame.clone();
                        let c = vstd::std_specs::vec::vec_index_mut(&mut self.clients, i);
                        c.send(f);
                        proof {
                            assert(self@.clients =~= before.update(
                                i as int,
                                with_mailbox(
                                    before[i as int],
                                    before[i as int].mailbox.push(frame@),
                                ),
                            ));
                        }
                    }
                    i = i + 1;
                }
                proof {
                    lemma_wf_mailboxes(pre, self@);
                }
                true
            },
        }
    }

    /// Take every frame pending for the given client, oldest first,
    /// leaving its mailbox empty: one round of its dispatcher. The frames
    /// come out in enqueue order.
    pub fn drain_mailbox(&mut self, uuid: u128) -> (r: Option<Vec<PayloadOut>>)
        requires
            old(self)@.wf(),
        ensures
            final(self)@.wf(),
            r is Some <==> old(self)@.has_client(uuid),
            r is None ==> final(self)@ == old(self)@,
            r matches Some(out) ==> ({
                let pre = old(self)@;
                let post = final(self)@;
                let ci = pre.client_i(uuid);
                &&& out@.map_values(|p: PayloadOut| p@) == pre.clients[ci].mailbox
                &&& post.namespace == pre.namespace
                &&& post.groups == pre.groups
                &&& post.issued == pre.issued
                &&& post.clients.len() == pre.clients.len()
                &&& (forall|j: int|
                    0 <= j < pre.clients.len() && j != ci ==> #[trigger] post.clients[j]
                        == pre.clients[j])
                &&& post.clients[ci] == with_mailbox(
                    pre.clients[ci],
                    Seq::<PayloadOutView>::empty(),
                )
            }),
    {
        let ghost pre = self@;
        match find_client_index(&self.clients, uuid) {
            None => {
                proof {
                    if pre.has_client(uuid) {
                        let j = pre.client_i(uuid);
                        assert(pre.clients[j] == self.clients@[j]@);
                    }
                    assert(final(self)@ =~= pre);
                }
                None
            },
            Some(i) => {
                proof {
                    lemma_client_at(pre, i as int);
                }
                let ghost before = self@.clients;
                let c = vstd::std_specs::vec::vec_index_mut(&mut self.clients, i);
                let out = c.drain_mailbox();
                proof {
                    assert(self@.clients =~= before.update(
                        i as int,
                        with_mailbox(before[i as int], Seq::<PayloadOutView>::empty()),
                    ));
                    lemma_wf_mailboxes(pre, self@);
                }
                Some(out)
            },
        }
    }

    /// The identities of all connected clients, in table order.
    pub fn snapshot_clients(&self) -> (r: Vec<ClientInfo>)
        ensures
            r@.len() == self@.clients.len(),
            forall|i: int|
                0 <= i < self@.clients.len() ==> (#[trigger] r@[i])@ == self@.clients[i].info(),
    {
        let mut r: Vec<ClientInfo> = Vec::new();
        let mut i: usize = 0;
        while i < self.clients.len()
            invariant
                i <= self.clients@.len(),
                r@.len() == i,
                forall|j: int| 0 <= j < i ==> (#[trigger] r@[j])@ == self.clients@[j]@.info(),
            decreases self.clients@.len() - i,
        {
            r.push(self.clients[i].make_payload());
            i = i + 1;
        }
        r
    }

    /// The names of all groups, in table order.
    pub fn snapshot_groups(&self) -> (r: Vec<String>)
        ensures
            r@.len() == self@.groups.len(),
            forall|i: int|
                0 <= i < self@.groups.len() ==> (#[trigger] r@[i])@ == self@.groups[i].name,
    {
        let mut r: Vec<String> = Vec::new();
        let mut i: usize = 0;
        while i < self.groups.len()
            invariant
                i <= self.groups@.len(),
                r@.len() == i,
                forall|j: int| 0 <= j < i ==> (#[trigger] r@[j])@ == self.groups@[j]@.name,
            decreases self.groups@.len() - i,
        {
            r.push(self.groups[i].name.clone());
            i = i + 1;
        }
        r
    }

    /// The group names the given client is subscribed to, if it is
    /// connected.
    pub fn snapshot_subscriptions(&self, uuid: u128) -> (r: Option<Vec<String>>)
        requires
            self@.wf(),
        ensures
            r is Some <==> self@.has_client(uuid),
            r is Some ==> r->0@.map_values(|g: String| g@) == self@.client(uuid).groups,
    {
        match find_client_index(&self.clients, uuid) {
            Some(i) => {
                proof {
                    lemma_client_at(self@, i as int);
                }
                Some(self.clients[i].groups_list())
            },
            None => {
                proof {
                    if self@.has_client(uuid) {
                        let j = self@.client_i(uuid);
                        assert(self@.clients[j] == self.clients@[j]@);
                    }
                }
                None
            },
        }
    }

    /// The identities of the named group's members, in member-list order,
    /// if the group exists.
    pub fn snapshot_members(&self, group: &String) -> (r: Option<Vec<ClientInfo>>)
        requires
            self@.wf(),
        ensures
            r is Some <==> self@.has_group(group@),
            r is Some ==> ({
                let members = self@.group(group@).clients;
                r->0@.len() == members.len() && (forall|t: int|
                    0 <= t < members.len() ==> (#[trigger] r->0@[t])@.uuid == members[t]
                        && r->0@[t]@.name == self@.client(members[t]).name)
            }),
    {
        let ghost pre = self@;
        match find_group_index(&self.groups, group) {
            None => {
                proof {
                    if pre.has_group(group@) {
                        let j = pre.group_i(group@);
                        assert(pre.groups[j] == self.groups@[j]@);
                    }
                }
                None
            },
            Some(k) => {
                proof {
                    assert(pre.groups[k as int].name == group@);
                    lemma_group_at(pre, k as int);
                }
                let members = clone_u128s(&self.groups[k].clients);
                let mut r: Vec<ClientInfo> = Vec::new();
                let mut t: usize = 0;
                while t < members.len()
                    invariant
                        pre.wf(),
                        pre == self@,
                        members@ == pre.group(group@).clients,
                        pre.has_group(group@),
                        t <= members@.len(),
                        r@.len() == t,
                        forall|q: int|
                            0 <= q < t ==> (#[trigger] r@[q])@.uuid == members@[q] && r@[q]@.name
                                == pre.client(members@[q]).name,
                    decreases members@.len() - t,
                {
                    proof {
                        let gi = pre.group_i(group@);
                        let m = choose|m: int|
                            0 <= m < pre.groups[gi].clients.len() && pre.groups[gi].clients[m]
                                == members@[t as int];
                        assert(pre.member_backed(gi, m));
                        let j = choose|j: int|
                            0 <= j < pre.clients.len() && (#[trigger] pre.clients[j]).uuid
                                == pre.groups[gi].clients[m] && pre.clients[j].has_group_name(
                                pre.groups[gi].name,
                            );
                        assert(pre.has_client(members@[t as int])) by {
                            assert(pre.clients[j].uuid == members@[t as int]);
                        }
                    }
                    let u = members[t];
                    let ci = match find_client_index(&self.clients, u) {
                        Some(ci) => ci,
                        None => {
                            proof {
                                let j = pre.client_i(u);
                                assert(pre.clients[j] == self.clients@[j]@);
                            }
                            vstd::pervasive::unreached()
                        },
                    };
                    proof {
                        lemma_client_at(pre, ci as int);
                    }
                    r.push(self.clients[ci].make_payload());
                    t = t + 1;
                }
                Some(r)
            },
        }
    }
}

impl Group {
    /// Broadcast a frame to every connected member of this group through
    /// the hub: each member's mailbox gets one copy appended and no other
    /// mailbox changes. Reports whether the hub knows a group of this
    /// name; changes nothing when it does not.
    pub fn broadcast(&self, concierge: &mut Concierge, payload: &PayloadOut) -> (r: bool)
        requires
            old(concierge)@.wf(),
        ensures
            final(concierge)@.wf(),
            r <==> old(concierge)@.has_group(self@.name),
            !r ==> final(concierge)@ == old(concierge)@,
            r ==> ({
                let pre = old(concierge)@;
                let post = final(concierge)@;
                post.namespace == pre.namespace && post.groups == pre.groups && post.issued
                    == pre.issued && post.clients.len() == pre.clients.len() && (forall|i: int|
                    0 <= i < pre.clients.len() ==> #[trigger] post.clients[i] == (
                    if pre.group(self@.name).clients.contains(pre.clients[i].uuid) {
                        with_mailbox(pre.clients[i], pre.clients[i].mailbox.push(payload@))
                    } else {
                        pre.clients[i]
                    }))
            }),
    {
        concierge.broadcast_group(&self.name, payload)
    }
}

/// Where a surviving client sat before the client at index `ci` was
/// removed.
pub open spec fn client_shift(j: int, ci: int) -> int {
    if j < ci {
        j
    } else {
        j + 1
    }
}

/// Pushing a fresh client and its namespace entry preserves the registry
/// invariant.
proof fn lemma_register_preserves_wf(pre: ConciergeView, post: ConciergeView, name: Seq<char>, uuid: u128)
    requires
        pre.wf(),
        !pre.has_name(name),
        !pre.issued.contains(uuid),
        post.clients == pre.clients.push(
            ClientView {
                uuid,
                name,
                groups: Seq::<Seq<char>>::empty(),
                mailbox: Seq::<PayloadOutView>::empty(),
            },
        ),
        post.namespace == pre.namespace.push(NameEntryView { name, uuid }),
        post.issued == pre.issued.push(uuid),
        post.groups == pre.groups,
    ensures
        post.wf(),
{
    let n = pre.clients.len() as int;
    let m = pre.namespace.len() as int;
    assert forall|i: int, j: int|
        0 <= i < j < post.clients.len() implies (post.clients[i]).uuid != (
    post.clients[j]).uuid by {
        if j == n {
            assert(pre.issued.contains(pre.clients[i].uuid));
        }
    }
    assert forall|i: int, j: int|
        0 <= i < j < post.namespace.len() implies (post.namespace[i]).name != (
    post.namespace[j]).name by {
        if j == m {
            assert(0 <= i < pre.namespace.len() && pre.namespace[i].name == pre.namespace[i].name);
            assert(pre.has_name(pre.namespace[i].name));
        }
    }
    assert forall|i: int| 0 <= i < post.namespace.len() implies post.entry_backed(i) by {
        if i < m {
            assert(pre.entry_backed(i));
            let j = choose|j: int|
                0 <= j < pre.clients.len() && (#[trigger] pre.clients[j]).uuid
                    == pre.namespace[i].uuid && pre.clients[j].name == pre.namespace[i].name;
            assert(post.clients[j] == pre.clients[j]);
        } else {
            assert(post.clients[n].uuid == uuid && post.clients[n].name == name);
        }
    }
    assert forall|j: int| 0 <= j < post.clients.len() implies post.client_named(j) by {
        if j < n {
            assert(pre.client_named(j));
            let i = choose|i: int|
                0 <= i < pre.namespace.len() && (#[trigger] pre.namespace[i]).name
                    == pre.clients[j].name && pre.namespace[i].uuid == pre.clients[j].uuid;
            assert(post.namespace[i] == pre.namespace[i]);
        } else {
            assert(post.namespace[m].name == name && post.namespace[m].uuid == uuid);
        }
    }
    assert forall|k: int| 0 <= k < post.groups.len() implies post.has_client(
        (post.groups[k]).owner,
    ) by {
        assert(pre.has_client(pre.groups[k].owner));
        let j = pre.client_i(pre.groups[k].owner);
        assert(post.clients[j].uuid == pre.groups[k].owner);
    }
    assert forall|k: int, m2: int|
        0 <= k < post.groups.len() && 0 <= m2 < post.groups[k].clients.len()
            implies post.member_backed(k, m2) by {
        assert(pre.member_backed(k, m2));
        let j = choose|j: int|
            0 <= j < pre.clients.len() && (#[trigger] pre.clients[j]).uuid
                == pre.groups[k].clients[m2] && pre.clients[j].has_group_name(pre.groups[k].name);
        assert(post.clients[j] == pre.clients[j]);
    }
    assert forall|j: int, t: int|
        0 <= j < post.clients.len() && 0 <= t < post.clients[j].groups.len()
            implies post.subscription_backed(j, t) by {
        assert(j < n) by {
            if j == n {
                assert(post.clients[j].groups.len() == 0);
            }
        }
        assert(pre.subscription_backed(j, t));
        let k = choose|k: int|
            0 <= k < pre.groups.len() && (#[trigger] pre.groups[k]).name == pre.clients[j].groups[t]
                && pre.groups[k].clients.contains(pre.clients[j].uuid);
        assert(post.groups[k] == pre.groups[k]);
    }
    assert forall|j: int| 0 <= j < post.clients.len() implies post.issued.contains(
        (post.clients[j]).uuid,
    ) by {
        if j < n {
            let t = choose|t: int| 0 <= t < pre.issued.len() && pre.issued[t] == pre.clients[j].uuid;
            assert(post.issued[t] == pre.clients[j].uuid);
        } else {
            assert(post.issued[pre.issued.len() as int] == uuid);
        }
    }
    assert forall|j: int| 0 <= j < post.clients.len() implies seq_unique(
        (post.clients[j]).groups,
    ) by {
        if j < n {
            assert(seq_unique(pre.clients[j].groups));
        }
    }
}

} // verus!

//! The wire payload model: everything a client can send to the hub, and
//! everything the hub can send back. The JSON encoding of these values is a
//! collaborator outside the library; the hub's logic only builds and routes
//! the structured values below. The `data` of a user message is carried as
//! opaque bytes and is never inspected.
//!
//! Each exec type has a mathematical view (`ClientInfo@` is a
//! `ClientInfoView` and so on); the library's contracts speak of those
//! views.

use vstd::prelude::*;

verus! {

/// A client's public identity: its process-unique id and its chosen name.
#[derive(Debug, PartialEq, Eq)]
pub struct ClientInfo {
    pub uuid: u128,
    pub name: String,
}

pub struct ClientInfoView {
    pub uuid: u128,
    pub name: Seq<char>,
}

impl View for ClientInfo {
    type V = ClientInfoView;

    open spec fn view(&self) -> ClientInfoView {
        ClientInfoView { uuid: self.uuid, name: self.name@ }
    }
}

impl Clone for ClientInfo {
    fn clone(&self) -> (res: Self)
        ensures
            res@ == self@,
    {
        ClientInfo { uuid: self.uuid, name: self.name.clone() }
    }
}

/// Metadata the hub stamps on a delivered message: who sent it, and through
/// which group when the target was a group.
#[derive(Debug, PartialEq, Eq)]
pub struct Origin {
    pub uuid: u128,
    pub name: String,
    pub group: Option<String>,
}

pub struct OriginView {
    pub uuid: u128,
    pub name: Seq<char>,
    pub group: Option<Seq<char>>,
}

impl View for Origin {
    type V = OriginView;

    open spec fn view(&self) -> OriginView {
        OriginView {
            uuid: self.uuid,
            name: self.name@,
            group: match self.group {
                Some(g) => Some(g@),
                None => None,
            },
        }
    }
}

impl Clone for Origin {
    fn clone(&self) -> (res: Self)
        ensures
            res@ == self@,
    {
        let group = match &self.group {
            Some(g) => Some(g.clone()),
            None => None,
        };
        Origin { uuid: self.uuid, name: self.name.clone(), group }
    }
}

/// Where a message is addressed: a named client, a client by id, every
/// member of a group, or every connected client.
#[derive(Debug, PartialEq, Eq)]
pub enum Target {
    Name { name: String },
    Uuid { uuid: u128 },
    Group { group: String },
    All,
}

pub enum TargetView {
    Name { name: Seq<char> },
    Uuid { uuid: u128 },
    Group { group: Seq<char> },
    All,
}

impl View for Target {
    type V = TargetView;

    open spec fn view(&self) -> TargetView {
        match self {
            Target::Name { name } => TargetView::Name { name: name@ },
            Target::Uuid { uuid } => TargetView::Uuid { uuid: *uuid },
            Target::Group { group } => TargetView::Group { group: group@ },
            Target::All => TargetView::All,
        }
    }
}

impl Clone for Target {
    fn clone(&self) -> (res: Self)
        ensures
            res@ == self@,
    {
        match self {
            Target::Name { name } => Target::Name { name: name.clone() },
            Target::Uuid { uuid } => Target::Uuid { uuid: *uuid },
            Target::Group { group } => Target::Group { group: group.clone() },
            Target::All => Target::All,
        }
    }
}

/// A payload arriving from a client, already decoded from its JSON frame.
/// `Other` stands for any recognized frame whose operation the hub does not
/// serve; it is answered with an `Unsupported` error.
#[derive(Debug, PartialEq, Eq)]
pub enum PayloadIn {
    Identify { name: String, version: String, secret: Option<String> },
    Message { target: Target, data: Vec<u8> },
    Subscribe { group: String },
    Unsubscribe { group: String },
    GroupCreate { group: String },
    GroupDelete { group: String },
    FetchGroupSubscribers { group: String },
    FetchClients,
    FetchGroups,
    FetchSubscriptions,
    Other,
}

pub enum PayloadInView {
    Identify { name: Seq<char>, version: Seq<char>, secret: Option<Seq<char>> },
    Message { target: TargetView, data: Seq<u8> },
    Subscribe { group: Seq<char> },
    Unsubscribe { group: Seq<char> },
    GroupCreate { group: Seq<char> },
    GroupDelete { group: Seq<char> },
    FetchGroupSubscribers { group: Seq<char> },
    FetchClients,
    FetchGroups,
    FetchSubscriptions,
    Other,
}

impl View for PayloadIn {
    type V = PayloadInView;

    open spec fn view(&self) -> PayloadInView {
        match self {
            PayloadIn::Identify { name, version, secret } => PayloadInView::Identify {
                name: name@,
                version: version@,
                secret: match secret {
                    Some(s) => Some(s@),
                    None => None,
                },
            },
            PayloadIn::Message { target, data } => PayloadInView::Message {
                target: target@,
                data: data@,
            },
            PayloadIn::Subscribe { group } => PayloadInView::Subscribe { group: group@ },
            PayloadIn::Unsubscribe { group } => PayloadInView::Unsubscribe { group: group@ },
            PayloadIn::GroupCreate { group } => PayloadInView::GroupCreate { group: group@ },
            PayloadIn::GroupDelete { group } => PayloadInView::GroupDelete { group: group@ },
            PayloadIn::FetchGroupSubscribers { group } => PayloadInView::FetchGroupSubscribers {
                group: group@,
            },
            PayloadIn::FetchClients => PayloadInView::FetchClients,
            PayloadIn::FetchGroups => PayloadInView::FetchGroups,
            PayloadIn::FetchSubscriptions => PayloadInView::FetchSubscriptions,
            PayloadIn::Other => PayloadInView::Other,
        }
    }
}

/// The kinds of status receipt the hub emits.
#[derive(Debug, PartialEq, Eq)]
pub enum StatusData {
    ClientJoined { data: ClientInfo },
    ClientLeft { data: ClientInfo },
    Subscribed { group: String },
    Unsubscribed { group: String },
    CreatedGroup { group: String },
    DeletedGroup { group: String },
    MessageSent,
}

pub enum StatusDataView {
    ClientJoined { data: ClientInfoView },
    ClientLeft { data: ClientInfoView },
    Subscribed { group: Seq<char> },
    Unsubscribed { group: Seq<char> },
    CreatedGroup { group: Seq<char> },
    DeletedGroup { group: Seq<char> },
    MessageSent,
}

impl View for StatusData {
    type V = StatusDataView;

    open spec fn view(&self) -> StatusDataView {
        match self {
            StatusData::ClientJoined { data } => StatusDataView::ClientJoined { data: data@ },
            StatusData::ClientLeft { data } => StatusDataView::ClientLeft { data: data@ },
            StatusData::Subscribed { group } => StatusDataView::Subscribed { group: group@ },
            StatusData::Unsubscribed { group } => StatusDataView::Unsubscribed { group: group@ },
            StatusData::CreatedGroup { group } => StatusDataView::CreatedGroup { group: group@ },
            StatusData::DeletedGroup { group } => StatusDataView::DeletedGroup { group: group@ },
            StatusData::MessageSent => StatusDataView::MessageSent,
        }
    }
}

impl Clone for StatusData {
    fn clone(&self) -> (res: Self)
        ensures
            res@ == self@,
    {
        match self {
            StatusData::ClientJoined { data } => StatusData::ClientJoined { data: data.clone() },
            StatusData::ClientLeft { data } => StatusData::ClientLeft { data: data.clone() },
            StatusData::Subscribed { group } => StatusData::Subscribed { group: group.clone() },
            StatusData::Unsubscribed { group } => StatusData::Unsubscribed { group: group.clone() },
            StatusData::CreatedGroup { group } => StatusData::CreatedGroup { group: group.clone() },
            StatusData::DeletedGroup { group } => StatusData::DeletedGroup { group: group.clone() },
            StatusData::MessageSent => StatusData::MessageSent,
        }
    }
}

/// Protocol error codes; each is recoverable and leaves the session open.
#[derive(Debug, Clone, Copy, PartialEq, Eq)]
pub enum ErrorCode {
    Protocol,
    NoSuchName,
    NoSuchUuid,
    NoSuchGroup,
    GroupAlreadyCreated,
    Unauthorized,
    Unsupported,
}

/// A frame the hub sends to a client: the first `Hello`, forwarded
/// messages, status receipts, protocol errors, and snapshot replies.
#[derive(Debug, PartialEq, Eq)]
pub enum PayloadOut {
    Hello { uuid: u128, version: String },
    Message { origin: Origin, target: Target, data: Vec<u8> },
    Status { seq: Option<u64>, data: StatusData },
    Error { seq: Option<u64>, code: ErrorCode, message: String },
    Clients { seq: Option<u64>, clients: Vec<ClientInfo> },
    Groups { seq: Option<u64>, groups: Vec<String> },
    Subscriptions { seq: Option<u64>, groups: Vec<String> },
    GroupSubscribers { seq: Option<u64>, group: String, clients: Vec<ClientInfo> },
}

pub enum PayloadOutView {
    Hello { uuid: u128, version: Seq<char> },
    Message { origin: OriginView, target: TargetView, data: Seq<u8> },
    Status { seq: Option<u64>, data: StatusDataView },
    Error { seq: Option<u64>, code: ErrorCode, message: Seq<char> },
    Clients { seq: Option<u64>, clients: Seq<ClientInfoView> },
    Groups { seq: Option<u64>, groups: Seq<Seq<char>> },
    Subscriptions { seq: Option<u64>, groups: Seq<Seq<char>> },
    GroupSubscribers { seq: Option<u64>, group: Seq<char>, clients: Seq<ClientInfoView> },
}

impl View for PayloadOut {
    type V = PayloadOutView;

    open spec fn view(&self) -> PayloadOutView {
        match self {
            PayloadOut::Hello { uuid, version } => PayloadOutView::Hello {
                uuid: *uuid,
                version: version@,
            },
            PayloadOut::Message { origin, target, data } => PayloadOutView::Message {
                origin: origin@,
                target: target@,
                data: data@,
            },
            PayloadOut::Status { seq, data } => PayloadOutView::Status { seq: *seq, data: data@ },
            PayloadOut::Error { seq, code, message } => PayloadOutView::Error {
                seq: *seq,
                code: *code,
                message: message@,
            },
            PayloadOut::Clients { seq, clients } => PayloadOutView::Clients {
                seq: *seq,
                clients: clients@.map_values(|c: ClientInfo| c@),
            },
            PayloadOut::Groups { seq, groups } => PayloadOutView::Groups {
                seq: *seq,
                groups: groups@.map_values(|g: String| g@),
            },
            PayloadOut::Subscriptions { seq, groups } => PayloadOutView::Subscriptions {
                seq: *seq,
                groups: groups@.map_values(|g: String| g@),
            },
            PayloadOut::GroupSubscribers { seq, group, clients } => {
                PayloadOutView::GroupSubscribers {
                    seq: *seq,
                    group: group@,
                    clients: clients@.map_values(|c: ClientInfo| c@),
                }
            },
        }
    }
}

fn clone_bytes(v: &Vec<u8>) -> (r: Vec<u8>)
    ensures
        r@ == v@,
{
    let r = v.clone();
    proof {
        assert(r@ =~= v@);
    }
    r
}

fn clone_client_infos(v: &Vec<ClientInfo>) -> (r: Vec<ClientInfo>)
    ensures
        r@.map_values(|c: ClientInfo| c@) == v@.map_values(|c: ClientInfo| c@),
{
    let mut r: Vec<ClientInfo> = Vec::new();
    let mut i: usize = 0;
    while i < v.len()
        invariant
            i <= v.len(),
            r@.len() == i,
            forall|j: int| 0 <= j < i ==> r@[j]@ == v@[j]@,
        decreases v.len() - i,
    {
        r.push(v[i].clone());
        i = i + 1;
    }
    proof {
        assert(r@.map_values(|c: ClientInfo| c@) =~= v@.map_values(|c: ClientInfo| c@));
    }
    r
}

fn clone_strings(v: &Vec<String>) -> (r: Vec<String>)
    ensures
        r@.map_values(|g: String| g@) == v@.map_values(|g: String| g@),
{
    let mut r: Vec<String> = Vec::new();
    let mut i: usize = 0;
    while i < v.len()
        invariant
            i <= v.len(),
            r@.len() == i,
            forall|j: int| 0 <= j < i ==> r@[j]@ == v@[j]@,
        decreases v.len() - i,
    {
        r.push(v[i].clone());
        i = i + 1;
    }
    proof {
        assert(r@.map_values(|g: String| g@) =~= v@.map_values(|g: String| g@));
    }
    r
}

impl Clone for PayloadOut {
    fn clone(&self) -> (res: Self)
        ensures
            res@ == self@,
    {
        match self {
            PayloadOut::Hello { uuid, version } => PayloadOut::Hello {
                uuid: *uuid,
                version: version.clone(),
            },
            PayloadOut::Message { origin, target, data } => PayloadOut::Message {
                origin: origin.clone(),
                target: target.clone(),
                data: clone_bytes(data),
            },
            PayloadOut::Status { seq, data } => PayloadOut::Status {
                seq: *seq,
                data: data.clone(),
            },
            PayloadOut::Error { seq, code, message } => PayloadOut::Error {
                seq: *seq,
                code: *code,
                message: message.clone(),
            },
            PayloadOut::Clients { seq, clients } => PayloadOut::Clients {
                seq: *seq,
                clients: clone_client_infos(clients),
            },
            PayloadOut::Groups { seq, groups } => PayloadOut::Groups {
                seq: *seq,
                groups: clone_strings(groups),
            },
            PayloadOut::Subscriptions { seq, groups } => PayloadOut::Subscriptions {
                seq: *seq,
                groups: clone_strings(groups),
            },
            PayloadOut::GroupSubscribers { seq, group, clients } => PayloadOut::GroupSubscribers {
                seq: *seq,
                group: group.clone(),
                clients: clone_client_infos(clients),
            },
        }
    }
}

/// The close codes a failed identification ends a connection with.
#[derive(Debug, Clone, Copy, PartialEq, Eq)]
pub enum CloseReason {
    BadSecret,
    BadVersion,
    NoAuth,
    FatalDecode,
    AuthFailed,
    DuplicateAuth,
}

pub const CLOSE_BAD_SECRET: u16 = 4000;

pub const CLOSE_BAD_VERSION: u16 = 4001;

pub const CLOSE_NO_AUTH: u16 = 4002;

pub const CLOSE_FATAL_DECODE: u16 = 4003;

pub const CLOSE_AUTH_FAILED: u16 = 4004;

pub const CLOSE_DUPLICATE_AUTH: u16 = 4005;

impl CloseReason {
    /// The numeric close code sent on the wire for this reason.
    pub open spec fn spec_close_code(self) -> u16 {
        match self {
            CloseReason::BadSecret => CLOSE_BAD_SECRET,
            CloseReason::BadVersion => CLOSE_BAD_VERSION,
            CloseReason::NoAuth => CLOSE_NO_AUTH,
            CloseReason::FatalDecode => CLOSE_FATAL_DECODE,
            CloseReason::AuthFailed => CLOSE_AUTH_FAILED,
            CloseReason::DuplicateAuth => CLOSE_DUPLICATE_AUTH,
        }
    }

    pub fn close_code(&self) -> (code: u16)
        ensures
            code == self.spec_close_code(),
    {
        match self {
            CloseReason::BadSecret => CLOSE_BAD_SECRET,
            CloseReason::BadVersion => CLOSE_BAD_VERSION,
            CloseReason::NoAuth => CLOSE_NO_AUTH,
            CloseReason::FatalDecode => CLOSE_FATAL_DECODE,
            CloseReason::AuthFailed => CLOSE_AUTH_FAILED,
            CloseReason::DuplicateAuth => CLOSE_DUPLICATE_AUTH,
        }
    }
}

} // verus!

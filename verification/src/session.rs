//! The per-connection session logic: the identification handshake with
//! its close-code rules, the atomic creation of a client (whose `Hello`
//! is strictly the first frame in its mailbox, followed by its own
//! `CLIENT_JOINED` announcement), the serving loop over decoded frames
//! with its seq counter, and the teardown that deregisters the client and
//! announces `CLIENT_LEFT` to everyone left.

use vstd::prelude::*;

use crate::clients::ClientView;
use crate::concierge::{
    count_frames, unsubscribed_frame, with_mailbox, Concierge, ConciergeView, NameEntryView,
    RegisterError,
};
use crate::ext::{check_version, semver_match};
use crate::payload::{
    ClientInfo, ClientInfoView, CloseReason, PayloadIn, PayloadInView, PayloadOut, PayloadOutView,
    StatusData, StatusDataView,
};
use crate::router::{handle_payload, payload_transition, sender_error};

verus! {

/// What can go wrong while serving a socket.
#[derive(Debug, Clone, Copy, PartialEq, Eq)]
pub enum WsError {
    Channel,
    Json,
    DuplicateAuth,
    Socket,
    Internal,
}

/// What the hub is configured with: the version it reports, the semver
/// requirement clients must satisfy, and the optional shared secret.
pub struct SessionConfig {
    pub version: String,
    pub min_version: String,
    pub secret: Option<String>,
}

/// What the first seconds of a connection produced: no frame in time, an
/// undecodable frame, a decoded payload that is not an `IDENTIFY`, or the
/// `IDENTIFY` fields themselves.
#[derive(Debug, PartialEq, Eq)]
pub enum IdentifyEvent {
    Absent,
    Malformed,
    NotIdentify,
    Identify { name: String, version: String, secret: Option<String> },
}

/// The configured secret accepts the presented one: always when no
/// secret is configured, else only the exact match.
pub open spec fn secret_accepted(configured: Option<Seq<char>>, presented: Option<Seq<char>>) -> bool {
    match configured {
        None => true,
        Some(s) => presented == Some(s),
    }
}

/// Validate the identification payload: the decode outcome, the shared
/// secret and the semver range, each failure with its close code. The
/// name itself is only checked against the namespace at registration.
pub fn handle_identification(config: &SessionConfig, event: IdentifyEvent) -> (r: Result<
    String,
    CloseReason,
>)
    ensures
        event == IdentifyEvent::Absent ==> r == Err::<String, CloseReason>(
            CloseReason::AuthFailed,
        ),
        event == IdentifyEvent::Malformed ==> r == Err::<String, CloseReason>(
            CloseReason::FatalDecode,
        ),
        event == IdentifyEvent::NotIdentify ==> r == Err::<String, CloseReason>(
            CloseReason::NoAuth,
        ),
        event matches IdentifyEvent::Identify { name, version, secret } ==> ({
            let presented = match secret {
                Some(s) => Some(s@),
                None => None,
            };
            let configured = match config.secret {
                Some(s) => Some(s@),
                None => None,
            };
            if !secret_accepted(configured, presented) {
                r == Err::<String, CloseReason>(CloseReason::BadSecret)
            } else if semver_match(config.min_version@, version@) != Some(true) {
                r == Err::<String, CloseReason>(CloseReason::BadVersion)
            } else {
                r is Ok && r->Ok_0@ == name@
            }
        }),
{
    match event {
        IdentifyEvent::Absent => Err(CloseReason::AuthFailed),
        IdentifyEvent::Malformed => Err(CloseReason::FatalDecode),
        IdentifyEvent::NotIdentify => Err(CloseReason::NoAuth),
        IdentifyEvent::Identify { name, version, secret } => {
            let secret_ok = match &config.secret {
                None => true,
                Some(s) => match &secret {
                    Some(p) => *p == *s,
                    None => false,
                },
            };
            if !secret_ok {
                Err(CloseReason::BadSecret)
            } else {
                match check_version(config.min_version.as_str(), version.as_str()) {
                    Some(true) => Ok(name),
                    _ => Err(CloseReason::BadVersion),
                }
            }
        },
    }
}

/// The announcement that a client joined or left.
pub open spec fn joined_frame(uuid: u128, name: Seq<char>) -> PayloadOutView {
    PayloadOutView::Status {
        seq: None,
        data: StatusDataView::ClientJoined { data: ClientInfoView { uuid, name } },
    }
}

pub open spec fn left_frame(uuid: u128, name: Seq<char>) -> PayloadOutView {
    PayloadOutView::Status {
        seq: None,
        data: StatusDataView::ClientLeft { data: ClientInfoView { uuid, name } },
    }
}

/// What a successful registration does: the name claimed under a fresh
/// id `u`, the new client's mailbox holding its `Hello` and then its own
/// `CLIENT_JOINED`, and every prior client's mailbox extended by that
/// same announcement.
pub open spec fn register_transition(
    pre: ConciergeView,
    post: ConciergeView,
    version: Seq<char>,
    name: Seq<char>,
    u: u128,
) -> bool {
    &&& !pre.issued.contains(u)
    &&& post.namespace == pre.namespace.push(NameEntryView { name, uuid: u })
    &&& post.issued == pre.issued.push(u)
    &&& post.groups == pre.groups
    &&& post.clients.len() == pre.clients.len() + 1
    &&& (forall|i: int|
        0 <= i < pre.clients.len() ==> #[trigger] post.clients[i] == with_mailbox(
            pre.clients[i],
            pre.clients[i].mailbox.push(joined_frame(u, name)),
        ))
    &&& post.clients[pre.clients.len() as int] == (ClientView {
        uuid: u,
        name,
        groups: Seq::<Seq<char>>::empty(),
        mailbox: seq![PayloadOutView::Hello { uuid: u, version }, joined_frame(u, name)],
    })
}

/// Register a validated name: atomically claim it in the namespace and
/// create the client, enqueue its `Hello` — strictly its first frame —
/// and then broadcast `CLIENT_JOINED` to every client, the newcomer
/// included.
pub fn make_client(concierge: &mut Concierge, config: &SessionConfig, name: String) -> (r: Result<
    u128,
    WsError,
>)
    requires
        old(concierge)@.wf(),
    ensures
        final(concierge)@.wf(),
        r == Err::<u128, WsError>(WsError::DuplicateAuth) <==> old(concierge)@.has_name(name@),
        r is Err ==> final(concierge)@ == old(concierge)@ && (r == Err::<u128, WsError>(
            WsError::DuplicateAuth,
        ) || r == Err::<u128, WsError>(WsError::Internal)),
        r matches Ok(u) ==> register_transition(
            old(concierge)@,
            final(concierge)@,
            config.version@,
            name@,
            u,
        ),
{
    let ghost pre = concierge@;
    let ghost nv = name@;
    let uuid = match concierge.try_register(name) {
        Err(RegisterError::DuplicateName) => {
            return Err(WsError::DuplicateAuth);
        },
        Err(RegisterError::IdCollision) => {
            return Err(WsError::Internal);
        },
        Ok(u) => u,
    };
    let ghost s1 = concierge@;
    proof {
        assert(s1.clients[pre.clients.len() as int].uuid == uuid);
        assert forall|i: int| 0 <= i < pre.clients.len() implies (#[trigger] s1.clients[i]).uuid
            != uuid by {
            assert(pre.issued.contains(pre.clients[i].uuid));
        }
    }
    let hello = PayloadOut::Hello { uuid, version: config.version.clone() };
    let delivered = concierge.enqueue(uuid, hello);
    proof {
        assert(delivered);
    }
    let ghost s2 = concierge@;
    proof {
        assert(concierge@.clients[pre.clients.len() as int].uuid == uuid);
    }
    let cname = name_of(concierge, uuid);
    let joined = PayloadOut::Status {
        seq: None,
        data: StatusData::ClientJoined { data: ClientInfo { uuid, name: cname } },
    };
    proof {
        assert(joined@ == joined_frame(uuid, nv));
    }
    concierge.broadcast_all(&joined);
    proof {
        let post = concierge@;
        let n = pre.clients.len() as int;
        assert forall|i: int| 0 <= i < n implies #[trigger] post.clients[i] == with_mailbox(
            pre.clients[i],
            pre.clients[i].mailbox.push(joined_frame(uuid, nv)),
        ) by {
            assert(s2.clients[i] == pre.clients[i]);
        }
        assert(post.clients[n].mailbox =~= seq![
            PayloadOutView::Hello { uuid, version: config.version@ },
            joined_frame(uuid, nv),
        ]);
        assert(post.clients[n] == (ClientView {
            uuid,
            name: nv,
            groups: Seq::<Seq<char>>::empty(),
            mailbox: seq![
                PayloadOutView::Hello { uuid, version: config.version@ },
                joined_frame(uuid, nv),
            ],
        }));
    }
    Ok(uuid)
}

/// The connected name of a client that is known to exist.
fn name_of(concierge: &Concierge, uuid: u128) -> (r: String)
    requires
        concierge@.wf(),
        concierge@.has_client(uuid),
    ensures
        r@ == concierge@.client(uuid).name,
{
    match concierge.resolve_uuid(uuid) {
        Some(n) => n,
        None => {
            proof {
                assert(false);
            }
            vstd::pervasive::unreached()
        },
    }
}

/// Run the whole opening of a connection: validate the identification
/// event and, when it passes, register the name. Every refusal — bad
/// secret, bad version, no frame, undecodable frame, a payload that is
/// not an `IDENTIFY`, a taken name, or the failed random draw of a fresh
/// id — comes back as the close code to send, with the registry exactly
/// as it was: no table changes and no broadcast reaches anyone.
pub fn handle_connection(
    concierge: &mut Concierge,
    config: &SessionConfig,
    event: IdentifyEvent,
) -> (r: Result<u128, CloseReason>)
    requires
        old(concierge)@.wf(),
    ensures
        final(concierge)@.wf(),
        r is Err ==> final(concierge)@ == old(concierge)@,
        event == IdentifyEvent::Absent ==> r == Err::<u128, CloseReason>(CloseReason::AuthFailed),
        event == IdentifyEvent::Malformed ==> r == Err::<u128, CloseReason>(
            CloseReason::FatalDecode,
        ),
        event == IdentifyEvent::NotIdentify ==> r == Err::<u128, CloseReason>(
            CloseReason::NoAuth,
        ),
        event matches IdentifyEvent::Identify { name, version, secret } ==> ({
            let presented = match secret {
                Some(s) => Some(s@),
                None => None,
            };
            let configured = match config.secret {
                Some(s) => Some(s@),
                None => None,
            };
            if !secret_accepted(configured, presented) {
                r == Err::<u128, CloseReason>(CloseReason::BadSecret)
            } else if semver_match(config.min_version@, version@) != Some(true) {
                r == Err::<u128, CloseReason>(CloseReason::BadVersion)
            } else if old(concierge)@.has_name(name@) {
                r == Err::<u128, CloseReason>(CloseReason::DuplicateAuth)
            } else {
                (r matches Ok(u) && register_transition(
                    old(concierge)@,
                    final(concierge)@,
                    config.version@,
                    name@,
                    u,
                )) || r == Err::<u128, CloseReason>(CloseReason::AuthFailed)
            }
        }),
{
    let name = match handle_identification(config, event) {
        Err(reason) => {
            return Err(reason);
        },
        Ok(name) => name,
    };
    match make_client(concierge, config, name) {
        Ok(u) => Ok(u),
        Err(WsError::DuplicateAuth) => Err(CloseReason::DuplicateAuth),
        Err(_) => Err(CloseReason::AuthFailed),
    }
}

/// Tear a connection down: deregister the client — reaping the groups it
/// owned with their `Unsubscribed` broadcasts — and then announce
/// `CLIENT_LEFT` to every remaining client. The leaver sees nothing; each
/// survivor sees its reap receipts, if any, strictly before the
/// `CLIENT_LEFT`.
pub fn handle_disconnect(concierge: &mut Concierge, uuid: u128) -> (r: Result<ClientInfo, WsError>)
    requires
        old(concierge)@.wf(),
    ensures
        final(concierge)@.wf(),
        r is Ok <==> old(concierge)@.has_client(uuid),
        r is Err ==> final(concierge)@ == old(concierge)@ && r == Err::<ClientInfo, WsError>(
            WsError::Internal,
        ),
        r matches Ok(info) ==> ({
            let pre = old(concierge)@;
            let post = final(concierge)@;
            let ci = pre.client_i(uuid);
            let cname = pre.client(uuid).name;
            &&& info@.uuid == uuid
            &&& info@.name == cname
            &&& post.issued == pre.issued
            &&& !post.has_client(uuid)
            &&& (forall|u: u128| #[trigger] post.has_client(u) <==> (pre.has_client(u) && u != uuid))
            &&& (forall|n: Seq<char>|
                #[trigger] post.has_name(n) <==> (pre.has_name(n) && n != cname))
            &&& (forall|n: Seq<char>|
                #[trigger] post.has_group(n) <==> (pre.has_group(n) && pre.group(n).owner != uuid))
            &&& post.clients.len() == pre.clients.len() - 1
            &&& (forall|j: int|
                0 <= j < post.clients.len() ==> #[trigger] post.clients[j].uuid == pre.clients[
                    crate::concierge::client_shift(j, ci)
                ].uuid && post.clients[j].name == pre.clients[
                    crate::concierge::client_shift(j, ci)
                ].name)
            &&& (forall|j: int, m: Seq<char>|
                0 <= j < post.clients.len() ==> ((#[trigger] post.clients[j].has_group_name(m))
                    <==> (pre.clients[crate::concierge::client_shift(j, ci)].has_group_name(m)
                    && !pre.owned_group(uuid, m))))
            &&& (forall|j: int|
                0 <= j < post.clients.len() ==> ({
                    let mb = (#[trigger] post.clients[j]).mailbox;
                    let base = pre.clients[crate::concierge::client_shift(j, ci)].mailbox;
                    &&& mb.len() >= base.len() + 1
                    &&& mb.last() == left_frame(uuid, cname)
                    &&& base.is_prefix_of(mb.drop_last())
                    &&& (forall|n: Seq<char>|
                        #[trigger] count_frames(mb.drop_last(), unsubscribed_frame(n))
                            == count_frames(base, unsubscribed_frame(n)) + (if pre.owned_group(
                            uuid,
                            n,
                        ) && pre.group(n).clients.contains(
                            pre.clients[crate::concierge::client_shift(j, ci)].uuid,
                        ) {
                            1nat
                        } else {
                            0nat
                        }))
                    &&& (forall|t: int|
                        #![trigger mb[t]]
                        base.len() <= t < mb.len() - 1 ==> (exists|n: Seq<char>|
                            pre.owned_group(uuid, n) && pre.group(n).clients.contains(
                                pre.clients[crate::concierge::client_shift(j, ci)].uuid,
                            ) && mb[t] == #[trigger] unsubscribed_frame(n)))
                }))
        }),
{
    let ghost pre = concierge@;
    let client = match concierge.remove_client(uuid) {
        None => {
            return Err(WsError::Internal);
        },
        Some(c) => c,
    };
    let info = client.make_payload();
    let ghost mid = concierge@;
    let left = PayloadOut::Status {
        seq: None,
        data: StatusData::ClientLeft { data: info.clone() },
    };
    proof {
        assert(left@ == left_frame(uuid, pre.client(uuid).name));
    }
    concierge.broadcast_all(&left);
    proof {
        let post = concierge@;
        let ci = pre.client_i(uuid);
        let cname = pre.client(uuid).name;
        assert forall|j: int| 0 <= j < post.clients.len() implies ({
            let mb = (#[trigger] post.clients[j]).mailbox;
            let base = pre.clients[crate::concierge::client_shift(j, ci)].mailbox;
            &&& mb.len() >= base.len() + 1
            &&& mb.last() == left_frame(uuid, cname)
            &&& base.is_prefix_of(mb.drop_last())
            &&& (forall|n: Seq<char>|
                #[trigger] count_frames(mb.drop_last(), unsubscribed_frame(n)) == count_frames(
                    base,
                    unsubscribed_frame(n),
                ) + (if pre.owned_group(uuid, n) && pre.group(n).clients.contains(
                    pre.clients[crate::concierge::client_shift(j, ci)].uuid,
                ) {
                    1nat
                } else {
                    0nat
                }))
        }) by {
            assert(post.clients[j].mailbox == mid.clients[j].mailbox.push(
                left_frame(uuid, cname),
            ));
            assert(post.clients[j].mailbox.drop_last() =~= mid.clients[j].mailbox);
        }
        assert forall|j: int, m: Seq<char>|
            0 <= j < post.clients.len() implies ((#[trigger] post.clients[j].has_group_name(m))
            <==> (pre.clients[crate::concierge::client_shift(j, ci)].has_group_name(m)
            && !pre.owned_group(uuid, m))) by {
            assert(post.clients[j].groups == mid.clients[j].groups);
            assert(mid.clients[j].has_group_name(m) <==> (pre.clients[
                crate::concierge::client_shift(j, ci)
            ].has_group_name(m) && !pre.owned_group(uuid, m)));
            assert(post.clients[j].has_group_name(m) == post.clients[j].groups.contains(m));
            assert(mid.clients[j].has_group_name(m) == mid.clients[j].groups.contains(m));
        }
        assert forall|u: u128| #[trigger] post.has_client(u) <==> (pre.has_client(u) && u
            != uuid) by {
            assert(post.has_client(u) == crate::concierge::clients_have_uuid(post.clients, u));
            assert(mid.has_client(u) == crate::concierge::clients_have_uuid(mid.clients, u));
            if crate::concierge::clients_have_uuid(post.clients, u) {
                let j = choose|j: int|
                    0 <= j < post.clients.len() && (#[trigger] post.clients[j]).uuid == u;
                assert(mid.clients[j].uuid == u);
            }
            if crate::concierge::clients_have_uuid(mid.clients, u) {
                let j = choose|j: int|
                    0 <= j < mid.clients.len() && (#[trigger] mid.clients[j]).uuid == u;
                assert(post.clients[j].uuid == u);
            }
        }
        assert(!post.has_client(uuid));
        assert forall|n: Seq<char>| #[trigger] post.has_name(n) <==> (pre.has_name(n) && n
            != cname) by {
            assert(post.has_name(n) == crate::concierge::namespace_has_name(post.namespace, n));
            assert(mid.has_name(n) == crate::concierge::namespace_has_name(mid.namespace, n));
        }
        assert forall|n: Seq<char>| #[trigger] post.has_group(n) <==> (pre.has_group(n)
            && pre.group(n).owner != uuid) by {
            assert(post.has_group(n) == crate::concierge::groups_have_name(post.groups, n));
            assert(mid.has_group(n) == crate::concierge::groups_have_name(mid.groups, n));
        }
    }
    Ok(info)
}

/// One inbound frame as the serving loop sees it: either undecodable —
/// with the decoder's error text — or a decoded payload.
#[derive(Debug, PartialEq, Eq)]
pub enum FrameEvent {
    Malformed { message: String },
    Payload(PayloadIn),
}

pub enum FrameEventView {
    Malformed { message: Seq<char> },
    Payload(PayloadInView),
}

impl View for FrameEvent {
    type V = FrameEventView;

    open spec fn view(&self) -> FrameEventView {
        match self {
            FrameEvent::Malformed { message } => FrameEventView::Malformed { message: message@ },
            FrameEvent::Payload(p) => FrameEventView::Payload(p@),
        }
    }
}

/// What serving one frame does: an undecodable frame draws a `Protocol`
/// error carrying the current seq and nothing else; a payload follows
/// the dispatch table.
pub open spec fn step_transition(
    pre: ConciergeView,
    post: ConciergeView,
    sender: u128,
    seq: u64,
    f: FrameEventView,
) -> bool {
    match f {
        FrameEventView::Malformed { message } => sender_error(
            pre,
            post,
            sender,
            seq,
            crate::payload::ErrorCode::Protocol,
        ),
        FrameEventView::Payload(p) => payload_transition(pre, post, sender, seq, p),
    }
}

/// A run of the serving loop, spelled out: `states` are the registry
/// states before and after each frame, and the step for frame `t`
/// carries `t` itself as its seq — the frame's position in the sender's
/// inbound stream.
pub open spec fn serve_trace(
    states: Seq<ConciergeView>,
    sender: u128,
    fs: Seq<FrameEventView>,
) -> bool {
    &&& states.len() == fs.len() + 1
    &&& forall|t: int|
        #![trigger fs[t]]
        0 <= t < fs.len() ==> step_transition(states[t], states[t + 1], sender, t as u64, fs[t])
}

/// What serving a whole inbound sequence does: some run of single steps
/// leads from `pre` to `post`, and the seq a step carries is the frame's
/// position in the sender's stream — so every reply echoes its request's
/// position.
pub open spec fn serve_transition(
    pre: ConciergeView,
    post: ConciergeView,
    sender: u128,
    fs: Seq<FrameEventView>,
) -> bool {
    exists|states: Seq<ConciergeView>|
        #![trigger serve_trace(states, sender, fs)]
        serve_trace(states, sender, fs) && states.first() == pre && states.last() == post
}

/// Serve one inbound frame and return the seq for the next one: the
/// counter advances past every frame, decoded or not, so each frame's
/// seq is its position in the sender's inbound stream.
pub fn handle_frame(concierge: &mut Concierge, sender: u128, seq: u64, frame: FrameEvent) -> (next:
    u64)
    requires
        old(concierge)@.wf(),
        old(concierge)@.has_client(sender),
        seq < u64::MAX,
    ensures
        final(concierge)@.wf(),
        final(concierge)@.has_client(sender),
        step_transition(old(concierge)@, final(concierge)@, sender, seq, frame@),
        next == seq + 1,
{
    match frame {
        FrameEvent::Malformed { message } => {
            crate::router::send_protocol_error(concierge, sender, seq, message);
        },
        FrameEvent::Payload(p) => {
            handle_payload(concierge, sender, seq, p);
        },
    }
    seq + 1
}

/// Serve a whole inbound sequence of decoded frames, the seq counter
/// running from zero over every frame, and return how many were served.
pub fn handle_incoming_messages(concierge: &mut Concierge, sender: u128, frames: Vec<FrameEvent>)
    -> (count: u64)
    requires
        old(concierge)@.wf(),
        old(concierge)@.has_client(sender),
        frames@.len() < u64::MAX,
    ensures
        final(concierge)@.wf(),
        final(concierge)@.has_client(sender),
        serve_transition(
            old(concierge)@,
            final(concierge)@,
            sender,
            frames@.map_values(|f: FrameEvent| f@),
        ),
        count as nat == frames@.len(),
{
    let ghost pre = concierge@;
    let ghost allv = frames@.map_values(|f: FrameEvent| f@);
    let mut rest = frames;
    let mut seq: u64 = 0;
    let ghost mut trace = seq![pre];
    proof {
        assert(allv.subrange(0, 0) =~= Seq::<FrameEventView>::empty());
    }
    while rest.len() > 0
        invariant
            pre.wf(),
            concierge@.wf(),
            concierge@.has_client(sender),
            allv.len() < u64::MAX,
            rest@.len() <= allv.len(),
            rest@.map_values(|f: FrameEvent| f@) == allv.subrange(
                allv.len() - rest@.len(),
                allv.len() as int,
            ),
            seq as nat == allv.len() - rest@.len(),
            trace.len() == allv.len() - rest@.len() + 1,
            trace.first() == pre,
            trace.last() == concierge@,
            forall|t: int|
                #![trigger trace[t]]
                0 <= t < allv.len() - rest@.len() ==> step_transition(
                    trace[t],
                    trace[t + 1],
                    sender,
                    t as u64,
                    allv[t],
                ),
        decreases rest@.len(),
    {
        let ghost k = allv.len() - rest@.len();
        let ghost prevrest = rest@;
        let ghost prevmap = rest@.map_values(|f2: FrameEvent| f2@);
        let f = rest.remove(0);
        let ghost fv = f@;
        proof {
            assert(prevmap == allv.subrange(k, allv.len() as int));
            assert(fv == prevmap[0]);
            assert(fv == allv[k]);
            let newmap = rest@.map_values(|f2: FrameEvent| f2@);
            assert(newmap =~= allv.subrange(k + 1, allv.len() as int)) by {
                assert forall|i: int| 0 <= i < rest@.len() implies #[trigger] newmap[i]
                    == allv.subrange(k + 1, allv.len() as int)[i] by {
                    assert(rest@ == prevrest.remove(0));
                    assert(rest@[i] == prevrest[i + 1]);
                    assert(prevmap[i + 1] == allv[k + 1 + i]);
                }
            }
        }
        let ghost mid = concierge@;
        let next = handle_frame(concierge, sender, seq, f);
        proof {
            let oldtrace = trace;
            trace = trace.push(concierge@);
            assert(trace.last() == concierge@);
            assert(trace.first() == pre);
            assert forall|t: int|
                0 <= t < k + 1 implies step_transition(
                #[trigger] trace[t],
                trace[t + 1],
                sender,
                t as u64,
                allv[t],
            ) by {
                if t < k {
                    assert(trace[t] == oldtrace[t]);
                    assert(trace[t + 1] == oldtrace[t + 1]);
                } else {
                    assert(trace[k] == mid);
                    assert(trace[k + 1] == concierge@);
                    assert(k as u64 == seq);
                    assert(step_transition(mid, concierge@, sender, seq, allv[k]));
                }
            }
        }
        seq = next;
    }
    proof {
        assert(allv.subrange(0, allv.len() as int) =~= allv);
        assert(serve_trace(trace, sender, allv)) by {
            assert forall|t: int| 0 <= t < allv.len() implies step_transition(
                trace[t],
                trace[t + 1],
                sender,
                t as u64,
                #[trigger] allv[t],
            ) by {
                // Mentioning the state at t lets the loop invariant fire.
                assert(trace[t] == trace[t]);
            }
        }
        assert(serve_transition(pre, concierge@, sender, allv));
    }
    seq
}

} // verus!

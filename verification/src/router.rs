//! The router: dispatch of decoded payloads on behalf of a connected
//! sender. Targeted messages are forwarded verbatim — the hub never reads
//! or rewrites the opaque `data` bytes — with an origin stamped on the
//! envelope, and every reply carries the seq of the request it answers.

use vstd::prelude::*;

use crate::concierge::{
    lemma_client_at, lemma_group_at, lemma_member_iff_listed, with_mailbox, Concierge,
    ConciergeView, GroupRemoval, GroupView,
};
use crate::payload::{
    ClientInfoView, ErrorCode, Origin, OriginView, PayloadIn, PayloadInView, PayloadOut,
    PayloadOutView, StatusData, StatusDataView, Target, TargetView,
};

verus! {

/// The envelope delivered to recipients of a message: the sender's
/// identity as origin, the original target, and the untouched data bytes.
pub open spec fn message_frame(
    sender: u128,
    sender_name: Seq<char>,
    group: Option<Seq<char>>,
    target: TargetView,
    data: Seq<u8>,
) -> PayloadOutView {
    PayloadOutView::Message {
        origin: OriginView { uuid: sender, name: sender_name, group },
        target,
        data,
    }
}

/// The receipt a sender gets once a message has been routed.
pub open spec fn sent_receipt(seq: u64) -> PayloadOutView {
    PayloadOutView::Status { seq: Some(seq), data: StatusDataView::MessageSent }
}

/// A status receipt carrying the request's seq.
pub open spec fn status_frame(seq: u64, data: StatusDataView) -> PayloadOutView {
    PayloadOutView::Status { seq: Some(seq), data }
}

/// An error reply with this seq and code (its human-readable message is
/// not part of the protocol).
pub open spec fn is_error_frame(f: PayloadOutView, seq: u64, code: ErrorCode) -> bool {
    match f {
        PayloadOutView::Error { seq: s, code: c, message: _ } => s == Some(seq) && c == code,
        _ => false,
    }
}

/// The tables of the registry are unchanged and every client keeps its
/// identity and subscriptions; only mailboxes may differ.
pub open spec fn tables_unchanged(pre: ConciergeView, post: ConciergeView) -> bool {
    &&& post.namespace == pre.namespace
    &&& post.groups == pre.groups
    &&& post.issued == pre.issued
    &&& post.clients.len() == pre.clients.len()
    &&& forall|i: int|
        0 <= i < pre.clients.len() ==> (#[trigger] post.clients[i]).uuid == pre.clients[i].uuid
            && post.clients[i].name == pre.clients[i].name && post.clients[i].groups
            == pre.clients[i].groups
}

/// Exactly one error reply with this seq and code was appended to the
/// sender's mailbox; everything else is untouched.
pub open spec fn sender_error(
    pre: ConciergeView,
    post: ConciergeView,
    sender: u128,
    seq: u64,
    code: ErrorCode,
) -> bool {
    &&& tables_unchanged(pre, post)
    &&& forall|i: int|
        0 <= i < pre.clients.len() && pre.clients[i].uuid != sender ==> #[trigger] post.clients[i]
            == pre.clients[i]
    &&& forall|i: int|
        0 <= i < pre.clients.len() && pre.clients[i].uuid == sender ==> (
        #[trigger] post.clients[i]).mailbox == pre.clients[i].mailbox.push(
            post.clients[i].mailbox.last(),
        ) && is_error_frame(post.clients[i].mailbox.last(), seq, code)
}

/// Exactly one copy of `f` was appended to the sender's mailbox;
/// everything else is untouched.
pub open spec fn sender_reply(
    pre: ConciergeView,
    post: ConciergeView,
    sender: u128,
    f: PayloadOutView,
) -> bool {
    &&& tables_unchanged(pre, post)
    &&& forall|i: int|
        0 <= i < pre.clients.len() ==> #[trigger] post.clients[i] == (if pre.clients[i].uuid
            == sender {
            with_mailbox(pre.clients[i], pre.clients[i].mailbox.push(f))
        } else {
            pre.clients[i]
        })
}

/// Message fan-out: each recipient's mailbox gets one copy of `msg`, and
/// after that the sender's mailbox gets the `MessageSent` receipt. A
/// sender that is itself a recipient sees the message before the receipt.
pub open spec fn fanout(
    pre: ConciergeView,
    post: ConciergeView,
    sender: u128,
    seq: u64,
    msg: PayloadOutView,
    rcpt: spec_fn(int) -> bool,
) -> bool {
    &&& tables_unchanged(pre, post)
    &&& forall|i: int|
        0 <= i < pre.clients.len() ==> #[trigger] post.clients[i] == ({
            let base = pre.clients[i].mailbox;
            let m1 = if rcpt(i) {
                base.push(msg)
            } else {
                base
            };
            let m2 = if pre.clients[i].uuid == sender {
                m1.push(sent_receipt(seq))
            } else {
                m1
            };
            with_mailbox(pre.clients[i], m2)
        })
}

/// What a `MESSAGE` payload does, for every target kind: deliver the
/// stamped envelope to the resolved recipients and a receipt to the
/// sender, or an error naming what failed to resolve. The data bytes in
/// every delivered envelope are the sender's, untouched.
pub open spec fn message_transition(
    pre: ConciergeView,
    post: ConciergeView,
    sender: u128,
    seq: u64,
    target: TargetView,
    data: Seq<u8>,
) -> bool {
    let sname = pre.client(sender).name;
    match target {
        TargetView::Name { name } => if pre.has_name(name) {
            fanout(
                pre,
                post,
                sender,
                seq,
                message_frame(sender, sname, None, target, data),
                |i: int| pre.clients[i].uuid == pre.uuid_of(name),
            )
        } else {
            sender_error(pre, post, sender, seq, ErrorCode::NoSuchName)
        },
        TargetView::Uuid { uuid } => if pre.has_client(uuid) {
            fanout(
                pre,
                post,
                sender,
                seq,
                message_frame(sender, sname, None, target, data),
                |i: int| pre.clients[i].uuid == uuid,
            )
        } else {
            sender_error(pre, post, sender, seq, ErrorCode::NoSuchUuid)
        },
        TargetView::Group { group } => if pre.has_group(group) {
            fanout(
                pre,
                post,
                sender,
                seq,
                message_frame(sender, sname, Some(group), target, data),
                |i: int| pre.group(group).clients.contains(pre.clients[i].uuid),
            )
        } else {
            sender_error(pre, post, sender, seq, ErrorCode::NoSuchGroup)
        },
        TargetView::All => fanout(
            pre,
            post,
            sender,
            seq,
            message_frame(sender, sname, None, target, data),
            |i: int| true,
        ),
    }
}

/// What a `SUBSCRIBE` payload does: join the group on both sides of the
/// registry — idempotently — and receive a `Subscribed` receipt, or an
/// error when the group does not exist.
pub open spec fn subscribe_transition(
    pre: ConciergeView,
    post: ConciergeView,
    sender: u128,
    seq: u64,
    group: Seq<char>,
) -> bool {
    if pre.has_group(group) {
        let gi = pre.group_i(group);
        let ci = pre.client_i(sender);
        let rframe = status_frame(seq, StatusDataView::Subscribed { group });
        &&& post.namespace == pre.namespace
        &&& post.issued == pre.issued
        &&& post.groups.len() == pre.groups.len()
        &&& forall|k: int|
            0 <= k < pre.groups.len() && k != gi ==> #[trigger] post.groups[k] == pre.groups[k]
        &&& post.groups[gi].name == group
        &&& post.groups[gi].owner == pre.groups[gi].owner
        &&& forall|y: u128|
            #[trigger] post.groups[gi].clients.contains(y) <==> (pre.groups[gi].clients.contains(
                y,
            ) || y == sender)
        &&& post.clients.len() == pre.clients.len()
        &&& forall|j: int|
            0 <= j < pre.clients.len() && j != ci ==> #[trigger] post.clients[j] == pre.clients[j]
        &&& post.clients[ci].uuid == sender
        &&& post.clients[ci].name == pre.clients[ci].name
        &&& forall|m: Seq<char>|
            (#[trigger] post.clients[ci].has_group_name(m)) <==> (pre.clients[ci].has_group_name(
                m,
            ) || m == group)
        &&& post.clients[ci].mailbox == pre.clients[ci].mailbox.push(rframe)
    } else {
        sender_error(pre, post, sender, seq, ErrorCode::NoSuchGroup)
    }
}

/// What an `UNSUBSCRIBE` payload does: leave the group on both sides of
/// the registry and receive an `Unsubscribed` receipt even when not a
/// member — the operation is idempotent — or an error when the group does
/// not exist.
pub open spec fn unsubscribe_transition(
    pre: ConciergeView,
    post: ConciergeView,
    sender: u128,
    seq: u64,
    group: Seq<char>,
) -> bool {
    if pre.has_group(group) {
        let gi = pre.group_i(group);
        let ci = pre.client_i(sender);
        let rframe = status_frame(seq, StatusDataView::Unsubscribed { group });
        &&& post.namespace == pre.namespace
        &&& post.issued == pre.issued
        &&& post.groups.len() == pre.groups.len()
        &&& forall|k: int|
            0 <= k < pre.groups.len() && k != gi ==> #[trigger] post.groups[k] == pre.groups[k]
        &&& post.groups[gi].name == group
        &&& post.groups[gi].owner == pre.groups[gi].owner
        &&& forall|y: u128|
            #[trigger] post.groups[gi].clients.contains(y) <==> (pre.groups[gi].clients.contains(
                y,
            ) && y != sender)
        &&& post.clients.len() == pre.clients.len()
        &&& forall|j: int|
            0 <= j < pre.clients.len() && j != ci ==> #[trigger] post.clients[j] == pre.clients[j]
        &&& post.clients[ci].uuid == sender
        &&& post.clients[ci].name == pre.clients[ci].name
        &&& forall|m: Seq<char>|
            (#[trigger] post.clients[ci].has_group_name(m)) <==> (pre.clients[ci].has_group_name(
                m,
            ) && m != group)
        &&& post.clients[ci].mailbox == pre.clients[ci].mailbox.push(rframe)
        &&& !pre.member(group, sender) ==> post.groups == pre.groups
            && post.clients[ci].groups == pre.clients[ci].groups
    } else {
        sender_error(pre, post, sender, seq, ErrorCode::NoSuchGroup)
    }
}

/// What a `GROUP_CREATE` payload does: a fresh empty group owned by the
/// sender and a `CreatedGroup` receipt, or an error when the name is
/// taken.
pub open spec fn group_create_transition(
    pre: ConciergeView,
    post: ConciergeView,
    sender: u128,
    seq: u64,
    group: Seq<char>,
) -> bool {
    if !pre.has_group(group) {
        let rframe = status_frame(seq, StatusDataView::CreatedGroup { group });
        &&& post.namespace == pre.namespace
        &&& post.issued == pre.issued
        &&& post.groups == pre.groups.push(
            GroupView { name: group, owner: sender, clients: Seq::<u128>::empty() },
        )
        &&& post.clients.len() == pre.clients.len()
        &&& forall|j: int|
            0 <= j < pre.clients.len() ==> #[trigger] post.clients[j] == (if pre.clients[j].uuid
                == sender {
                with_mailbox(pre.clients[j], pre.clients[j].mailbox.push(rframe))
            } else {
                pre.clients[j]
            })
    } else {
        sender_error(pre, post, sender, seq, ErrorCode::GroupAlreadyCreated)
    }
}

/// What a `GROUP_DELETE` payload does: when the sender owns the group,
/// the group goes away, its members get exactly one `Unsubscribed`
/// receipt and lose the subscription, and the sender gets a
/// `DeletedGroup` receipt; otherwise an error says what went wrong.
pub open spec fn group_delete_transition(
    pre: ConciergeView,
    post: ConciergeView,
    sender: u128,
    seq: u64,
    group: Seq<char>,
) -> bool {
    if !pre.has_group(group) {
        sender_error(pre, post, sender, seq, ErrorCode::NoSuchGroup)
    } else if pre.group(group).owner != sender {
        sender_error(pre, post, sender, seq, ErrorCode::Unauthorized)
    } else {
        let gi = pre.group_i(group);
        let rframe = status_frame(seq, StatusDataView::DeletedGroup { group });
        &&& post.namespace == pre.namespace
        &&& post.issued == pre.issued
        &&& post.groups == pre.groups.remove(gi)
        &&& post.clients.len() == pre.clients.len()
        &&& forall|j: int|
            0 <= j < pre.clients.len() ==> (#[trigger] post.clients[j]).uuid
                == pre.clients[j].uuid && post.clients[j].name == pre.clients[j].name
        &&& forall|j: int|
            0 <= j < pre.clients.len() ==> (#[trigger] post.clients[j]).mailbox == ({
                let base = pre.clients[j].mailbox;
                let m1 = if pre.groups[gi].clients.contains(pre.clients[j].uuid) {
                    base.push(crate::concierge::unsubscribed_frame(group))
                } else {
                    base
                };
                if pre.clients[j].uuid == sender {
                    m1.push(rframe)
                } else {
                    m1
                }
            })
        &&& forall|j: int, m: Seq<char>|
            0 <= j < pre.clients.len() && pre.groups[gi].clients.contains(pre.clients[j].uuid)
                ==> ((#[trigger] post.clients[j].has_group_name(m)) <==> (
            pre.clients[j].has_group_name(m) && m != group))
        &&& forall|j: int|
            0 <= j < pre.clients.len() && !pre.groups[gi].clients.contains(pre.clients[j].uuid)
                ==> (#[trigger] post.clients[j]).groups == pre.clients[j].groups
    }
}

/// The reply to `FETCH_CLIENTS`: every connected client's identity, in
/// table order.
pub open spec fn clients_snapshot_frame(pre: ConciergeView, seq: u64) -> PayloadOutView {
    PayloadOutView::Clients {
        seq: Some(seq),
        clients: Seq::new(pre.clients.len(), |i: int| pre.clients[i].info()),
    }
}

/// The reply to `FETCH_GROUPS`: every group name, in table order.
pub open spec fn groups_snapshot_frame(pre: ConciergeView, seq: u64) -> PayloadOutView {
    PayloadOutView::Groups {
        seq: Some(seq),
        groups: Seq::new(pre.groups.len(), |k: int| pre.groups[k].name),
    }
}

/// The reply to `FETCH_SUBSCRIPTIONS`: the sender's subscribed group
/// names.
pub open spec fn subscriptions_frame(pre: ConciergeView, sender: u128, seq: u64) -> PayloadOutView {
    PayloadOutView::Subscriptions { seq: Some(seq), groups: pre.client(sender).groups }
}

/// The reply to `FETCH_GROUP_SUBSCRIBERS`: the group's members'
/// identities, in member-list order.
pub open spec fn group_subscribers_frame(
    pre: ConciergeView,
    group: Seq<char>,
    seq: u64,
) -> PayloadOutView {
    PayloadOutView::GroupSubscribers {
        seq: Some(seq),
        group,
        clients: Seq::new(
            pre.group(group).clients.len(),
            |t: int|
                ClientInfoView {
                    uuid: pre.group(group).clients[t],
                    name: pre.client(pre.group(group).clients[t]).name,
                },
        ),
    }
}

/// Route one `MESSAGE`: resolve the target, deliver the stamped envelope,
/// and answer the sender with a receipt or the matching error.
pub fn handle_raw_message(
    concierge: &mut Concierge,
    sender: u128,
    seq: u64,
    target: &Target,
    data: Vec<u8>,
)
    requires
        old(concierge)@.wf(),
        old(concierge)@.has_client(sender),
    ensures
        final(concierge)@.wf(),
        message_transition(old(concierge)@, final(concierge)@, sender, seq, target@, data@),
{
    let ghost pre = concierge@;
    let sender_name = match concierge.resolve_uuid(sender) {
        Some(n) => n,
        None => {
            proof {
                assert(false);
            }
            vstd::pervasive::unreached()
        },
    };
    match target {
        Target::Name { name } => {
            match concierge.resolve_name(name) {
                Some(u) => {
                    proof {
                        let ni = pre.name_i(name@);
                        assert(pre.entry_backed(ni));
                        let j = choose|j: int|
                            0 <= j < pre.clients.len() && (#[trigger] pre.clients[j]).uuid
                                == pre.namespace[ni].uuid && pre.clients[j].name
                                == pre.namespace[ni].name;
                        assert(pre.has_client(u)) by {
                            assert(pre.clients[j].uuid == u);
                        }
                    }
                    let msg = PayloadOut::Message {
                        origin: Origin { uuid: sender, name: sender_name, group: None },
                        target: target.clone(),
                        data,
                    };
                    let ghost msgv = msg@;
                    let delivered = concierge.enqueue(u, msg);
                    proof {
                        assert(delivered);
                        let j = pre.client_i(sender);
                        assert(concierge@.clients[j].uuid == sender);
                    }
                    let ghost mid = concierge@;
                    send_receipt(concierge, sender, seq);
                    proof {
                        let post = concierge@;
                        assert forall|i: int| 0 <= i < pre.clients.len() implies #[trigger] post.clients[i]
                            == ({
                            let base = pre.clients[i].mailbox;
                            let m1 = if pre.clients[i].uuid == pre.uuid_of(name@) {
                                base.push(msgv)
                            } else {
                                base
                            };
                            let m2 = if pre.clients[i].uuid == sender {
                                m1.push(sent_receipt(seq))
                            } else {
                                m1
                            };
                            with_mailbox(pre.clients[i], m2)
                        }) by {
                            assert(mid.clients[i].uuid == pre.clients[i].uuid);
                        }
                    }
                },
                None => {
                    send_error(concierge, sender, seq, ErrorCode::NoSuchName, "no such name");
                },
            }
        },
        Target::Uuid { uuid } => {
            let u = *uuid;
            let known = {
                let r = concierge.resolve_uuid(u);
                match r {
                    Some(_) => true,
                    None => false,
                }
            };
            if known {
                let msg = PayloadOut::Message {
                    origin: Origin { uuid: sender, name: sender_name, group: None },
                    target: target.clone(),
                    data,
                };
                let ghost msgv = msg@;
                let delivered = concierge.enqueue(u, msg);
                proof {
                    assert(delivered);
                    let j = pre.client_i(sender);
                    assert(concierge@.clients[j].uuid == sender);
                }
                let ghost mid = concierge@;
                send_receipt(concierge, sender, seq);
                proof {
                    let post = concierge@;
                    assert forall|i: int| 0 <= i < pre.clients.len() implies #[trigger] post.clients[i]
                        == ({
                        let base = pre.clients[i].mailbox;
                        let m1 = if pre.clients[i].uuid == u {
                            base.push(msgv)
                        } else {
                            base
                        };
                        let m2 = if pre.clients[i].uuid == sender {
                            m1.push(sent_receipt(seq))
                        } else {
                            m1
                        };
                        with_mailbox(pre.clients[i], m2)
                    }) by {
                        assert(mid.clients[i].uuid == pre.clients[i].uuid);
                    }
                }
            } else {
                send_error(concierge, sender, seq, ErrorCode::NoSuchUuid, "no such uuid");
            }
        },
        Target::Group { group } => {
            let msg = PayloadOut::Message {
                origin: Origin {
                    uuid: sender,
                    name: sender_name,
                    group: Some(group.clone()),
                },
                target: target.clone(),
                data,
            };
            let ghost msgv = msg@;
            let sent = concierge.broadcast_group(group, &msg);
            if sent {
                proof {
                    let j = pre.client_i(sender);
                    assert(concierge@.clients[j].uuid == sender);
                }
                let ghost mid = concierge@;
                send_receipt(concierge, sender, seq);
                proof {
                    let post = concierge@;
                    assert forall|i: int| 0 <= i < pre.clients.len() implies #[trigger] post.clients[i]
                        == ({
                        let base = pre.clients[i].mailbox;
                        let m1 = if pre.group(group@).clients.contains(pre.clients[i].uuid) {
                            base.push(msgv)
                        } else {
                            base
                        };
                        let m2 = if pre.clients[i].uuid == sender {
                            m1.push(sent_receipt(seq))
                        } else {
                            m1
                        };
                        with_mailbox(pre.clients[i], m2)
                    }) by {
                        assert(mid.clients[i].uuid == pre.clients[i].uuid);
                    }
                }
            } else {
                send_error(concierge, sender, seq, ErrorCode::NoSuchGroup, "no such group");
            }
        },
        Target::All => {
            let msg = PayloadOut::Message {
                origin: Origin { uuid: sender, name: sender_name, group: None },
                target: target.clone(),
                data,
            };
            let ghost msgv = msg@;
            concierge.broadcast_all(&msg);
            proof {
                let j = pre.client_i(sender);
                assert(concierge@.clients[j].uuid == sender);
            }
            let ghost mid = concierge@;
            send_receipt(concierge, sender, seq);
            proof {
                let post = concierge@;
                assert forall|i: int| 0 <= i < pre.clients.len() implies #[trigger] post.clients[i]
                    == ({
                    let base = pre.clients[i].mailbox;
                    let m1 = base.push(msgv);
                    let m2 = if pre.clients[i].uuid == sender {
                        m1.push(sent_receipt(seq))
                    } else {
                        m1
                    };
                    with_mailbox(pre.clients[i], m2)
                }) by {
                    assert(mid.clients[i].uuid == pre.clients[i].uuid);
                }
            }
        },
    }
}

/// What one decoded payload does, whatever its kind: the whole dispatch
/// table of the hub as a relation between the registry before and after.
pub open spec fn payload_transition(
    pre: ConciergeView,
    post: ConciergeView,
    sender: u128,
    seq: u64,
    p: PayloadInView,
) -> bool {
    match p {
        PayloadInView::Message { target, data } => message_transition(
            pre,
            post,
            sender,
            seq,
            target,
            data,
        ),
        PayloadInView::Subscribe { group } => subscribe_transition(pre, post, sender, seq, group),
        PayloadInView::Unsubscribe { group } => unsubscribe_transition(
            pre,
            post,
            sender,
            seq,
            group,
        ),
        PayloadInView::GroupCreate { group } => group_create_transition(
            pre,
            post,
            sender,
            seq,
            group,
        ),
        PayloadInView::GroupDelete { group } => group_delete_transition(
            pre,
            post,
            sender,
            seq,
            group,
        ),
        PayloadInView::FetchGroupSubscribers { group } => if pre.has_group(group) {
            sender_reply(pre, post, sender, group_subscribers_frame(pre, group, seq))
        } else {
            sender_error(pre, post, sender, seq, ErrorCode::NoSuchGroup)
        },
        PayloadInView::FetchClients => sender_reply(pre, post, sender, clients_snapshot_frame(pre, seq)),
        PayloadInView::FetchGroups => sender_reply(pre, post, sender, groups_snapshot_frame(pre, seq)),
        PayloadInView::FetchSubscriptions => sender_reply(
            pre,
            post,
            sender,
            subscriptions_frame(pre, sender, seq),
        ),
        PayloadInView::Identify { name, version, secret } => sender_error(
            pre,
            post,
            sender,
            seq,
            ErrorCode::Unsupported,
        ),
        PayloadInView::Other => sender_error(pre, post, sender, seq, ErrorCode::Unsupported),
    }
}

/// Handles one decoded payload on behalf of `sender`: the dispatch table
/// of the hub. Every reply carries `seq`, the position of this request in
/// the sender's inbound stream.
pub fn handle_payload(concierge: &mut Concierge, sender: u128, seq: u64, payload: PayloadIn)
    requires
        old(concierge)@.wf(),
        old(concierge)@.has_client(sender),
    ensures
        final(concierge)@.wf(),
        final(concierge)@.has_client(sender),
        payload_transition(old(concierge)@, final(concierge)@, sender, seq, payload@),
{
    let ghost pre = concierge@;
    match payload {
        PayloadIn::Message { target, data } => {
            handle_raw_message(concierge, sender, seq, &target, data);
        },
        PayloadIn::Subscribe { group } => {
            let joined = concierge.subscribe(sender, &group);
            if joined {
                let ghost mid = concierge@;
                let ghost gi = pre.group_i(group@);
                let ghost ci = pre.client_i(sender);
                proof {
                    lemma_group_at(pre, gi);
                    lemma_client_at(pre, ci);
                    lemma_member_iff_listed(pre, gi, ci);
                    assert(mid.clients[ci].uuid == sender);
                }
                send_frame(
                    concierge,
                    sender,
                    PayloadOut::Status {
                        seq: Some(seq),
                        data: StatusData::Subscribed { group },
                    },
                );
                proof {
                    let post = concierge@;
                    assert(post.clients[ci].groups == mid.clients[ci].groups);
                    assert(post.groups == mid.groups);
                    if pre.member(group@, sender) {
                        assert(mid == pre);
                        assert(pre.clients[ci].has_group_name(group@));
                        assert forall|m: Seq<char>| (#[trigger] post.clients[ci].has_group_name(
                            m,
                        )) <==> (pre.clients[ci].has_group_name(m) || m == group@) by {
                            assert(post.clients[ci].has_group_name(m) == post.clients[
                                ci
                            ].groups.contains(m));
                            assert(pre.clients[ci].has_group_name(m) == pre.clients[
                                ci
                            ].groups.contains(m));
                        }
                    } else {
                        assert(mid.groups[gi].clients == pre.groups[gi].clients.push(sender));
                        assert forall|y: u128| #[trigger] mid.groups[gi].clients.contains(y)
                            <==> (pre.groups[gi].clients.contains(y) || y == sender) by {
                            let s = pre.groups[gi].clients;
                            if s.contains(y) {
                                let t = choose|t: int| 0 <= t < s.len() && s[t] == y;
                                assert(s.push(sender)[t] == y);
                            }
                            if y == sender {
                                assert(s.push(sender)[s.len() as int] == y);
                            }
                            if s.push(sender).contains(y) {
                                let t = choose|t: int|
                                    0 <= t < s.push(sender).len() && s.push(sender)[t] == y;
                                if t < s.len() {
                                    assert(s[t] == y);
                                }
                            }
                        }
                        assert(mid.clients[ci].groups == pre.clients[ci].groups.push(group@));
                        assert forall|m: Seq<char>| (#[trigger] mid.clients[ci].has_group_name(
                            m,
                        )) <==> (pre.clients[ci].has_group_name(m) || m == group@) by {
                            let s = pre.clients[ci].groups;
                            if s.contains(m) {
                                let t = choose|t: int| 0 <= t < s.len() && s[t] == m;
                                assert(s.push(group@)[t] == m);
                            }
                            if m == group@ {
                                assert(s.push(group@)[s.len() as int] == m);
                            }
                            if s.push(group@).contains(m) {
                                let t = choose|t: int|
                                    0 <= t < s.push(group@).len() && s.push(group@)[t] == m;
                                if t < s.len() {
                                    assert(s[t] == m);
                                }
                            }
                        }
                    }
                    if !pre.member(group@, sender) {
                        assert forall|m: Seq<char>| (#[trigger] post.clients[ci].has_group_name(
                            m,
                        )) <==> (pre.clients[ci].has_group_name(m) || m == group@) by {
                            assert(post.clients[ci].has_group_name(m) == post.clients[
                                ci
                            ].groups.contains(m));
                            assert(mid.clients[ci].has_group_name(m) == mid.clients[
                                ci
                            ].groups.contains(m));
                        }
                    }
                    assert(post.clients[ci].mailbox == pre.clients[ci].mailbox.push(
                        status_frame(seq, StatusDataView::Subscribed { group: group@ }),
                    ));
                }
            } else {
                send_error(concierge, sender, seq, ErrorCode::NoSuchGroup, "no such group");
            }
        },
        PayloadIn::Unsubscribe { group } => {
            let existed = concierge.unsubscribe(sender, &group);
            if existed {
                let ghost mid = concierge@;
                let ghost gi = pre.group_i(group@);
                let ghost ci = pre.client_i(sender);
                proof {
                    lemma_group_at(pre, gi);
                    lemma_client_at(pre, ci);
                    lemma_member_iff_listed(pre, gi, ci);
                    assert(mid.clients[ci].uuid == sender);
                }
                send_frame(
                    concierge,
                    sender,
                    PayloadOut::Status {
                        seq: Some(seq),
                        data: StatusData::Unsubscribed { group },
                    },
                );
                proof {
                    let post = concierge@;
                    assert(post.clients[ci].groups == mid.clients[ci].groups);
                    assert(post.groups == mid.groups);
                    if !pre.member(group@, sender) {
                        assert(mid == pre);
                        assert(!pre.groups[gi].clients.contains(sender));
                        assert(!pre.clients[ci].has_group_name(group@));
                    }
                    assert forall|m: Seq<char>| (#[trigger] post.clients[ci].has_group_name(
                        m,
                    )) <==> (pre.clients[ci].has_group_name(m) && m != group@) by {
                        assert(post.clients[ci].has_group_name(m) == post.clients[
                            ci
                        ].groups.contains(m));
                        assert(mid.clients[ci].has_group_name(m) == mid.clients[
                            ci
                        ].groups.contains(m));
                        assert(pre.clients[ci].has_group_name(m) == pre.clients[
                            ci
                        ].groups.contains(m));
                    }
                    assert(post.clients[ci].mailbox == pre.clients[ci].mailbox.push(
                        status_frame(seq, StatusDataView::Unsubscribed { group: group@ }),
                    ));
                }
            } else {
                send_error(concierge, sender, seq, ErrorCode::NoSuchGroup, "no such group");
            }
        },
        PayloadIn::GroupCreate { group } => {
            let ghost gname = group@;
            let created = concierge.create_group(group.clone(), sender);
            if created {
                proof {
                    let ci = pre.client_i(sender);
                    assert(concierge@.clients[ci].uuid == sender);
                }
                send_frame(
                    concierge,
                    sender,
                    PayloadOut::Status {
                        seq: Some(seq),
                        data: StatusData::CreatedGroup { group },
                    },
                );
            } else {
                send_error(
                    concierge,
                    sender,
                    seq,
                    ErrorCode::GroupAlreadyCreated,
                    "group already created",
                );
            }
        },
        PayloadIn::GroupDelete { group } => {
            match concierge.remove_group(&group, sender) {
                GroupRemoval::Deleted => {
                    let ghost mid = concierge@;
                    let ghost gi = pre.group_i(group@);
                    proof {
                        let ci = pre.client_i(sender);
                        lemma_client_at(pre, ci);
                        assert(mid.clients[ci].uuid == sender);
                    }
                    send_frame(
                        concierge,
                        sender,
                        PayloadOut::Status {
                            seq: Some(seq),
                            data: StatusData::DeletedGroup { group },
                        },
                    );
                    proof {
                        let post = concierge@;
                        assert forall|j: int|
                            0 <= j < pre.clients.len() implies (#[trigger] post.clients[j]).mailbox
                            == ({
                            let base = pre.clients[j].mailbox;
                            let m1 = if pre.groups[gi].clients.contains(pre.clients[j].uuid) {
                                base.push(crate::concierge::unsubscribed_frame(group@))
                            } else {
                                base
                            };
                            if pre.clients[j].uuid == sender {
                                m1.push(
                                    status_frame(
                                        seq,
                                        StatusDataView::DeletedGroup { group: group@ },
                                    ),
                                )
                            } else {
                                m1
                            }
                        }) by {
                            assert(mid.clients[j].uuid == pre.clients[j].uuid);
                        }
                        assert forall|j: int, m: Seq<char>|
                            0 <= j < pre.clients.len() && pre.groups[gi].clients.contains(
                                pre.clients[j].uuid,
                            ) implies ((#[trigger] post.clients[j].has_group_name(m)) <==> (
                        pre.clients[j].has_group_name(m) && m != group@)) by {
                            assert(post.clients[j].groups == mid.clients[j].groups);
                            assert(mid.clients[j].has_group_name(m) <==> (
                            pre.clients[j].has_group_name(m) && m != group@));
                            assert(post.clients[j].has_group_name(m) == post.clients[
                                j
                            ].groups.contains(m));
                            assert(mid.clients[j].has_group_name(m) == mid.clients[
                                j
                            ].groups.contains(m));
                        }
                        assert forall|j: int|
                            0 <= j < pre.clients.len() && !pre.groups[gi].clients.contains(
                                pre.clients[j].uuid,
                            ) implies (#[trigger] post.clients[j]).groups
                            == pre.clients[j].groups by {
                            assert(mid.clients[j] == pre.clients[j]);
                            assert(post.clients[j].groups == mid.clients[j].groups);
                        }
                    }
                },
                GroupRemoval::NotFound => {
                    send_error(concierge, sender, seq, ErrorCode::NoSuchGroup, "no such group");
                },
                GroupRemoval::NotOwner => {
                    send_error(
                        concierge,
                        sender,
                        seq,
                        ErrorCode::Unauthorized,
                        "not the group owner",
                    );
                },
            }
        },
        PayloadIn::FetchGroupSubscribers { group } => {
            match concierge.snapshot_members(&group) {
                Some(clients) => {
                    let ghost gname = group@;
                    let frame = PayloadOut::GroupSubscribers {
                        seq: Some(seq),
                        group,
                        clients,
                    };
                    proof {
                        assert(frame@ == group_subscribers_frame(pre, gname, seq)) by {
                            let a = frame@;
                            let b = group_subscribers_frame(pre, gname, seq);
                            match a {
                                PayloadOutView::GroupSubscribers { seq: _, group: _, clients: ac }
                                    => {
                                    match b {
                                        PayloadOutView::GroupSubscribers {
                                            seq: _,
                                            group: _,
                                            clients: bc,
                                        } => {
                                            assert(ac =~= bc);
                                        },
                                        _ => {
                                            assert(false);
                                        },
                                    }
                                },
                                _ => {
                                    assert(false);
                                },
                            }
                        }
                    }
                    send_frame(concierge, sender, frame);
                },
                None => {
                    send_error(concierge, sender, seq, ErrorCode::NoSuchGroup, "no such group");
                },
            }
        },
        PayloadIn::FetchClients => {
            let clients = concierge.snapshot_clients();
            let frame = PayloadOut::Clients { seq: Some(seq), clients };
            proof {
                assert(frame@ == clients_snapshot_frame(pre, seq)) by {
                    let a = frame@;
                    let b = clients_snapshot_frame(pre, seq);
                    match a {
                        PayloadOutView::Clients { seq: _, clients: ac } => {
                            match b {
                                PayloadOutView::Clients { seq: _, clients: bc } => {
                                    assert(ac =~= bc);
                                },
                                _ => {
                                    assert(false);
                                },
                            }
                        },
                        _ => {
                            assert(false);
                        },
                    }
                }
            }
            send_frame(concierge, sender, frame);
        },
        PayloadIn::FetchGroups => {
            let groups = concierge.snapshot_groups();
            let frame = PayloadOut::Groups { seq: Some(seq), groups };
            proof {
                assert(frame@ == groups_snapshot_frame(pre, seq)) by {
                    let a = frame@;
                    let b = groups_snapshot_frame(pre, seq);
                    match a {
                        PayloadOutView::Groups { seq: _, groups: ag } => {
                            match b {
                                PayloadOutView::Groups { seq: _, groups: bg } => {
                                    assert(ag =~= bg);
                                },
                                _ => {
                                    assert(false);
                                },
                            }
                        },
                        _ => {
                            assert(false);
                        },
                    }
                }
            }
            send_frame(concierge, sender, frame);
        },
        PayloadIn::FetchSubscriptions => {
            match concierge.snapshot_subscriptions(sender) {
                Some(groups) => {
                    let frame = PayloadOut::Subscriptions { seq: Some(seq), groups };
                    proof {
                        assert(frame@ == subscriptions_frame(pre, sender, seq));
                    }
                    send_frame(concierge, sender, frame);
                },
                None => {
                    proof {
                        assert(false);
                    }
                    vstd::pervasive::unreached()
                },
            }
        },
        PayloadIn::Identify { name: _, version: _, secret: _ } => {
            send_error(concierge, sender, seq, ErrorCode::Unsupported, "unsupported operation");
        },
        PayloadIn::Other => {
            send_error(concierge, sender, seq, ErrorCode::Unsupported, "unsupported operation");
        },
    }
    proof {
        let j = pre.client_i(sender);
        assert(concierge@.clients[j].uuid == sender);
        assert(concierge@.has_client(sender));
    }
}

/// Reply to a frame that could not be decoded: a `Protocol` error with
/// the decoder's own words, carrying the current seq. The session goes
/// on.
pub fn send_protocol_error(concierge: &mut Concierge, sender: u128, seq: u64, message: String)
    requires
        old(concierge)@.wf(),
        old(concierge)@.has_client(sender),
    ensures
        final(concierge)@.wf(),
        final(concierge)@.has_client(sender),
        sender_error(old(concierge)@, final(concierge)@, sender, seq, ErrorCode::Protocol),
{
    let ghost pre = concierge@;
    let frame = PayloadOut::Error { seq: Some(seq), code: ErrorCode::Protocol, message };
    let ghost fv = frame@;
    let ok = concierge.enqueue(sender, frame);
    proof {
        assert(ok);
        let post = final(concierge)@;
        let j = pre.client_i(sender);
        assert(post.clients[j].uuid == sender);
        assert forall|i: int|
            0 <= i < pre.clients.len() && pre.clients[i].uuid == sender implies (
        #[trigger] post.clients[i]).mailbox == pre.clients[i].mailbox.push(
            post.clients[i].mailbox.last(),
        ) && is_error_frame(post.clients[i].mailbox.last(), seq, ErrorCode::Protocol) by {
            assert(post.clients[i].mailbox == pre.clients[i].mailbox.push(fv));
        }
    }
}

/// Append one frame to the sender's mailbox.
fn send_frame(concierge: &mut Concierge, sender: u128, frame: PayloadOut)
    requires
        old(concierge)@.wf(),
        old(concierge)@.has_client(sender),
    ensures
        final(concierge)@.wf(),
        sender_reply(old(concierge)@, final(concierge)@, sender, frame@),
{
    let ghost fv = frame@;
    let ok = concierge.enqueue(sender, frame);
    proof {
        assert(ok);
    }
}

/// Append the `MessageSent` receipt for request `seq` to the sender's
/// mailbox.
fn send_receipt(concierge: &mut Concierge, sender: u128, seq: u64)
    requires
        old(concierge)@.wf(),
        old(concierge)@.has_client(sender),
    ensures
        final(concierge)@.wf(),
        sender_reply(old(concierge)@, final(concierge)@, sender, sent_receipt(seq)),
{
    let receipt = PayloadOut::Status { seq: Some(seq), data: StatusData::MessageSent };
    let ghost rv = receipt@;
    let ok = concierge.enqueue(sender, receipt);
    proof {
        assert(ok);
        assert(rv == sent_receipt(seq));
    }
}

/// Append an error reply for request `seq` to the sender's mailbox.
fn send_error(concierge: &mut Concierge, sender: u128, seq: u64, code: ErrorCode, text: &str)
    requires
        old(concierge)@.wf(),
        old(concierge)@.has_client(sender),
    ensures
        final(concierge)@.wf(),
        sender_error(old(concierge)@, final(concierge)@, sender, seq, code),
{
    let frame = PayloadOut::Error { seq: Some(seq), code, message: String::from_str(text) };
    let ghost fv = frame@;
    let ok = concierge.enqueue(sender, frame);
    proof {
        assert(ok);
        let pre = old(concierge)@;
        let post = final(concierge)@;
        assert forall|i: int|
            0 <= i < pre.clients.len() && pre.clients[i].uuid == sender implies (
        #[trigger] post.clients[i]).mailbox == pre.clients[i].mailbox.push(
            post.clients[i].mailbox.last(),
        ) && is_error_frame(post.clients[i].mailbox.last(), seq, code) by {
            assert(post.clients[i].mailbox == pre.clients[i].mailbox.push(fv));
        }
    }
}

} // verus!

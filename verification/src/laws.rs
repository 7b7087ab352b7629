use vstd::prelude::*;

use crate::address::SocketAddress;
use crate::codec::{rumour_subject, InboundView, NodeId, RequestView, Rumour};
use crate::fixed_list::{list_of, slots_prefix, FIXED_LIST_CAPACITY};
use crate::gossip::{
    after_forget, gossip_well_formed, insert_sorted, knows_rumour, lemma_forget_drops_member,
    lemma_insert_sorted, lemma_pull_spends_budget, lemma_remember_idempotent, GossipState,
    INITIAL_SPREAD,
};
use crate::mill::{
    spec_check_pending_pings, spec_indirect_each, spec_indirect_ping, spec_send_each,
    failure_check_ok, greeting, message_acceptable, send_view, spec_add_each, spec_add_live,
    spec_check_failure_suspect, spec_check_pending_ping_reqs, spec_control_request,
    spec_do_join, spec_learn_rumours, spec_on_message, spec_send, spec_suspect_each, spec_trigger,
    timeout, PING_TIMEOUT_MS,
    trigger_order_ok, ActionView, MillView, OnTimeoutAction, HEALTH_CHECK_INTERVAL_MS,
};
use crate::node_state::{
    add_member, probe_run, probe_step,
    lemma_add_member, lemma_reshuffled, lemma_swap_remove_member, live_peers, swap_remove_member,
    LivenessView,
};

verus! {

/// `acts` tells of exactly the members that are live in `post` and were not
/// in `pre`, and no member live in `pre` has left.
pub open spec fn joins_reported(pre: MillView, post: MillView, acts: Seq<ActionView>) -> bool {
    &&& forall|x: NodeId| #[trigger] pre.node.live.contains(x) ==> post.node.live.contains(x)
    &&& forall|x: NodeId|
        #[trigger] acts.contains(ActionView::NodeJoined(x)) <==> (post.node.live.contains(x)
            && !pre.node.live.contains(x))
}

proof fn lemma_joins_reported_compose(
    a: MillView,
    b: MillView,
    c: MillView,
    acts1: Seq<ActionView>,
    acts2: Seq<ActionView>,
)
    requires
        joins_reported(a, b, acts1),
        joins_reported(b, c, acts2),
    ensures
        joins_reported(a, c, acts1 + acts2),
{
    assert forall|x: NodeId| #[trigger] (acts1 + acts2).contains(ActionView::NodeJoined(x)) <==> (
    c.node.live.contains(x) && !a.node.live.contains(x)) by {
        if (acts1 + acts2).contains(ActionView::NodeJoined(x)) {
            let k = choose|k: int|
                0 <= k < (acts1 + acts2).len() && (acts1 + acts2)[k] == ActionView::NodeJoined(x);
            if k < acts1.len() {
                assert(acts1[k] == ActionView::NodeJoined(x));
                assert(acts1.contains(ActionView::NodeJoined(x)));
                assert(b.node.live.contains(x));
            } else {
                assert(acts2[k - acts1.len()] == ActionView::NodeJoined(x));
                assert(acts2.contains(ActionView::NodeJoined(x)));
                assert(!b.node.live.contains(x));
            }
        }
        if c.node.live.contains(x) && !a.node.live.contains(x) {
            if b.node.live.contains(x) {
                assert(acts1.contains(ActionView::NodeJoined(x)));
                let k = choose|k: int| 0 <= k < acts1.len() && acts1[k] == ActionView::NodeJoined(x);
                assert((acts1 + acts2)[k] == ActionView::NodeJoined(x));
            } else {
                assert(acts2.contains(ActionView::NodeJoined(x)));
                let k = choose|k: int| 0 <= k < acts2.len() && acts2[k] == ActionView::NodeJoined(x);
                assert((acts1 + acts2)[k + acts1.len()] == ActionView::NodeJoined(x));
            }
        }
    }
}

proof fn lemma_joins_reported_quiet(pre: MillView, post: MillView, acts: Seq<ActionView>)
    requires
        post.node.live == pre.node.live,
        forall|i: int| 0 <= i < acts.len() ==> !(#[trigger] acts[i] is NodeJoined),
    ensures
        joins_reported(pre, post, acts),
{
    assert forall|x: NodeId| #[trigger] acts.contains(ActionView::NodeJoined(x)) implies false by {
        let k = choose|k: int| 0 <= k < acts.len() && acts[k] == ActionView::NodeJoined(x);
        assert(!(acts[k] is NodeJoined));
    }
}

proof fn lemma_add_live_reported(v: MillView, n: NodeId)
    ensures
        joins_reported(v, spec_add_live(v, n).0, spec_add_live(v, n).1),
        spec_add_live(v, n).0.id == v.id,
{
    let post = spec_add_live(v, n).0;
    let acts = spec_add_live(v, n).1;
    if !v.node.live.contains(n) {
        assert forall|x: NodeId| #[trigger] v.node.live.contains(x) implies post.node.live.contains(
            x,
        ) by {
            let k = choose|k: int| 0 <= k < v.node.live.len() && v.node.live[k] == x;
            assert(post.node.live[k] == x);
        }
        assert forall|x: NodeId| #[trigger] acts.contains(ActionView::NodeJoined(x)) <==> (
        post.node.live.contains(x) && !v.node.live.contains(x)) by {
            if acts.contains(ActionView::NodeJoined(x)) {
                assert(acts[0] == ActionView::NodeJoined(x));
                assert(post.node.live[v.node.live.len() as int] == n);
            }
            if post.node.live.contains(x) && !v.node.live.contains(x) {
                let k = choose|k: int| 0 <= k < post.node.live.len() && post.node.live[k] == x;
                if k < v.node.live.len() {
                    assert(v.node.live[k] == x);
                }
                assert(acts[0] == ActionView::NodeJoined(x));
            }
        }
    } else {
        lemma_joins_reported_quiet(v, post, acts);
    }
}

proof fn lemma_send_reported(v: MillView, dest: NodeId, req: RequestView)
    ensures
        joins_reported(v, spec_send(v, dest, req).0, spec_send(v, dest, req).1),
        spec_send(v, dest, req).0.id == v.id,
{
    lemma_joins_reported_quiet(v, spec_send(v, dest, req).0, spec_send(v, dest, req).1);
}

proof fn lemma_add_each_reported(v: MillView, nodes: Seq<NodeId>)
    ensures
        joins_reported(v, spec_add_each(v, nodes).0, spec_add_each(v, nodes).1),
        spec_add_each(v, nodes).0.id == v.id,
    decreases nodes.len(),
{
    if nodes.len() == 0 {
        lemma_joins_reported_quiet(v, v, Seq::empty());
    } else {
        lemma_add_each_reported(v, nodes.drop_last());
        let prev = spec_add_each(v, nodes.drop_last());
        if nodes.last() != v.id {
            lemma_add_live_reported(prev.0, nodes.last());
            lemma_joins_reported_compose(
                v,
                prev.0,
                spec_add_live(prev.0, nodes.last()).0,
                prev.1,
                spec_add_live(prev.0, nodes.last()).1,
            );
        }
    }
}

proof fn lemma_learn_reported(v: MillView, rs: Seq<Rumour>)
    ensures
        joins_reported(v, spec_learn_rumours(v, rs).0, spec_learn_rumours(v, rs).1),
        spec_learn_rumours(v, rs).0.id == v.id,
    decreases rs.len(),
{
    if rs.len() == 0 {
        lemma_joins_reported_quiet(v, v, Seq::empty());
    } else {
        lemma_learn_reported(v, rs.drop_last());
        let prev = spec_learn_rumours(v, rs.drop_last());
        match rs.last() {
            Rumour::NodeHasJoin(n) => {
                if n != v.id {
                    lemma_add_live_reported(prev.0, n);
                    lemma_joins_reported_compose(
                        v,
                        prev.0,
                        spec_add_live(prev.0, n).0,
                        prev.1,
                        spec_add_live(prev.0, n).1,
                    );
                }
            },
            Rumour::NodeHasLeft(_) => {},
        }
    }
}

/// Taking in a message tells the application of exactly the members that
/// became live, and no live member is lost: a `NodeJoined(x)` effect comes
/// out if and only if `x` was not live before and is live after.
pub proof fn lemma_message_reports_joins(v: MillView, msg: InboundView)
    requires
        v.well_formed(),
        message_acceptable(v, msg),
    ensures
        joins_reported(v, spec_on_message(v, msg).0, spec_on_message(v, msg).1),
{
    let src = NodeId(msg.source);
    let first = spec_control_request(v, src, msg.request);
    match msg.request {
        RequestView::Ping => lemma_send_reported(v, src, RequestView::PingAck),
        RequestView::UnknownMessage => lemma_send_reported(
            v,
            src,
            RequestView::PlainBytes(greeting()),
        ),
        RequestView::MemberJoin => {
            let peers = crate::node_state::live_peers(v.node, crate::fixed_list::FIXED_LIST_CAPACITY as nat);
            let req = RequestView::JoinAck(crate::fixed_list::list_of(peers));
            let sent = spec_send(v, src, req);
            lemma_send_reported(v, src, req);
            lemma_add_live_reported(sent.0, src);
            let added = spec_add_live(sent.0, src);
            lemma_joins_reported_compose(v, sent.0, added.0, sent.1, added.1);
        },
        RequestView::JoinAck(l) => {
            lemma_add_live_reported(v, src);
            let f = spec_add_live(v, src);
            lemma_add_each_reported(f.0, crate::fixed_list::slots_prefix(l.slots));
            let rest = spec_add_each(f.0, crate::fixed_list::slots_prefix(l.slots));
            lemma_joins_reported_compose(v, f.0, rest.0, f.1, rest.1);
        },
        _ => lemma_joins_reported_quiet(v, first.0, first.1),
    }
    assert(first.0.id == v.id);
    lemma_learn_reported(first.0, crate::fixed_list::slots_prefix(msg.rumours.slots));
    let second = spec_learn_rumours(first.0, crate::fixed_list::slots_prefix(msg.rumours.slots));
    lemma_joins_reported_compose(v, first.0, second.0, first.1, second.1);
}

/// The listing of live members holds this member and each live peer,
/// none of them twice.
pub proof fn lemma_live_listing(v: MillView)
    requires
        v.well_formed(),
    ensures
        v.node.live.push(v.id).no_duplicates(),
        v.node.live.push(v.id).contains(v.id),
        forall|x: NodeId| #[trigger] v.node.live.push(v.id).contains(x) <==> (x == v.id
            || v.node.live.contains(x)),
{
    lemma_add_member(v.node.live, v.id);
    assert(v.node.live.push(v.id)[v.node.live.len() as int] == v.id);
}

proof fn lemma_learn_frame(v: MillView, rs: Seq<Rumour>)
    ensures
        spec_learn_rumours(v, rs).0.gossip == v.gossip,
        spec_learn_rumours(v, rs).0.id == v.id,
    decreases rs.len(),
{
    if rs.len() > 0 {
        lemma_learn_frame(v, rs.drop_last());
    }
}

proof fn lemma_add_each_marks(v: MillView, nodes: Seq<NodeId>)
    ensures
        forall|i: int|
            0 <= i < nodes.len() && nodes[i] != v.id ==> spec_add_each(
                v,
                nodes,
            ).0.node.live.contains(#[trigger] nodes[i]),
    decreases nodes.len(),
{
    if nodes.len() > 0 {
        lemma_add_each_marks(v, nodes.drop_last());
        lemma_add_each_reported(v, nodes.drop_last());
        let prev = spec_add_each(v, nodes.drop_last());
        let post = spec_add_each(v, nodes).0;
        if nodes.last() != v.id {
            lemma_add_live_reported(prev.0, nodes.last());
            if !prev.0.node.live.contains(nodes.last()) {
                assert(post.node.live[prev.0.node.live.len() as int] == nodes.last());
            }
        }
        assert forall|i: int| 0 <= i < nodes.len() && nodes[i] != v.id implies post.node.live.contains(
            #[trigger] nodes[i],
        ) by {
            if i < nodes.len() - 1 {
                assert(nodes.drop_last()[i] == nodes[i]);
                assert(prev.0.node.live.contains(nodes[i]));
            }
        }
    }
}

/// A ping is answered first of all with an acknowledgement to the pinger.
pub proof fn lemma_ping_answered(v: MillView, msg: InboundView)
    requires
        v.well_formed(),
        msg.request is Ping,
    ensures
        spec_on_message(v, msg).1.len() >= 1,
        spec_on_message(v, msg).1[0] == send_view(v.gossip, NodeId(msg.source), RequestView::PingAck),
        (spec_on_message(v, msg).1[0] matches ActionView::Send(m) && m.destination == msg.source
            && m.request == RequestView::PingAck),
{
}

/// An acknowledgement settles the ping outstanding to its sender, so a
/// peer that answers is not followed up with indirect pings; nothing else
/// changes.
pub proof fn lemma_ack_settles_ping(v: MillView, msg: InboundView)
    requires
        v.well_formed(),
        msg.request is PingAck,
    ensures
        spec_on_message(v, msg).0.node.pending_ping_reqs == v.node.pending_ping_reqs,
        !spec_on_message(v, msg).0.node.pending_pings.contains(NodeId(msg.source)),
        forall|x: NodeId|
            x != NodeId(msg.source) ==> (#[trigger] spec_on_message(
                v,
                msg,
            ).0.node.pending_pings.contains(x) <==> v.node.pending_pings.contains(x)),
        spec_on_message(v, msg).0.node.suspects == v.node.suspects,
{
    let src = NodeId(msg.source);
    lemma_swap_remove_member(v.node.pending_pings, src);
    let first = spec_control_request(v, src, msg.request);
    lemma_learn_frame(first.0, slots_prefix(msg.rumours.slots));
    lemma_learn_node_frame(first.0, slots_prefix(msg.rumours.slots));
}

proof fn lemma_learn_node_frame(v: MillView, rs: Seq<Rumour>)
    ensures
        spec_learn_rumours(v, rs).0.node.pending_pings == v.node.pending_pings,
        spec_learn_rumours(v, rs).0.node.pending_ping_reqs == v.node.pending_ping_reqs,
        spec_learn_rumours(v, rs).0.node.suspects == v.node.suspects,
    decreases rs.len(),
{
    if rs.len() > 0 {
        lemma_learn_node_frame(v, rs.drop_last());
    }
}

/// A join request is answered first of all with an acknowledgement to the
/// joiner that lists up to five live peers; afterwards the joiner is live
/// and news of its joining is being spread.
pub proof fn lemma_join_request_answered(v: MillView, msg: InboundView)
    requires
        v.well_formed(),
        message_acceptable(v, msg),
        msg.request is MemberJoin,
    ensures
        spec_on_message(v, msg).1[0] == send_view(
            v.gossip,
            NodeId(msg.source),
            RequestView::JoinAck(list_of(live_peers(v.node, FIXED_LIST_CAPACITY as nat))),
        ),
        live_peers(v.node, FIXED_LIST_CAPACITY as nat).len() <= FIXED_LIST_CAPACITY,
        forall|i: int|
            0 <= i < live_peers(v.node, FIXED_LIST_CAPACITY as nat).len() ==> v.node.live.contains(
                #[trigger] live_peers(v.node, FIXED_LIST_CAPACITY as nat)[i],
            ),
        spec_on_message(v, msg).0.node.live.contains(NodeId(msg.source)),
        knows_rumour(spec_on_message(v, msg).0.gossip, Rumour::NodeHasJoin(NodeId(msg.source))),
{
    let src = NodeId(msg.source);
    crate::node_state::lemma_live_peers(v.node, FIXED_LIST_CAPACITY as nat);
    lemma_message_reports_joins(v, msg);
    let req = RequestView::JoinAck(list_of(live_peers(v.node, FIXED_LIST_CAPACITY as nat)));
    let sent = spec_send(v, src, req);
    let added = spec_add_live(sent.0, src);
    lemma_pull_spends_budget(v.gossip, FIXED_LIST_CAPACITY as nat);
    assert(gossip_well_formed(added.0.gossip));
    lemma_remember_idempotent(added.0.gossip, Rumour::NodeHasJoin(src));
    if !v.node.live.contains(src) {
        assert(added.0.node.live[v.node.live.len() as int] == src);
    }
    assert(added.0.node.live.contains(src));
    let first = spec_control_request(v, src, msg.request);
    assert(first.0.node.live.contains(src));
    lemma_learn_frame(first.0, slots_prefix(msg.rumours.slots));
    lemma_learn_reported(first.0, slots_prefix(msg.rumours.slots));
}

/// A join acknowledgement marks its sender and every member it lists,
/// other than this one, live.
pub proof fn lemma_join_ack_marks_live(v: MillView, msg: InboundView)
    requires
        v.well_formed(),
        message_acceptable(v, msg),
        msg.request is JoinAck,
    ensures
        spec_on_message(v, msg).0.node.live.contains(NodeId(msg.source)),
        forall|i: int|
            0 <= i < slots_prefix(msg.request->JoinAck_0.slots).len() && slots_prefix(
                msg.request->JoinAck_0.slots,
            )[i] != v.id ==> spec_on_message(v, msg).0.node.live.contains(
                #[trigger] slots_prefix(msg.request->JoinAck_0.slots)[i],
            ),
{
    let src = NodeId(msg.source);
    let nodes = slots_prefix(msg.request->JoinAck_0.slots);
    let f = spec_add_live(v, src);
    lemma_add_live_reported(v, src);
    if !v.node.live.contains(src) {
        assert(f.0.node.live[v.node.live.len() as int] == src);
    }
    assert(f.0.node.live.contains(src));
    lemma_add_each_reported(f.0, nodes);
    lemma_add_each_marks(f.0, nodes);
    let first = spec_control_request(v, src, msg.request);
    assert(first.0.node.live.contains(src));
    lemma_learn_reported(first.0, slots_prefix(msg.rumours.slots));
    assert forall|i: int| 0 <= i < nodes.len() && nodes[i] != v.id implies spec_on_message(
        v,
        msg,
    ).0.node.live.contains(#[trigger] nodes[i]) by {
        assert(first.0.node.live.contains(nodes[i]));
    }
}

/// A health check always schedules the next one, and the peer it probes,
/// if any, is a live peer.
pub proof fn lemma_probe_target_live(v: MillView, rr: Seq<NodeId>)
    requires
        v.well_formed(),
        trigger_order_ok(v, rr),
    ensures
        spec_trigger(v, rr).1[0] == ActionView::RequestTimeout(
            timeout(HEALTH_CHECK_INTERVAL_MS, OnTimeoutAction::DoHealthCheck),
        ),
        v.node.round_robin.len() == 0 ==> spec_trigger(v, rr).1.len() == 1,
        v.node.round_robin.len() > 0 ==> (spec_trigger(v, rr).1[1] matches ActionView::Send(m)
            && m.request == RequestView::Ping && v.node.live.contains(NodeId(m.destination))),
{
    let len = v.node.round_robin.len();
    if len > 0 {
        if v.node.next < len {
            assert(v.node.round_robin.contains(v.node.round_robin[v.node.next as int]));
        } else {
            lemma_reshuffled(v.node.round_robin, rr);
            assert(rr.contains(rr[0]));
        }
    }
}

proof fn lemma_suspect_each_marks(v: MillView, targets: Seq<NodeId>)
    ensures
        spec_suspect_each(v, targets).0.node.live == v.node.live,
        forall|x: NodeId|
            #[trigger] spec_suspect_each(v, targets).0.node.suspects.contains(x) <==> (
            v.node.suspects.contains(x) || targets.contains(x)),
    decreases targets.len(),
{
    if targets.len() > 0 {
        lemma_suspect_each_marks(v, targets.drop_last());
        let prev = spec_suspect_each(v, targets.drop_last());
        let post = spec_suspect_each(v, targets).0;
        let n = targets.last();
        assert forall|x: NodeId| #[trigger] post.node.suspects.contains(x) <==> (
        v.node.suspects.contains(x) || targets.contains(x)) by {
            if !prev.0.node.suspects.contains(n) {
                if post.node.suspects.contains(x) && x != n {
                    let k = choose|k: int|
                        0 <= k < post.node.suspects.len() && post.node.suspects[k] == x;
                    assert(prev.0.node.suspects[k] == x);
                }
                if prev.0.node.suspects.contains(x) {
                    let k = choose|k: int|
                        0 <= k < prev.0.node.suspects.len() && prev.0.node.suspects[k] == x;
                    assert(post.node.suspects[k] == x);
                }
                if x == n {
                    assert(post.node.suspects[prev.0.node.suspects.len() as int] == n);
                }
            }
            if targets.drop_last().contains(x) {
                let k = choose|k: int| 0 <= k < targets.drop_last().len() && targets.drop_last()[k] == x;
                assert(targets[k] == x);
            }
            if targets.contains(x) && x != n {
                let k = choose|k: int| 0 <= k < targets.len() && targets[k] == x;
                assert(targets.drop_last()[k] == x);
            }
            assert(targets[targets.len() - 1] == n);
        }
    }
}

/// Following up unanswered indirect pings makes every such peer suspect,
/// keeps every earlier suspect, and marks no one dead yet.
pub proof fn lemma_unanswered_become_suspect(v: MillView)
    ensures
        spec_check_pending_ping_reqs(v).0.node.live == v.node.live,
        spec_check_pending_ping_reqs(v).0.node.pending_ping_reqs == Seq::<NodeId>::empty(),
        forall|x: NodeId|
            #[trigger] spec_check_pending_ping_reqs(v).0.node.suspects.contains(x) <==> (
            v.node.suspects.contains(x) || v.node.pending_ping_reqs.contains(x)),
{
    let v0 = MillView {
        node: LivenessView { pending_ping_reqs: Seq::empty(), ..v.node },
        ..v
    };
    lemma_suspect_each_marks(v0, v.node.pending_ping_reqs);
    lemma_suspect_each_frame(v0, v.node.pending_ping_reqs);
}

proof fn lemma_suspect_each_frame(v: MillView, targets: Seq<NodeId>)
    ensures
        spec_suspect_each(v, targets).0.node.pending_ping_reqs == v.node.pending_ping_reqs,
    decreases targets.len(),
{
    if targets.len() > 0 {
        lemma_suspect_each_frame(v, targets.drop_last());
    }
}

proof fn lemma_insert_sorted_members(s: Seq<GossipState>, g: GossipState)
    requires
        crate::gossip::sorted_by_spread(s),
    ensures
        forall|x: GossipState| #[trigger] insert_sorted(s, g).contains(x) <==> (s.contains(x) || x
            == g),
{
    lemma_insert_sorted(s, g);
    broadcast use vstd::seq_lib::group_to_multiset_ensures;
    broadcast use vstd::multiset::group_multiset_axioms;

    assert forall|x: GossipState| #[trigger] insert_sorted(s, g).contains(x) <==> (s.contains(x)
        || x == g) by {
        vstd::seq_lib::to_multiset_contains(s, x);
        vstd::seq_lib::to_multiset_contains(insert_sorted(s, g), x);
    }
}

/// When a suspicion ends and the member is still suspect, it is declared
/// dead: it leaves the live set and the suspects, the application is told,
/// and it is no longer probed. Either way, news that it joined is no
/// longer spread, and news that it left is.
pub proof fn lemma_failure_check_outcome(v: MillView, n: NodeId, after: LivenessView)
    requires
        v.well_formed(),
        failure_check_ok(v, n, after),
    ensures
        v.node.suspects.contains(n) ==> {
            let post = spec_check_failure_suspect(v, n, after).0;
            &&& !post.node.live.contains(n)
            &&& !post.node.suspects.contains(n)
            &&& !post.node.round_robin.contains(n)
            &&& spec_check_failure_suspect(v, n, after).1 == seq![ActionView::NodeDead(n)]
        },
        !v.node.suspects.contains(n) ==> spec_check_failure_suspect(v, n, after).0.node == v.node
            && spec_check_failure_suspect(v, n, after).1.len() == 0,
        forall|i: int|
            0 <= i < spec_check_failure_suspect(v, n, after).0.gossip.len() ==> (
            #[trigger] spec_check_failure_suspect(v, n, after).0.gossip[i]).rumour
                != Rumour::NodeHasJoin(n),
        knows_rumour(spec_check_failure_suspect(v, n, after).0.gossip, Rumour::NodeHasLeft(n)),
{
    let post = spec_check_failure_suspect(v, n, after).0;
    if v.node.suspects.contains(n) {
        lemma_swap_remove_member(v.node.suspects, n);
        lemma_swap_remove_member(v.node.live, n);
        lemma_swap_remove_member(v.node.round_robin, n);
        if v.node.round_robin.contains(n) {
            lemma_reshuffled(swap_remove_member(v.node.round_robin, n), after.round_robin);
        }
    }
    let f = after_forget(v.gossip, n);
    lemma_forget_drops_member(v.gossip, n);
    lemma_remember_idempotent(f, Rumour::NodeHasLeft(n));
    if !knows_rumour(f, Rumour::NodeHasLeft(n)) {
        let g = GossipState { number_of_times_to_spread: INITIAL_SPREAD, rumour: Rumour::NodeHasLeft(n) };
        lemma_insert_sorted_members(f, g);
        assert forall|i: int| 0 <= i < post.gossip.len() implies (#[trigger] post.gossip[i]).rumour
            != Rumour::NodeHasJoin(n) by {
            assert(post.gossip.contains(post.gossip[i]));
            if post.gossip[i] != g {
                assert(f.contains(post.gossip[i]));
                let k = choose|k: int| 0 <= k < f.len() && f[k] == post.gossip[i];
                assert(crate::codec::rumour_subject(f[k].rumour) != n);
            }
        }
    }
}

proof fn lemma_send_each_frame(v: MillView, dests: Seq<NodeId>, req: RequestView)
    ensures
        spec_send_each(v, dests, req).0.node == v.node,
        spec_send_each(v, dests, req).0.id == v.id,
    decreases dests.len(),
{
    if dests.len() > 0 {
        lemma_send_each_frame(v, dests.drop_last(), req);
    }
}

proof fn lemma_indirect_each_marks(v: MillView, targets: Seq<NodeId>)
    ensures
        spec_indirect_each(v, targets).0.node.live == v.node.live,
        spec_indirect_each(v, targets).0.node.pending_pings == v.node.pending_pings,
        spec_indirect_each(v, targets).0.node.suspects == v.node.suspects,
        forall|x: NodeId|
            #[trigger] spec_indirect_each(v, targets).0.node.pending_ping_reqs.contains(x) <==> (
            v.node.pending_ping_reqs.contains(x) || targets.contains(x)),
    decreases targets.len(),
{
    if targets.len() > 0 {
        let dl = targets.drop_last();
        let n = targets.last();
        lemma_indirect_each_marks(v, dl);
        let prev = spec_indirect_each(v, dl).0;
        let helpers = live_peers(prev.node, crate::mill::INDIRECT_PING_HELPERS as nat).filter(
            crate::mill::other_than(n),
        );
        lemma_send_each_frame(prev, helpers, RequestView::PingRequest(n));
        let sent = spec_send_each(prev, helpers, RequestView::PingRequest(n)).0;
        let post = spec_indirect_each(v, targets).0;
        assert(post == spec_indirect_ping(prev, n).0);
        assert forall|x: NodeId| #[trigger] post.node.pending_ping_reqs.contains(x) <==> (
        v.node.pending_ping_reqs.contains(x) || targets.contains(x)) by {
            let r = prev.node.pending_ping_reqs;
            if !r.contains(n) {
                if post.node.pending_ping_reqs.contains(x) && x != n {
                    let k = choose|k: int|
                        0 <= k < post.node.pending_ping_reqs.len() && post.node.pending_ping_reqs[k]
                            == x;
                    assert(r[k] == x);
                }
                if r.contains(x) {
                    let k = choose|k: int| 0 <= k < r.len() && r[k] == x;
                    assert(post.node.pending_ping_reqs[k] == x);
                }
                if x == n {
                    assert(post.node.pending_ping_reqs[r.len() as int] == n);
                }
            }
            if dl.contains(x) {
                let k = choose|k: int| 0 <= k < dl.len() && dl[k] == x;
                assert(targets[k] == x);
            }
            if targets.contains(x) && x != n {
                let k = choose|k: int| 0 <= k < targets.len() && targets[k] == x;
                assert(dl[k] == x);
            }
            assert(targets[targets.len() - 1] == n);
        }
    }
}

/// Following up unanswered pings asks for an indirect ping of every peer
/// that had a ping outstanding, keeps every earlier indirect ping, and
/// marks no one suspect or dead yet.
pub proof fn lemma_unanswered_pings_followed_up(v: MillView)
    ensures
        spec_check_pending_pings(v).0.node.live == v.node.live,
        spec_check_pending_pings(v).0.node.suspects == v.node.suspects,
        spec_check_pending_pings(v).0.node.pending_pings == Seq::<NodeId>::empty(),
        forall|x: NodeId|
            #[trigger] spec_check_pending_pings(v).0.node.pending_ping_reqs.contains(x) <==> (
            v.node.pending_ping_reqs.contains(x) || v.node.pending_pings.contains(x)),
{
    let v0 = MillView {
        node: LivenessView { pending_pings: Seq::empty(), ..v.node },
        ..v
    };
    lemma_indirect_each_marks(v0, v.node.pending_pings);
}

proof fn lemma_learn_marks(v: MillView, rs: Seq<Rumour>)
    ensures
        forall|i: int|
            0 <= i < rs.len() && (#[trigger] rs[i]) is NodeHasJoin && rs[i]->NodeHasJoin_0 != v.id
                ==> spec_learn_rumours(v, rs).0.node.live.contains(rs[i]->NodeHasJoin_0),
    decreases rs.len(),
{
    if rs.len() > 0 {
        let dl = rs.drop_last();
        lemma_learn_marks(v, dl);
        lemma_learn_reported(v, dl);
        let prev = spec_learn_rumours(v, dl).0;
        let post = spec_learn_rumours(v, rs).0;
        match rs.last() {
            Rumour::NodeHasJoin(n) => {
                if n != v.id {
                    lemma_add_live_reported(prev, n);
                    if !prev.node.live.contains(n) {
                        assert(post.node.live[prev.node.live.len() as int] == n);
                    }
                }
            },
            Rumour::NodeHasLeft(_) => {},
        }
        assert forall|i: int|
            0 <= i < rs.len() && (#[trigger] rs[i]) is NodeHasJoin && rs[i]->NodeHasJoin_0 != v.id
                implies post.node.live.contains(rs[i]->NodeHasJoin_0) by {
            if i < rs.len() - 1 {
                assert(dl[i] == rs[i]);
                if let Rumour::NodeHasJoin(n) = rs[i] {
                    if n != v.id {
                        assert(prev.node.live.contains(n));
                    }
                }
            }
        }
    }
}

/// News of a join piggybacked on any message marks the joiner live, unless
/// it is this member.
pub proof fn lemma_rumoured_joins_marked_live(v: MillView, msg: InboundView)
    requires
        v.well_formed(),
        message_acceptable(v, msg),
    ensures
        forall|i: int|
            0 <= i < slots_prefix(msg.rumours.slots).len() && (#[trigger] slots_prefix(
                msg.rumours.slots,
            )[i]) is NodeHasJoin && slots_prefix(msg.rumours.slots)[i]->NodeHasJoin_0 != v.id
                ==> spec_on_message(v, msg).0.node.live.contains(
                slots_prefix(msg.rumours.slots)[i]->NodeHasJoin_0,
            ),
{
    lemma_message_reports_joins(v, msg);
    let first = spec_control_request(v, NodeId(msg.source), msg.request);
    assert(first.0.id == v.id) by {
        match msg.request {
            RequestView::Ping => lemma_send_reported(v, NodeId(msg.source), RequestView::PingAck),
            RequestView::UnknownMessage => lemma_send_reported(
                v,
                NodeId(msg.source),
                RequestView::PlainBytes(greeting()),
            ),
            RequestView::MemberJoin => {
                let peers = live_peers(v.node, FIXED_LIST_CAPACITY as nat);
                let req = RequestView::JoinAck(list_of(peers));
                lemma_send_reported(v, NodeId(msg.source), req);
                lemma_add_live_reported(spec_send(v, NodeId(msg.source), req).0, NodeId(msg.source));
            },
            RequestView::JoinAck(l) => {
                lemma_add_live_reported(v, NodeId(msg.source));
                lemma_add_each_reported(spec_add_live(v, NodeId(msg.source)).0, slots_prefix(l.slots));
            },
            _ => {},
        }
    }
    lemma_learn_marks(first.0, slots_prefix(msg.rumours.slots));
}

proof fn lemma_probe_run_states(states: Seq<LivenessView>, picks: Seq<NodeId>, i: int)
    requires
        probe_run(states, picks),
        states[0].well_formed(),
        states[0].round_robin.len() > 0,
        0 <= i <= picks.len(),
    ensures
        states[i].well_formed(),
        states[i].live == states[0].live,
        states[i].round_robin.len() == states[0].round_robin.len(),
    decreases i,
{
    if i > 0 {
        lemma_probe_run_states(states, picks, i - 1);
        let pre = states[i - 1];
        let post = states[i];
        assert(probe_step(pre, post, picks[i - 1]));
        if pre.next >= pre.round_robin.len() {
            lemma_reshuffled(pre.round_robin, post.round_robin);
        }
    }
}

proof fn lemma_probe_advance(states: Seq<LivenessView>, picks: Seq<NodeId>, i: int, m: int)
    requires
        probe_run(states, picks),
        states[0].well_formed(),
        states[0].round_robin.len() > 0,
        0 <= i,
        0 <= m,
        i + m <= picks.len(),
        states[i].next + m <= states[0].round_robin.len(),
    ensures
        states[i + m].round_robin == states[i].round_robin,
        states[i + m].next == states[i].next + m,
        picks.subrange(i, i + m) == states[i].round_robin.subrange(
            states[i].next as int,
            states[i].next + m,
        ),
    decreases m,
{
    if m > 0 {
        lemma_probe_advance(states, picks, i, m - 1);
        let j = i + m - 1;
        lemma_probe_run_states(states, picks, j);
        lemma_probe_run_states(states, picks, i);
        assert(probe_step(states[j], states[j + 1], picks[j]));
        assert(picks.subrange(i, i + m) =~= states[i].round_robin.subrange(
            states[i].next as int,
            states[i].next + m,
        )) by {
            assert(picks.subrange(i, i + m) =~= picks.subrange(i, j).push(picks[j]));
        }
    } else {
        lemma_probe_run_states(states, picks, i);
        assert(picks.subrange(i, i) =~= states[i].round_robin.subrange(
            states[i].next as int,
            states[i].next as int,
        ));
    }
}

proof fn lemma_probe_full_round(states: Seq<LivenessView>, picks: Seq<NodeId>, s: int)
    requires
        probe_run(states, picks),
        states[0].well_formed(),
        states[0].round_robin.len() > 0,
        0 <= s,
        s + states[0].round_robin.len() <= picks.len(),
        states[s].next == 0 || states[s].next == states[0].round_robin.len(),
    ensures
        picks.subrange(s, s + states[0].round_robin.len()).no_duplicates(),
        forall|x: NodeId|
            #[trigger] picks.subrange(s, s + states[0].round_robin.len()).contains(x)
                <==> states[0].live.contains(x),
{
    let k = states[0].round_robin.len() as int;
    lemma_probe_run_states(states, picks, s);
    let rr = if states[s].next == 0 {
        lemma_probe_advance(states, picks, s, k);
        assert(states[s].round_robin.subrange(0, k) =~= states[s].round_robin);
        states[s].round_robin
    } else {
        assert(probe_step(states[s], states[s + 1], picks[s]));
        lemma_probe_run_states(states, picks, s + 1);
        lemma_probe_advance(states, picks, s + 1, k - 1);
        let r1 = states[s + 1].round_robin;
        assert(picks.subrange(s, s + k) =~= seq![picks[s]] + picks.subrange(s + 1, s + k));
        assert(picks.subrange(s, s + k) =~= r1);
        r1
    };
    assert(picks.subrange(s, s + k) == rr);
    let v = if states[s].next == 0 {
        states[s]
    } else {
        states[s + 1]
    };
    assert(v.round_robin == rr);
    assert(v.well_formed());
    assert forall|x: NodeId| #[trigger] picks.subrange(s, s + k).contains(x)
        <==> states[0].live.contains(x) by {
        assert(v.live.contains(x) <==> v.round_robin.contains(x));
    }
}

/// The window of `2k - 1` probes starting at probe `j`.
pub open spec fn probe_window(picks: Seq<NodeId>, j: int, k: int) -> Seq<NodeId> {
    picks.subrange(j, j + 2 * k - 1)
}

/// Round-robin probing is fair. Over a run of consecutive probes of a
/// state with `k >= 1` live peers, every probe picks a live peer, every
/// `2k - 1` consecutive probes pick every live peer, and a run that starts
/// at the start of a round (as after the first peers are added to a fresh
/// state, or after a live peer is removed) picks every live peer exactly
/// once in its first `k` probes.
pub proof fn lemma_round_robin_fairness(states: Seq<LivenessView>, picks: Seq<NodeId>)
    requires
        probe_run(states, picks),
        states[0].well_formed(),
        states[0].round_robin.len() > 0,
    ensures
        forall|i: int| 0 <= i < picks.len() ==> states[0].live.contains(#[trigger] picks[i]),
        forall|j: int, x: NodeId|
            0 <= j && j + 2 * states[0].round_robin.len() - 1 <= picks.len() && states[0].live.contains(x)
                ==> #[trigger] probe_window(picks, j, states[0].round_robin.len() as int).contains(x),
        (states[0].next == 0 || states[0].next >= states[0].round_robin.len())
            && states[0].round_robin.len() <= picks.len() ==> {
            &&& picks.take(states[0].round_robin.len() as int).no_duplicates()
            &&& forall|x: NodeId|
                #[trigger] picks.take(states[0].round_robin.len() as int).contains(x)
                    <==> states[0].live.contains(x)
        },
{
    let k = states[0].round_robin.len() as int;
    assert forall|i: int| 0 <= i < picks.len() implies states[0].live.contains(#[trigger] picks[i]) by {
        lemma_probe_run_states(states, picks, i);
        lemma_probe_run_states(states, picks, i + 1);
        assert(probe_step(states[i], states[i + 1], picks[i]));
        let v = if states[i].next < k {
            states[i]
        } else {
            states[i + 1]
        };
        assert(v.round_robin.contains(picks[i]));
        assert(v.live.contains(picks[i]));
    }
    assert forall|j: int, x: NodeId|
        0 <= j && j + 2 * k - 1 <= picks.len() && states[0].live.contains(x) implies #[trigger] probe_window(
        picks,
        j,
        k,
    ).contains(x) by {
        lemma_probe_run_states(states, picks, j);
        let t = states[j].next as int;
        let s = if t == 0 || t == k {
            j
        } else {
            lemma_probe_advance(states, picks, j, k - t);
            j + k - t
        };
        lemma_probe_full_round(states, picks, s);
        let round = picks.subrange(s, s + k);
        assert(round.contains(x));
        let m = choose|m: int| 0 <= m < k && #[trigger] round[m] == x;
        assert(probe_window(picks, j, k)[s - j + m] == x);
    }
    if (states[0].next == 0 || states[0].next >= k) && k <= picks.len() {
        lemma_probe_full_round(states, picks, 0);
        assert(picks.take(k) =~= picks.subrange(0, k));
    }
}

/// The end of a suspicion of `n` drops only the news about `n`: every entry
/// about another member stays as it was, and every entry afterwards is one
/// of those or the news that `n` left.
pub proof fn lemma_failure_check_keeps_other_news(v: MillView, n: NodeId, after: LivenessView)
    requires
        v.well_formed(),
    ensures
        forall|i: int|
            0 <= i < v.gossip.len() && rumour_subject((#[trigger] v.gossip[i]).rumour) != n
                ==> spec_check_failure_suspect(v, n, after).0.gossip.contains(v.gossip[i]),
        forall|x: GossipState|
            #[trigger] spec_check_failure_suspect(v, n, after).0.gossip.contains(x) ==> (
            v.gossip.contains(x) && rumour_subject(x.rumour) != n) || x.rumour
                == Rumour::NodeHasLeft(n),
{
    let f = after_forget(v.gossip, n);
    let post = spec_check_failure_suspect(v, n, after).0.gossip;
    lemma_forget_drops_member(v.gossip, n);
    if !knows_rumour(f, Rumour::NodeHasLeft(n)) {
        let g = GossipState { number_of_times_to_spread: INITIAL_SPREAD, rumour: Rumour::NodeHasLeft(n) };
        lemma_insert_sorted_members(f, g);
    }
    assert forall|x: GossipState| #[trigger] post.contains(x) implies (v.gossip.contains(x)
        && rumour_subject(x.rumour) != n) || x.rumour == Rumour::NodeHasLeft(n) by {
        if f.contains(x) {
            let k = choose|k: int| 0 <= k < f.len() && f[k] == x;
            assert(v.gossip.contains(f[k]));
        }
    }
}

/// Only news that a member joined marks it live: after taking in the
/// rumours `rs`, a member is live only if it was live before or `rs` says
/// that it, some member other than this one, joined; and the application
/// is told of a join only for such a member. News that a member left
/// changes nothing.
pub proof fn lemma_only_join_news_marks_live(v: MillView, rs: Seq<Rumour>)
    ensures
        forall|x: NodeId|
            #[trigger] spec_learn_rumours(v, rs).0.node.live.contains(x) ==> v.node.live.contains(x)
                || (x != v.id && rs.contains(Rumour::NodeHasJoin(x))),
        forall|x: NodeId|
            #[trigger] spec_learn_rumours(v, rs).1.contains(ActionView::NodeJoined(x)) ==> !v.node.live.contains(x)
                && x != v.id && rs.contains(Rumour::NodeHasJoin(x)),
        (forall|i: int| 0 <= i < rs.len() ==> (#[trigger] rs[i]) is NodeHasLeft) ==> spec_learn_rumours(
            v,
            rs,
        ).0 == v && spec_learn_rumours(v, rs).1.len() == 0,
    decreases rs.len(),
{
    lemma_learn_reported(v, rs);
    if rs.len() > 0 {
        let dl = rs.drop_last();
        lemma_only_join_news_marks_live(v, dl);
        let prev = spec_learn_rumours(v, dl);
        let post = spec_learn_rumours(v, rs).0;
        assert forall|x: Rumour| dl.contains(x) implies rs.contains(x) by {
            let k = choose|k: int| 0 <= k < dl.len() && dl[k] == x;
            assert(rs[k] == x);
        }
        assert(rs.contains(rs.last())) by {
            assert(rs[rs.len() - 1] == rs.last());
        }
        assert forall|x: NodeId| #[trigger] post.node.live.contains(x) implies v.node.live.contains(x)
            || (x != v.id && rs.contains(Rumour::NodeHasJoin(x))) by {
            if prev.0.node.live.contains(x) {
                if !v.node.live.contains(x) {
                    assert(dl.contains(Rumour::NodeHasJoin(x)));
                }
            } else {
                match rs.last() {
                    Rumour::NodeHasJoin(m) => {
                        assert(m != v.id);
                        let k = choose|k: int| 0 <= k < post.node.live.len() && post.node.live[k] == x;
                        assert(k == prev.0.node.live.len());
                        assert(x == m);
                    },
                    Rumour::NodeHasLeft(_) => {},
                }
            }
        }
        if forall|i: int| 0 <= i < rs.len() ==> (#[trigger] rs[i]) is NodeHasLeft {
            assert forall|i: int| 0 <= i < dl.len() implies (#[trigger] dl[i]) is NodeHasLeft by {
                assert(rs[i] is NodeHasLeft);
            }
            assert(rs[rs.len() - 1] is NodeHasLeft);
        }
    }
}

/// `x` is live after `v` marks each of `nodes` live only if it was live
/// before or is one of `nodes`.
proof fn lemma_add_each_only_nodes(v: MillView, nodes: Seq<NodeId>)
    ensures
        forall|x: NodeId|
            #[trigger] spec_add_each(v, nodes).0.node.live.contains(x) ==> v.node.live.contains(x)
                || nodes.contains(x),
    decreases nodes.len(),
{
    if nodes.len() > 0 {
        let dl = nodes.drop_last();
        lemma_add_each_only_nodes(v, dl);
        let prev = spec_add_each(v, dl).0;
        let post = spec_add_each(v, nodes).0;
        assert forall|x: NodeId| #[trigger] post.node.live.contains(x) implies v.node.live.contains(x)
            || nodes.contains(x) by {
            if prev.node.live.contains(x) {
                if dl.contains(x) {
                    let k = choose|k: int| 0 <= k < dl.len() && dl[k] == x;
                    assert(nodes[k] == x);
                }
            } else {
                let k = choose|k: int| 0 <= k < post.node.live.len() && post.node.live[k] == x;
                assert(k == prev.node.live.len());
                assert(nodes[nodes.len() - 1] == x);
            }
        }
    }
}

/// A message marks a member live only for a reason that it carries: the
/// member was live already, or it is the sender of a join request or a
/// join acknowledgement, or a join acknowledgement lists it, or a
/// piggybacked rumour says that it joined.
pub proof fn lemma_message_marks_live_only_with_reason(v: MillView, msg: InboundView)
    requires
        v.well_formed(),
        message_acceptable(v, msg),
    ensures
        forall|x: NodeId|
            #[trigger] spec_on_message(v, msg).0.node.live.contains(x) ==> {
                ||| v.node.live.contains(x)
                ||| x == NodeId(msg.source) && (msg.request is MemberJoin || msg.request is JoinAck)
                ||| (msg.request matches RequestView::JoinAck(l) && slots_prefix(l.slots).contains(x))
                ||| slots_prefix(msg.rumours.slots).contains(Rumour::NodeHasJoin(x))
            },
{
    let src = NodeId(msg.source);
    let first = spec_control_request(v, src, msg.request);
    let rs = slots_prefix(msg.rumours.slots);
    lemma_only_join_news_marks_live(first.0, rs);
    assert forall|x: NodeId| #[trigger] first.0.node.live.contains(x) implies {
        ||| v.node.live.contains(x)
        ||| x == src && (msg.request is MemberJoin || msg.request is JoinAck)
        ||| (msg.request matches RequestView::JoinAck(l) && slots_prefix(l.slots).contains(x))
    } by {
        match msg.request {
            RequestView::MemberJoin => {
                let peers = live_peers(v.node, FIXED_LIST_CAPACITY as nat);
                let sent = spec_send(v, src, RequestView::JoinAck(list_of(peers)));
                if !sent.0.node.live.contains(src) && x != src {
                    let k = choose|k: int| 0 <= k < first.0.node.live.len() && first.0.node.live[k] == x;
                    assert(sent.0.node.live[k] == x);
                }
            },
            RequestView::JoinAck(l) => {
                let f = spec_add_live(v, src).0;
                lemma_add_each_only_nodes(f, slots_prefix(l.slots));
                if f.node.live.contains(x) && !v.node.live.contains(src) && x != src {
                    let k = choose|k: int| 0 <= k < f.node.live.len() && f.node.live[k] == x;
                    assert(v.node.live[k] == x);
                }
            },
            _ => {},
        }
    }
}

/// The liveness state apart from the pings outstanding: what round-robin
/// probing reads and moves.
pub open spec fn without_pending_pings(n: LivenessView) -> LivenessView {
    LivenessView { pending_pings: Seq::empty(), ..n }
}

/// The peer that the health check taken in `v` pings, where `rr` is the
/// round-robin order that it leaves.
pub open spec fn health_check_ping(v: MillView, rr: Seq<NodeId>) -> NodeId {
    NodeId(spec_trigger(v, rr).1[1]->Send_0.destination)
}

/// A health check with a live peer pings the peer that round-robin probing
/// picks next, and records that ping as outstanding: it schedules the next
/// health check, sends the ping, and asks to be woken after the ping
/// timeout, in that order.
pub proof fn lemma_health_check_pings_round_robin(v: MillView, rr: Seq<NodeId>)
    requires
        v.node.round_robin.len() > 0,
        trigger_order_ok(v, rr),
    ensures
        spec_trigger(v, rr).1.len() == 3,
        spec_trigger(v, rr).1[0] == ActionView::RequestTimeout(
            timeout(HEALTH_CHECK_INTERVAL_MS, OnTimeoutAction::DoHealthCheck),
        ),
        spec_trigger(v, rr).1[1] == send_view(v.gossip, health_check_ping(v, rr), RequestView::Ping),
        spec_trigger(v, rr).1[2] == ActionView::RequestTimeout(
            timeout(PING_TIMEOUT_MS, OnTimeoutAction::CheckPendingPings),
        ),
        probe_step(
            without_pending_pings(v.node),
            without_pending_pings(spec_trigger(v, rr).0.node),
            health_check_ping(v, rr),
        ),
        spec_trigger(v, rr).0.node.pending_pings == add_member(
            v.node.pending_pings,
            health_check_ping(v, rr),
        ),
        spec_trigger(v, rr).0.node.round_robin.len() == v.node.round_robin.len(),
{
    let post = spec_trigger(v, rr).0.node;
    if v.node.next >= v.node.round_robin.len() {
        lemma_reshuffled(v.node.round_robin, rr);
        assert(without_pending_pings(post) == (LivenessView {
            round_robin: without_pending_pings(post).round_robin,
            next: 1,
            ..without_pending_pings(v.node)
        }));
    } else {
        assert(without_pending_pings(post) == (LivenessView {
            next: without_pending_pings(v.node).next + 1,
            ..without_pending_pings(v.node)
        }));
    }
}

/// Every health check first schedules the next one, so health checking
/// never stops once started; with no live peer, that is all it does.
pub proof fn lemma_health_check_reschedules(v: MillView, rr: Seq<NodeId>)
    ensures
        spec_trigger(v, rr).1.len() >= 1,
        spec_trigger(v, rr).1[0] == ActionView::RequestTimeout(
            timeout(HEALTH_CHECK_INTERVAL_MS, OnTimeoutAction::DoHealthCheck),
        ),
        v.node.round_robin.len() == 0 ==> spec_trigger(v, rr).1.len() == 1 && spec_trigger(v, rr).0
            == v,
{
}

/// A run of consecutive health checks: `states[i + 1]` is what the health
/// check taken in `states[i]` leaves, with the round-robin order
/// `orders[i]`.
pub open spec fn health_check_run(states: Seq<MillView>, orders: Seq<Seq<NodeId>>) -> bool {
    &&& states.len() == orders.len() + 1
    &&& forall|i: int|
        0 <= i < orders.len() ==> trigger_order_ok(states[i], #[trigger] orders[i]) && states[i + 1]
            == spec_trigger(states[i], orders[i]).0
}

/// The peers pinged over a run of health checks, in order.
pub open spec fn health_check_pings(states: Seq<MillView>, orders: Seq<Seq<NodeId>>) -> Seq<NodeId> {
    Seq::new(orders.len(), |i: int| health_check_ping(states[i], orders[i]))
}

proof fn lemma_health_run_keeps_order_len(states: Seq<MillView>, orders: Seq<Seq<NodeId>>, i: int)
    requires
        health_check_run(states, orders),
        states[0].node.round_robin.len() > 0,
        0 <= i <= orders.len(),
    ensures
        states[i].node.round_robin.len() == states[0].node.round_robin.len(),
    decreases i,
{
    if i > 0 {
        lemma_health_run_keeps_order_len(states, orders, i - 1);
        assert(trigger_order_ok(states[i - 1], orders[i - 1]));
        lemma_health_check_pings_round_robin(states[i - 1], orders[i - 1]);
    }
}

/// Health checks are fair. Over a run of consecutive health checks from a
/// state with `k >= 1` live peers, every health check pings a live peer,
/// and every `2k - 1` consecutive health checks ping every live peer.
pub proof fn lemma_health_checks_fair(states: Seq<MillView>, orders: Seq<Seq<NodeId>>)
    requires
        health_check_run(states, orders),
        states[0].well_formed(),
        states[0].node.round_robin.len() > 0,
    ensures
        forall|i: int|
            0 <= i < orders.len() ==> states[0].node.live.contains(
                #[trigger] health_check_pings(states, orders)[i],
            ),
        forall|j: int, x: NodeId|
            0 <= j && j + 2 * states[0].node.round_robin.len() - 1 <= orders.len()
                && states[0].node.live.contains(x) ==> #[trigger] probe_window(
                health_check_pings(states, orders),
                j,
                states[0].node.round_robin.len() as int,
            ).contains(x),
{
    let pings = health_check_pings(states, orders);
    let ls = Seq::new(states.len(), |i: int| without_pending_pings(states[i].node));
    assert forall|i: int| 0 <= i < pings.len() implies probe_step(
        ls[i],
        ls[i + 1],
        #[trigger] pings[i],
    ) by {
        lemma_health_run_keeps_order_len(states, orders, i);
        assert(trigger_order_ok(states[i], orders[i]));
        lemma_health_check_pings_round_robin(states[i], orders[i]);
    }
    assert(probe_run(ls, pings));
    lemma_round_robin_fairness(ls, pings);
}

proof fn lemma_send_each_sends(v: MillView, dests: Seq<NodeId>, req: RequestView)
    ensures
        spec_send_each(v, dests, req).1.len() == dests.len(),
        forall|i: int|
            0 <= i < dests.len() ==> (#[trigger] spec_send_each(v, dests, req).1[i] matches ActionView::Send(
                m,
            ) && m.destination == dests[i].0 && m.request == req),
    decreases dests.len(),
{
    if dests.len() > 0 {
        let dl = dests.drop_last();
        lemma_send_each_sends(v, dl, req);
        let acts = spec_send_each(v, dests, req).1;
        let prev = spec_send_each(v, dl, req).1;
        assert forall|i: int| 0 <= i < dests.len() implies (#[trigger] acts[i] matches ActionView::Send(
            m,
        ) && m.destination == dests[i].0 && m.request == req) by {
            if i < dl.len() {
                assert(acts[i] == prev[i]);
                assert(dl[i] == dests[i]);
            }
        }
    }
}

/// Joining sends a join request to each configured peer, in the order
/// given, and then schedules the first health check, whatever the number
/// of peers, none included; nothing else is sent and the liveness state
/// is unchanged.
pub proof fn lemma_join_asks_every_peer(v: MillView, remotes: Seq<SocketAddress>)
    ensures
        spec_do_join(v, remotes).1.len() == remotes.len() + 1,
        forall|i: int|
            0 <= i < remotes.len() ==> (#[trigger] spec_do_join(v, remotes).1[i] matches ActionView::Send(
                m,
            ) && m.destination == remotes[i] && m.request == RequestView::MemberJoin),
        spec_do_join(v, remotes).1[remotes.len() as int] == ActionView::RequestTimeout(
            timeout(HEALTH_CHECK_INTERVAL_MS, OnTimeoutAction::DoHealthCheck),
        ),
        spec_do_join(v, remotes).0.node == v.node,
{
    let dests = remotes.map_values(|a: SocketAddress| NodeId(a));
    lemma_send_each_sends(v, dests, RequestView::MemberJoin);
    lemma_send_each_frame(v, dests, RequestView::MemberJoin);
    let acts = spec_do_join(v, remotes).1;
    let sent = spec_send_each(v, dests, RequestView::MemberJoin).1;
    assert forall|i: int| 0 <= i < remotes.len() implies (#[trigger] acts[i] matches ActionView::Send(
        m,
    ) && m.destination == remotes[i] && m.request == RequestView::MemberJoin) by {
        assert(acts[i] == sent[i]);
        assert(dests[i] == NodeId(remotes[i]));
    }
}

} // verus!

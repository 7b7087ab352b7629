use vstd::prelude::*;

use crate::address::SocketAddress;
use crate::codec::{
    ControlRequest, InboundMessage, InboundView, MessageContent, NodeId, OutboundMessage,
    OutboundView, RequestView, Rumour,
};
use crate::fixed_list::{list_of, slots_prefix, KnownPeersList, RumourList, FIXED_LIST_CAPACITY};
use crate::gossip::{
    after_forget, after_pull, after_remember, gossip_well_formed, lemma_forget_drops_member,
    lemma_pull_spends_budget, lemma_remember_idempotent, pulled_rumours, Gossip, GossipState,
};
use crate::node_state::{
    add_member, lemma_add_member, lemma_live_peers, lemma_reshuffled, lemma_swap_remove_member, live_peers, removed_live, reshuffled, swap_remove_member,
    LivenessView, NodeLivenessState,
};
use crate::time::Duration;

verus! {

/// How often a member probes one of its peers.
pub const HEALTH_CHECK_INTERVAL_MS: u64 = 1000;

/// How long a member waits for the answer to a ping, direct or indirect.
pub const PING_TIMEOUT_MS: u64 = 200;

/// How long a member stays suspect before it is declared dead.
pub const SUSPICION_TIMEOUT_MS: u64 = 2000;

/// How many peers are asked to ping a member that did not answer.
pub const INDIRECT_PING_HELPERS: usize = 3;

/// What to do when a requested timeout expires.
#[derive(Clone, Copy, Debug, PartialEq, Eq, Structural)]
pub enum OnTimeoutAction {
    DoHealthCheck,
    CheckPendingPings,
    CheckPendingPingReqs,
    CheckFailureSuspect(NodeId, Duration, u16),
}

/// A request to be woken after `duration` to take `action`.
#[derive(Clone, Copy, Debug, PartialEq, Eq, Structural)]
pub struct TimeoutRequest {
    pub duration: Duration,
    pub action: OnTimeoutAction,
}

impl TimeoutRequest {
    /// How long to wait.
    pub fn duration(&self) -> (r: Duration)
        ensures
            r == self.duration,
    {
        self.duration
    }

    /// A request to take `action` after `duration`.
    pub fn new(duration: Duration, action: OnTimeoutAction) -> (r: TimeoutRequest)
        ensures
            r == (TimeoutRequest { duration, action }),
    {
        TimeoutRequest { duration: duration, action: action }
    }
}

/// The request to take `action` after `ms` milliseconds.
pub open spec fn timeout(ms: u64, action: OnTimeoutAction) -> TimeoutRequest {
    TimeoutRequest { duration: Duration { millis: ms }, action }
}

/// An effect that the caller of the membership state machine performs:
/// sending a message, arming a timer, or telling the application that a
/// member joined or died.
#[derive(Clone, Debug, PartialEq, Eq)]
pub enum MillAction {
    Send(OutboundMessage),
    RequestTimeout(TimeoutRequest),
    NodeJoined(NodeId),
    NodeDead(NodeId),
}

/// An effect with its message taken by its view.
pub enum ActionView {
    Send(OutboundView),
    RequestTimeout(TimeoutRequest),
    NodeJoined(NodeId),
    NodeDead(NodeId),
}

impl View for MillAction {
    type V = ActionView;

    open spec fn view(&self) -> ActionView {
        match self {
            MillAction::Send(m) => ActionView::Send(m@),
            MillAction::RequestTimeout(t) => ActionView::RequestTimeout(*t),
            MillAction::NodeJoined(n) => ActionView::NodeJoined(*n),
            MillAction::NodeDead(n) => ActionView::NodeDead(*n),
        }
    }
}

/// A run of effects taken by their views.
pub open spec fn view_actions(s: Seq<MillAction>) -> Seq<ActionView> {
    s.map_values(|a: MillAction| a@)
}

/// The state of a member: its own identity, what it knows of its peers'
/// liveness, and the rumours it spreads.
pub struct MillView {
    pub id: NodeId,
    pub node: LivenessView,
    pub gossip: Seq<GossipState>,
}

impl MillView {
    /// The invariant of a member's state: its parts are well formed and it
    /// never counts itself among its live peers.
    pub open spec fn well_formed(self) -> bool {
        &&& self.node.well_formed()
        &&& gossip_well_formed(self.gossip)
        &&& !self.node.live.contains(self.id)
    }
}

/// The bytes of the greeting sent back to an unknown message:
/// "hai from service".
pub open spec fn greeting() -> Seq<u8> {
    seq![104u8, 97u8, 105u8, 32u8, 102u8, 114u8, 111u8, 109u8, 32u8, 115u8, 101u8, 114u8, 118u8, 105u8, 99u8, 101u8]
}

/// The message that sends `req` to `dest` with the rumours that the store
/// `g` hands out.
pub open spec fn send_view(g: Seq<GossipState>, dest: NodeId, req: RequestView) -> ActionView {
    ActionView::Send(
        OutboundView {
            destination: dest.0,
            request: req,
            rumours: list_of(pulled_rumours(g, FIXED_LIST_CAPACITY as nat)),
        },
    )
}

/// Sending `req` to `dest`: up to five rumours are pulled from the store
/// and piggybacked.
pub open spec fn spec_send(v: MillView, dest: NodeId, req: RequestView) -> (MillView, Seq<
    ActionView,
>) {
    (
        MillView { gossip: after_pull(v.gossip, FIXED_LIST_CAPACITY as nat), ..v },
        seq![send_view(v.gossip, dest, req)],
    )
}

/// Sending `req` to each of `dests` in turn.
pub open spec fn spec_send_each(v: MillView, dests: Seq<NodeId>, req: RequestView) -> (MillView, Seq<
    ActionView,
>)
    decreases dests.len(),
{
    if dests.len() == 0 {
        (v, Seq::empty())
    } else {
        let prev = spec_send_each(v, dests.drop_last(), req);
        let step = spec_send(prev.0, dests.last(), req);
        (step.0, prev.1 + step.1)
    }
}

/// Marking `n` live: if it was not, it joins the live set and the
/// application is told that it joined.
pub open spec fn spec_add_live(v: MillView, n: NodeId) -> (MillView, Seq<ActionView>) {
    if v.node.live.contains(n) {
        (v, Seq::empty())
    } else {
        (
            MillView {
                node: LivenessView {
                    live: v.node.live.push(n),
                    round_robin: v.node.round_robin.push(n),
                    ..v.node
                },
                ..v
            },
            seq![ActionView::NodeJoined(n)],
        )
    }
}

/// Marking each of `nodes` live in turn, passing over the member itself.
pub open spec fn spec_add_each(v: MillView, nodes: Seq<NodeId>) -> (MillView, Seq<ActionView>)
    decreases nodes.len(),
{
    if nodes.len() == 0 {
        (v, Seq::empty())
    } else {
        let prev = spec_add_each(v, nodes.drop_last());
        if nodes.last() == v.id {
            prev
        } else {
            let step = spec_add_live(prev.0, nodes.last());
            (step.0, prev.1 + step.1)
        }
    }
}

/// Taking in piggybacked rumours in turn: news that another member joined
/// marks it live; other news is passed over.
pub open spec fn spec_learn_rumours(v: MillView, rs: Seq<Rumour>) -> (MillView, Seq<ActionView>)
    decreases rs.len(),
{
    if rs.len() == 0 {
        (v, Seq::empty())
    } else {
        let prev = spec_learn_rumours(v, rs.drop_last());
        match rs.last() {
            Rumour::NodeHasJoin(n) => if n != v.id {
                let step = spec_add_live(prev.0, n);
                (step.0, prev.1 + step.1)
            } else {
                prev
            },
            Rumour::NodeHasLeft(_) => prev,
        }
    }
}

/// Answering a join request from `src`: it is sent up to five known peers,
/// marked live, and news of its joining starts to spread.
pub open spec fn spec_member_join_request(v: MillView, src: NodeId) -> (MillView, Seq<ActionView>) {
    let peers = live_peers(v.node, FIXED_LIST_CAPACITY as nat);
    let sent = spec_send(v, src, RequestView::JoinAck(list_of(peers)));
    let added = spec_add_live(sent.0, src);
    (
        MillView { gossip: after_remember(added.0.gossip, Rumour::NodeHasJoin(src)), ..added.0 },
        sent.1 + added.1,
    )
}

/// Taking in a join acknowledgement from `src` listing `nodes`: the sender
/// and each listed member other than this one are marked live.
pub open spec fn spec_join_ack(v: MillView, src: NodeId, nodes: Seq<NodeId>) -> (MillView, Seq<
    ActionView,
>) {
    let first = spec_add_live(v, src);
    let rest = spec_add_each(first.0, nodes);
    (rest.0, first.1 + rest.1)
}

/// Taking in the control request `req` from `src`.
pub open spec fn spec_control_request(v: MillView, src: NodeId, req: RequestView) -> (MillView, Seq<
    ActionView,
>) {
    match req {
        RequestView::Ping => spec_send(v, src, RequestView::PingAck),
        RequestView::PingAck => (
            MillView {
                node: LivenessView {
                    pending_pings: swap_remove_member(v.node.pending_pings, src),
                    ..v.node
                },
                ..v
            },
            Seq::empty(),
        ),
        RequestView::PingRequest(_) => (v, Seq::empty()),
        RequestView::UnknownMessage => spec_send(v, src, RequestView::PlainBytes(greeting())),
        RequestView::PlainBytes(_) => (v, Seq::empty()),
        RequestView::MemberJoin => spec_member_join_request(v, src),
        RequestView::JoinAck(l) => spec_join_ack(v, src, slots_prefix(l.slots)),
    }
}

/// A message that this member can take in: a join request or a join
/// acknowledgement must come from some other member.
pub open spec fn message_acceptable(v: MillView, msg: InboundView) -> bool {
    (msg.request is MemberJoin || msg.request is JoinAck) ==> NodeId(msg.source) != v.id
}

/// Taking in a message: its request first, then its piggybacked rumours.
pub open spec fn spec_on_message(v: MillView, msg: InboundView) -> (MillView, Seq<ActionView>) {
    let first = spec_control_request(v, NodeId(msg.source), msg.request);
    let second = spec_learn_rumours(first.0, slots_prefix(msg.rumours.slots));
    (second.0, first.1 + second.1)
}

/// Joining a cluster: a join request goes to each of `remotes`, then the
/// first health check is scheduled.
pub open spec fn spec_do_join(v: MillView, remotes: Seq<SocketAddress>) -> (MillView, Seq<
    ActionView,
>) {
    let sent = spec_send_each(v, remotes.map_values(|a: SocketAddress| NodeId(a)), RequestView::MemberJoin);
    (
        sent.0,
        sent.1.push(
            ActionView::RequestTimeout(
                timeout(HEALTH_CHECK_INTERVAL_MS, OnTimeoutAction::DoHealthCheck),
            ),
        ),
    )
}

/// A health check, where `rr` is the round-robin order that results if the
/// round had run out and was shuffled afresh: the next health check is
/// scheduled, and the next peer in round-robin order, if any, is pinged,
/// recorded as pending, and checked on after the ping timeout.
pub open spec fn spec_trigger(v: MillView, rr: Seq<NodeId>) -> (MillView, Seq<ActionView>) {
    let health = ActionView::RequestTimeout(
        timeout(HEALTH_CHECK_INTERVAL_MS, OnTimeoutAction::DoHealthCheck),
    );
    let len = v.node.round_robin.len();
    if len == 0 {
        (v, seq![health])
    } else {
        let picked = if v.node.next < len {
            v.node.round_robin[v.node.next as int]
        } else {
            rr[0]
        };
        let node1 = if v.node.next < len {
            LivenessView { next: v.node.next + 1, ..v.node }
        } else {
            LivenessView { round_robin: rr, next: 1, ..v.node }
        };
        let node2 = LivenessView {
            pending_pings: add_member(node1.pending_pings, picked),
            ..node1
        };
        (
            MillView {
                node: node2,
                gossip: after_pull(v.gossip, FIXED_LIST_CAPACITY as nat),
                ..v
            },
            seq![
                health,
                send_view(v.gossip, picked, RequestView::Ping),
                ActionView::RequestTimeout(
                    timeout(PING_TIMEOUT_MS, OnTimeoutAction::CheckPendingPings),
                ),
            ],
        )
    }
}

/// Whether `rr` is a round-robin order that a health check may leave: any
/// fresh shuffle when the round had run out, the old order otherwise.
pub open spec fn trigger_order_ok(v: MillView, rr: Seq<NodeId>) -> bool {
    if v.node.round_robin.len() > 0 && v.node.next >= v.node.round_robin.len() {
        reshuffled(v.node.round_robin, rr)
    } else {
        rr == v.node.round_robin
    }
}

/// Whether a member is other than `n`.
pub open spec fn other_than(n: NodeId) -> spec_fn(NodeId) -> bool {
    |h: NodeId| h != n
}

/// Asking up to three peers, other than `to_ping` itself, to ping
/// `to_ping`, and recording that an indirect ping is outstanding.
pub open spec fn spec_indirect_ping(v: MillView, to_ping: NodeId) -> (MillView, Seq<ActionView>) {
    let helpers = live_peers(v.node, INDIRECT_PING_HELPERS as nat).filter(other_than(to_ping));
    let sent = spec_send_each(v, helpers, RequestView::PingRequest(to_ping));
    (
        MillView {
            node: LivenessView {
                pending_ping_reqs: add_member(sent.0.node.pending_ping_reqs, to_ping),
                ..sent.0.node
            },
            ..sent.0
        },
        sent.1,
    )
}

/// Indirect pings for each of `targets` in turn.
pub open spec fn spec_indirect_each(v: MillView, targets: Seq<NodeId>) -> (MillView, Seq<
    ActionView,
>)
    decreases targets.len(),
{
    if targets.len() == 0 {
        (v, Seq::empty())
    } else {
        let prev = spec_indirect_each(v, targets.drop_last());
        let step = spec_indirect_ping(prev.0, targets.last());
        (step.0, prev.1 + step.1)
    }
}

/// Following up unanswered pings: each peer with a ping outstanding gets
/// an indirect ping, and if there were any, they are checked on after the
/// ping timeout.
pub open spec fn spec_check_pending_pings(v: MillView) -> (MillView, Seq<ActionView>) {
    let targets = v.node.pending_pings;
    let v0 = MillView {
        node: LivenessView { pending_pings: Seq::empty(), ..v.node },
        ..v
    };
    let done = spec_indirect_each(v0, targets);
    if targets.len() > 0 {
        (
            done.0,
            done.1.push(
                ActionView::RequestTimeout(
                    timeout(PING_TIMEOUT_MS, OnTimeoutAction::CheckPendingPingReqs),
                ),
            ),
        )
    } else {
        done
    }
}

/// Suspecting `n`: if it was not suspect, it becomes so and is checked on
/// after the suspicion timeout.
pub open spec fn spec_suspect(v: MillView, n: NodeId) -> (MillView, Seq<ActionView>) {
    if v.node.suspects.contains(n) {
        (v, Seq::empty())
    } else {
        (
            MillView { node: LivenessView { suspects: v.node.suspects.push(n), ..v.node }, ..v },
            seq![
                ActionView::RequestTimeout(
                    timeout(
                        SUSPICION_TIMEOUT_MS,
                        OnTimeoutAction::CheckFailureSuspect(
                            n,
                            Duration { millis: SUSPICION_TIMEOUT_MS },
                            0,
                        ),
                    ),
                ),
            ],
        )
    }
}

/// Suspecting each of `targets` in turn.
pub open spec fn spec_suspect_each(v: MillView, targets: Seq<NodeId>) -> (MillView, Seq<
    ActionView,
>)
    decreases targets.len(),
{
    if targets.len() == 0 {
        (v, Seq::empty())
    } else {
        let prev = spec_suspect_each(v, targets.drop_last());
        let step = spec_suspect(prev.0, targets.last());
        (step.0, prev.1 + step.1)
    }
}

/// Following up unanswered indirect pings: each such peer becomes suspect.
pub open spec fn spec_check_pending_ping_reqs(v: MillView) -> (MillView, Seq<ActionView>) {
    let v0 = MillView {
        node: LivenessView { pending_ping_reqs: Seq::empty(), ..v.node },
        ..v
    };
    spec_suspect_each(v0, v.node.pending_ping_reqs)
}

/// How the liveness state changes when suspect `n` is declared dead: it
/// stops being suspect and leaves the live set.
pub open spec fn accused(pre: LivenessView, n: NodeId, post: LivenessView) -> bool {
    &&& post.suspects == swap_remove_member(pre.suspects, n)
    &&& removed_live(pre, n, post)
    &&& post.pending_pings == pre.pending_pings
    &&& post.pending_ping_reqs == pre.pending_ping_reqs
}

/// The end of a suspicion of `n`, where `after` is the liveness state left
/// by declaring it dead: if it is still suspect, it is declared dead and
/// the application is told; either way, rumours about it are dropped and
/// news that it left starts to spread.
pub open spec fn spec_check_failure_suspect(v: MillView, n: NodeId, after: LivenessView) -> (
    MillView,
    Seq<ActionView>,
) {
    let g = after_remember(after_forget(v.gossip, n), Rumour::NodeHasLeft(n));
    if v.node.suspects.contains(n) {
        (MillView { node: after, gossip: g, ..v }, seq![ActionView::NodeDead(n)])
    } else {
        (MillView { gossip: g, ..v }, Seq::empty())
    }
}

/// Whether `after` is a liveness state that the end of a suspicion of `n`
/// may leave.
pub open spec fn failure_check_ok(v: MillView, n: NodeId, after: LivenessView) -> bool {
    v.node.suspects.contains(n) ==> accused(v.node, n, after)
}

/// Taking the action of an expired timeout, where `after` is the liveness
/// state left when the action shuffles the round-robin order.
pub open spec fn spec_on_timeout(v: MillView, action: OnTimeoutAction, after: LivenessView) -> (
    MillView,
    Seq<ActionView>,
) {
    match action {
        OnTimeoutAction::DoHealthCheck => spec_trigger(v, after.round_robin),
        OnTimeoutAction::CheckPendingPings => spec_check_pending_pings(v),
        OnTimeoutAction::CheckPendingPingReqs => spec_check_pending_ping_reqs(v),
        OnTimeoutAction::CheckFailureSuspect(n, _, _) => spec_check_failure_suspect(v, n, after),
    }
}

/// Whether `after` is a liveness state that the action may leave.
pub open spec fn timeout_outcome_ok(v: MillView, action: OnTimeoutAction, after: LivenessView) -> bool {
    match action {
        OnTimeoutAction::DoHealthCheck => trigger_order_ok(v, after.round_robin),
        OnTimeoutAction::CheckFailureSuspect(n, _, _) => failure_check_ok(v, n, after),
        _ => true,
    }
}

/// The membership state machine of one member. Each event handler returns
/// the effects that the caller is to perform, in order.
pub struct RumourMill {
    id: NodeId,
    node_state: NodeLivenessState,
    gossip: Gossip,
}

impl View for RumourMill {
    type V = MillView;

    closed spec fn view(&self) -> MillView {
        MillView { id: self.id, node: self.node_state@, gossip: self.gossip@ }
    }
}

/// A member named `id` that knows of no peers and spreads no rumours.
pub fn new_mill(id: NodeId) -> (r: RumourMill)
    ensures
        r@.id == id,
        r@.node == (LivenessView {
            live: Seq::empty(),
            round_robin: Seq::empty(),
            next: 0,
            pending_pings: Seq::empty(),
            pending_ping_reqs: Seq::empty(),
            suspects: Seq::empty(),
        }),
        r@.gossip == Seq::<GossipState>::empty(),
        r@.well_formed(),
{
    RumourMill {
        id: id,
        node_state: crate::node_state::new(),
        gossip: crate::gossip::new(),
    }
}

impl RumourMill {
    /// The members this one knows to be live, itself last.
    pub fn get_live_nodes(&self) -> (r: Vec<NodeId>)
        ensures
            r@ == self@.node.live.push(self@.id),
    {
        let mut peers = self.node_state.get_live_nodes();
        peers.push(self.id);
        peers
    }

    /// The members this one suspects.
    pub fn get_suspect_nodes(&self) -> (r: Vec<NodeId>)
        ensures
            r@ == self@.node.suspects,
    {
        self.node_state.get_suspect_nodes()
    }

    /// Sends `content` to `destination`, piggybacking up to five rumours.
    fn send_control_message(
        &mut self,
        destination: NodeId,
        content: ControlRequest,
        actions: &mut Vec<MillAction>,
    )
        requires
            old(self)@.well_formed(),
        ensures
            final(self)@ == spec_send(old(self)@, destination, content@).0,
            view_actions(final(actions)@) == view_actions(old(actions)@) + spec_send(
                old(self)@,
                destination,
                content@,
            ).1,
            final(self)@.well_formed(),
    {
        let ghost g0 = self.gossip@;
        let ghost req = content@;
        proof {
            lemma_pull_spends_budget(g0, FIXED_LIST_CAPACITY as nat);
        }
        let rumours = self.gossip.pull_rumours(RumourList::capacity());
        let msg = OutboundMessage::control_message(
            destination.0,
            content,
            RumourList::from_vec(rumours),
        );
        actions.push(MillAction::Send(msg));
        assert(view_actions(actions@) =~= view_actions(old(actions)@) + spec_send(
            old(self)@,
            destination,
            req,
        ).1);
    }

    /// Marks `id` live, telling the application if it was not.
    fn add_live_node(&mut self, id: NodeId, actions: &mut Vec<MillAction>)
        requires
            old(self)@.well_formed(),
            id != old(self)@.id,
        ensures
            final(self)@ == spec_add_live(old(self)@, id).0,
            view_actions(final(actions)@) == view_actions(old(actions)@) + spec_add_live(
                old(self)@,
                id,
            ).1,
            final(self)@.well_formed(),
    {
        if self.node_state.add_live_node(id) {
            actions.push(MillAction::NodeJoined(id));
            assert(view_actions(actions@) =~= view_actions(old(actions)@) + spec_add_live(
                old(self)@,
                id,
            ).1);
        } else {
            assert(view_actions(actions@) =~= view_actions(old(actions)@) + spec_add_live(
                old(self)@,
                id,
            ).1);
        }
        assert(!self@.node.live.contains(self@.id)) by {
            if self@.node.live.contains(self@.id) {
                let k = choose|k: int| 0 <= k < self@.node.live.len() && self@.node.live[k] == self@.id;
                if k < old(self)@.node.live.len() {
                    assert(old(self)@.node.live[k] == self@.id);
                }
            }
        }
    }

    /// A member joined: it is marked live.
    fn on_member_join(&mut self, id: NodeId, actions: &mut Vec<MillAction>)
        requires
            old(self)@.well_formed(),
            id != old(self)@.id,
        ensures
            final(self)@ == spec_add_live(old(self)@, id).0,
            view_actions(final(actions)@) == view_actions(old(actions)@) + spec_add_live(
                old(self)@,
                id,
            ).1,
            final(self)@.well_formed(),
    {
        self.add_live_node(id, actions);
    }

    /// A ping is answered with an acknowledgement.
    fn on_ping(&mut self, pinger: NodeId, actions: &mut Vec<MillAction>)
        requires
            old(self)@.well_formed(),
        ensures
            final(self)@ == spec_send(old(self)@, pinger, RequestView::PingAck).0,
            view_actions(final(actions)@) == view_actions(old(actions)@) + spec_send(
                old(self)@,
                pinger,
                RequestView::PingAck,
            ).1,
            final(self)@.well_formed(),
    {
        self.send_control_message(pinger, ControlRequest::PingAck, actions);
    }

    /// An acknowledgement settles the ping outstanding to its sender.
    fn on_ack(&mut self, acker: NodeId)
        requires
            old(self)@.well_formed(),
        ensures
            final(self)@ == spec_control_request(old(self)@, acker, RequestView::PingAck).0,
            final(self)@.well_formed(),
    {
        self.node_state.remove_pending_ping(acker);
        proof {
            crate::node_state::lemma_swap_remove_member(old(self)@.node.pending_pings, acker);
        }
    }

    /// A request to ping a member on another's behalf; this member does not
    /// act on it.
    fn on_ping_request(&mut self, _pinger: NodeId, _to_ping: NodeId)
        ensures
            final(self)@ == old(self)@,
    {
    }

    /// A message of unknown kind is answered with a greeting.
    fn on_unknown_message(&mut self, source: NodeId, actions: &mut Vec<MillAction>)
        requires
            old(self)@.well_formed(),
        ensures
            final(self)@ == spec_send(old(self)@, source, RequestView::PlainBytes(greeting())).0,
            view_actions(final(actions)@) == view_actions(old(actions)@) + spec_send(
                old(self)@,
                source,
                RequestView::PlainBytes(greeting()),
            ).1,
            final(self)@.well_formed(),
    {
        let bytes: Vec<u8> = vec![104u8, 97u8, 105u8, 32u8, 102u8, 114u8, 111u8, 109u8, 32u8, 115u8, 101u8, 114u8, 118u8, 105u8, 99u8, 101u8];
        assert(bytes@ =~= greeting());
        self.send_control_message(source, ControlRequest::PlainBytes(bytes), actions);
    }

    /// A join request from `id`: it is sent up to five known peers, marked
    /// live, and news of its joining starts to spread.
    fn on_member_join_request(&mut self, id: NodeId, actions: &mut Vec<MillAction>)
        requires
            old(self)@.well_formed(),
            id != old(self)@.id,
        ensures
            final(self)@ == spec_member_join_request(old(self)@, id).0,
            view_actions(final(actions)@) == view_actions(old(actions)@)
                + spec_member_join_request(old(self)@, id).1,
            final(self)@.well_formed(),
    {
        let ghost v0 = self@;
        let ghost a0 = view_actions(actions@);
        proof {
            lemma_live_peers(self@.node, FIXED_LIST_CAPACITY as nat);
        }
        let live_peers_to_share = self.node_state.get_live_peers(KnownPeersList::capacity());
        let ghost peers = live_peers_to_share@;
        self.send_control_message(
            id,
            ControlRequest::JoinAck(KnownPeersList::from_vec(live_peers_to_share)),
            actions,
        );
        let ghost a1 = view_actions(actions@);
        self.on_member_join(id, actions);
        proof {
            lemma_remember_idempotent(self@.gossip, Rumour::NodeHasJoin(id));
        }
        self.gossip.remember(Rumour::NodeHasJoin(id));
        let ghost sent = spec_send(v0, id, RequestView::JoinAck(list_of(peers)));
        let ghost added = spec_add_live(sent.0, id);
        assert(view_actions(actions@) =~= a0 + (sent.1 + added.1));
    }

    /// A join acknowledgement from `ack_from` listing `live_nodes`: the
    /// sender and each listed member other than this one are marked live.
    fn on_join_ack(&mut self, ack_from: NodeId, live_nodes: Vec<NodeId>, actions: &mut Vec<MillAction>)
        requires
            old(self)@.well_formed(),
            ack_from != old(self)@.id,
        ensures
            final(self)@ == spec_join_ack(old(self)@, ack_from, live_nodes@).0,
            view_actions(final(actions)@) == view_actions(old(actions)@) + spec_join_ack(
                old(self)@,
                ack_from,
                live_nodes@,
            ).1,
            final(self)@.well_formed(),
    {
        let ghost a0 = view_actions(actions@);
        self.add_live_node(ack_from, actions);
        let ghost v1 = self@;
        let ghost a1 = view_actions(actions@);
        let mut i: usize = 0;
        assert(live_nodes@.take(0) =~= Seq::<NodeId>::empty());
        assert(a1 =~= a1 + spec_add_each(v1, live_nodes@.take(0)).1);
        while i < live_nodes.len()
            invariant
                i <= live_nodes@.len(),
                v1.id == self@.id,
                self@.well_formed(),
                self@ == spec_add_each(v1, live_nodes@.take(i as int)).0,
                view_actions(actions@) == a1 + spec_add_each(v1, live_nodes@.take(i as int)).1,
            decreases live_nodes@.len() - i,
        {
            let node = live_nodes[i];
            let ghost prev = spec_add_each(v1, live_nodes@.take(i as int));
            assert(live_nodes@.take(i + 1).drop_last() =~= live_nodes@.take(i as int));
            assert(live_nodes@.take(i + 1).last() == node);
            if node != self.id {
                self.add_live_node(node, actions);
                assert(view_actions(actions@) =~= a1 + spec_add_each(
                    v1,
                    live_nodes@.take(i + 1),
                ).1);
            }
            i = i + 1;
        }
        assert(live_nodes@.take(i as int) =~= live_nodes@);
        assert(view_actions(actions@) =~= a0 + spec_join_ack(old(self)@, ack_from, live_nodes@).1);
    }

    /// Takes in piggybacked rumours: news that another member joined marks
    /// it live.
    fn dispatch_rumours(&mut self, rumours: Vec<Rumour>, actions: &mut Vec<MillAction>)
        requires
            old(self)@.well_formed(),
        ensures
            final(self)@ == spec_learn_rumours(old(self)@, rumours@).0,
            view_actions(final(actions)@) == view_actions(old(actions)@) + spec_learn_rumours(
                old(self)@,
                rumours@,
            ).1,
            final(self)@.well_formed(),
    {
        let ghost v0 = self@;
        let ghost a0 = view_actions(actions@);
        let mut i: usize = 0;
        assert(rumours@.take(0) =~= Seq::<Rumour>::empty());
        assert(a0 =~= a0 + spec_learn_rumours(v0, rumours@.take(0)).1);
        while i < rumours.len()
            invariant
                i <= rumours@.len(),
                v0.id == self@.id,
                self@.well_formed(),
                self@ == spec_learn_rumours(v0, rumours@.take(i as int)).0,
                view_actions(actions@) == a0 + spec_learn_rumours(v0, rumours@.take(i as int)).1,
            decreases rumours@.len() - i,
        {
            let rumour = rumours[i];
            assert(rumours@.take(i + 1).drop_last() =~= rumours@.take(i as int));
            assert(rumours@.take(i + 1).last() == rumour);
            match rumour {
                Rumour::NodeHasJoin(node) => {
                    if node != self.id {
                        self.on_member_join(node, actions);
                        assert(view_actions(actions@) =~= a0 + spec_learn_rumours(
                            v0,
                            rumours@.take(i + 1),
                        ).1);
                    }
                },
                Rumour::NodeHasLeft(_) => {},
            }
            i = i + 1;
        }
        assert(rumours@.take(i as int) =~= rumours@);
    }

    /// Takes in the control request `content` from `source`.
    fn dispatch_control_plain_request(
        &mut self,
        source: NodeId,
        content: ControlRequest,
        actions: &mut Vec<MillAction>,
    )
        requires
            old(self)@.well_formed(),
            (content@ is MemberJoin || content@ is JoinAck) ==> source != old(self)@.id,
        ensures
            final(self)@ == spec_control_request(old(self)@, source, content@).0,
            view_actions(final(actions)@) == view_actions(old(actions)@) + spec_control_request(
                old(self)@,
                source,
                content@,
            ).1,
            final(self)@.well_formed(),
    {
        let ghost a0 = view_actions(actions@);
        match content {
            ControlRequest::Ping => {
                self.on_ping(source, actions);
            },
            ControlRequest::PingAck => {
                self.on_ack(source);
                assert(view_actions(actions@) =~= a0 + Seq::<ActionView>::empty());
            },
            ControlRequest::PingRequest(node_id) => {
                self.on_ping_request(source, node_id);
                assert(view_actions(actions@) =~= a0 + Seq::<ActionView>::empty());
            },
            ControlRequest::UnknownMessage => {
                self.on_unknown_message(source, actions);
            },
            ControlRequest::PlainBytes(_) => {
                assert(view_actions(actions@) =~= a0 + Seq::<ActionView>::empty());
            },
            ControlRequest::MemberJoin => {
                self.on_member_join_request(source, actions);
            },
            ControlRequest::JoinAck(live_node_list) => {
                self.on_join_ack(source, live_node_list.into_vec(), actions);
            },
        }
    }

    /// Takes in a message: its request first, then its piggybacked
    /// rumours. Returns the effects to perform, in order.
    pub fn on_message_received(&mut self, msg: InboundMessage) -> (r: Vec<MillAction>)
        requires
            old(self)@.well_formed(),
            message_acceptable(old(self)@, msg@),
        ensures
            final(self)@ == spec_on_message(old(self)@, msg@).0,
            view_actions(r@) == spec_on_message(old(self)@, msg@).1,
            final(self)@.well_formed(),
    {
        let ghost m = msg@;
        let mut actions: Vec<MillAction> = Vec::new();
        let InboundMessage { source, content } = msg;
        match content {
            MessageContent::ControlPlain(request, piggy_backed_rumours) => {
                assert(view_actions(actions@) =~= Seq::<ActionView>::empty());
                self.dispatch_control_plain_request(NodeId(source), request, &mut actions);
                self.dispatch_rumours(piggy_backed_rumours.into_vec(), &mut actions);
            },
        }
        let ghost first = spec_control_request(old(self)@, NodeId(m.source), m.request);
        let ghost second = spec_learn_rumours(first.0, slots_prefix(m.rumours.slots));
        assert(view_actions(actions@) =~= first.1 + second.1);
        actions
    }

    /// Joins a cluster: a join request goes to each of `remote_nodes`, then
    /// the first health check is scheduled.
    pub fn do_join(&mut self, remote_nodes: &[SocketAddress]) -> (r: Vec<MillAction>)
        requires
            old(self)@.well_formed(),
        ensures
            final(self)@ == spec_do_join(old(self)@, remote_nodes@).0,
            view_actions(r@) == spec_do_join(old(self)@, remote_nodes@).1,
            final(self)@.well_formed(),
    {
        let ghost v0 = self@;
        let ghost dests = remote_nodes@.map_values(|a: SocketAddress| NodeId(a));
        let mut actions: Vec<MillAction> = Vec::new();
        let mut i: usize = 0;
        assert(dests.take(0) =~= Seq::<NodeId>::empty());
        assert(view_actions(actions@) =~= Seq::<ActionView>::empty());
        while i < remote_nodes.len()
            invariant
                i <= remote_nodes@.len(),
                dests == remote_nodes@.map_values(|a: SocketAddress| NodeId(a)),
                self@.well_formed(),
                self@ == spec_send_each(v0, dests.take(i as int), RequestView::MemberJoin).0,
                view_actions(actions@) == spec_send_each(
                    v0,
                    dests.take(i as int),
                    RequestView::MemberJoin,
                ).1,
            decreases remote_nodes@.len() - i,
        {
            let node = remote_nodes[i];
            assert(dests.take(i + 1).drop_last() =~= dests.take(i as int));
            assert(dests.take(i + 1).last() == NodeId(node));
            self.send_control_message(NodeId(node), ControlRequest::MemberJoin, &mut actions);
            i = i + 1;
        }
        assert(dests.take(i as int) =~= dests);
        actions.push(
            MillAction::RequestTimeout(
                TimeoutRequest::new(Duration::from_secs(1), OnTimeoutAction::DoHealthCheck),
            ),
        );
        assert(view_actions(actions@) =~= spec_do_join(v0, remote_nodes@).1);
        actions
    }

    /// The next peer to probe in round-robin order.
    fn next_live_peer_for_message(&mut self) -> (r: Option<NodeId>)
        requires
            old(self)@.well_formed(),
        ensures
            final(self)@.well_formed(),
            final(self)@.id == old(self)@.id,
            final(self)@.gossip == old(self)@.gossip,
            trigger_order_ok(old(self)@, final(self)@.node.round_robin),
            old(self)@.node.round_robin.len() == 0 ==> r is None && final(self)@ == old(self)@,
            old(self)@.node.round_robin.len() > 0 ==> {
                let v = old(self)@;
                let len = v.node.round_robin.len();
                let rr = final(self)@.node.round_robin;
                &&& r == Some(
                    if v.node.next < len {
                        v.node.round_robin[v.node.next as int]
                    } else {
                        rr[0]
                    },
                )
                &&& final(self)@.node == (if v.node.next < len {
                    LivenessView { next: v.node.next + 1, ..v.node }
                } else {
                    LivenessView { round_robin: rr, next: 1, ..v.node }
                })
            },
    {
        let r = self.node_state.next_live_peer_for_message();
        proof {
            if old(self)@.node.round_robin.len() > 0 && old(self)@.node.next
                >= old(self)@.node.round_robin.len() {
                lemma_reshuffled(old(self)@.node.round_robin, self@.node.round_robin);
            }
        }
        r
    }

    /// A health check: the next one is scheduled, and the next peer in
    /// round-robin order, if any, is pinged and checked on after the ping
    /// timeout. Returns the effects to perform, in order.
    pub fn trigger_begin_failure_detection(&mut self) -> (r: Vec<MillAction>)
        requires
            old(self)@.well_formed(),
        ensures
            trigger_order_ok(old(self)@, final(self)@.node.round_robin),
            final(self)@ == spec_trigger(old(self)@, final(self)@.node.round_robin).0,
            view_actions(r@) == spec_trigger(old(self)@, final(self)@.node.round_robin).1,
            final(self)@.well_formed(),
    {
        let ghost v0 = self@;
        let mut actions: Vec<MillAction> = Vec::new();
        actions.push(
            MillAction::RequestTimeout(
                TimeoutRequest::new(Duration::from_secs(1), OnTimeoutAction::DoHealthCheck),
            ),
        );
        let next_node_to_send_message_to = self.next_live_peer_for_message();
        if let Some(node_id) = next_node_to_send_message_to {
            let ghost a1 = view_actions(actions@);
            let ghost g1 = self@.gossip;
            self.send_control_message(node_id, ControlRequest::Ping, &mut actions);
            let ghost a2 = view_actions(actions@);
            self.node_state.add_pending_ping(node_id);
            actions.push(
                MillAction::RequestTimeout(
                    TimeoutRequest::new(
                        Duration::from_millis(200),
                        OnTimeoutAction::CheckPendingPings,
                    ),
                ),
            );
            proof {
                lemma_add_member(old(self)@.node.pending_pings, node_id);
                assert(a1 =~= seq![
                    ActionView::RequestTimeout(
                        timeout(HEALTH_CHECK_INTERVAL_MS, OnTimeoutAction::DoHealthCheck),
                    ),
                ]);
                assert(a2 == a1 + seq![send_view(g1, node_id, RequestView::Ping)]);
                assert(view_actions(actions@) =~= a2.push(
                    ActionView::RequestTimeout(
                        timeout(PING_TIMEOUT_MS, OnTimeoutAction::CheckPendingPings),
                    ),
                ));
                assert(view_actions(actions@) =~= spec_trigger(v0, self@.node.round_robin).1);
            }
        } else {
            assert(view_actions(actions@) =~= spec_trigger(v0, self@.node.round_robin).1);
        }
        actions
    }

    /// Asks up to three peers, other than `to_ping` itself, to ping
    /// `to_ping`, and records that an indirect ping is outstanding. With no
    /// peer to ask, the ping is left to this member.
    fn send_indirect_ping_to(&mut self, to_ping: NodeId, actions: &mut Vec<MillAction>)
        requires
            old(self)@.well_formed(),
        ensures
            final(self)@ == spec_indirect_ping(old(self)@, to_ping).0,
            view_actions(final(actions)@) == view_actions(old(actions)@) + spec_indirect_ping(
                old(self)@,
                to_ping,
            ).1,
            final(self)@.well_formed(),
    {
        let ghost v0 = self@;
        let ghost a0 = view_actions(actions@);
        let ghost pred = other_than(to_ping);
        let mut number_of_peers_sent_to: usize = 0;
        let ping_helpers = self.node_state.get_live_peers(INDIRECT_PING_HELPERS);
        proof {
            lemma_live_peers(v0.node, INDIRECT_PING_HELPERS as nat);
        }
        let mut i: usize = 0;
        assert(ping_helpers@.take(0) =~= Seq::<NodeId>::empty());
        proof {
            reveal_with_fuel(Seq::filter, 1);
        }
        assert(a0 =~= a0 + spec_send_each(v0, ping_helpers@.take(0).filter(pred), RequestView::PingRequest(to_ping)).1);
        while i < ping_helpers.len()
            invariant
                i <= ping_helpers@.len() <= INDIRECT_PING_HELPERS,
                pred == other_than(to_ping),
                self@.well_formed(),
                self@ == spec_send_each(
                    v0,
                    ping_helpers@.take(i as int).filter(pred),
                    RequestView::PingRequest(to_ping),
                ).0,
                view_actions(actions@) == a0 + spec_send_each(
                    v0,
                    ping_helpers@.take(i as int).filter(pred),
                    RequestView::PingRequest(to_ping),
                ).1,
                number_of_peers_sent_to == ping_helpers@.take(i as int).filter(pred).len(),
                number_of_peers_sent_to <= i,
            decreases ping_helpers@.len() - i,
        {
            let helper = ping_helpers[i];
            let ghost before = ping_helpers@.take(i as int).filter(pred);
            proof {
                reveal_with_fuel(Seq::filter, 1);
                assert(ping_helpers@.take(i + 1).drop_last() =~= ping_helpers@.take(i as int));
                assert(ping_helpers@.take(i + 1).last() == helper);
            }
            if helper != to_ping {
                assert(before.push(helper).drop_last() =~= before);
                self.send_control_message(helper, ControlRequest::PingRequest(to_ping), actions);
                number_of_peers_sent_to = number_of_peers_sent_to + 1;
                assert(view_actions(actions@) =~= a0 + spec_send_each(
                    v0,
                    ping_helpers@.take(i + 1).filter(pred),
                    RequestView::PingRequest(to_ping),
                ).1);
            }
            i = i + 1;
        }
        assert(ping_helpers@.take(i as int) =~= ping_helpers@);
        if number_of_peers_sent_to == 0 {
            let my_id = self.id;
            self.on_ping_request(my_id, to_ping);
        }
        proof {
            lemma_add_member(self@.node.pending_ping_reqs, to_ping);
        }
        self.node_state.add_pending_indirect_ping(to_ping);
    }

    /// Follows up unanswered pings: each peer with a ping outstanding gets
    /// an indirect ping, and if there were any, they are checked on after
    /// the ping timeout.
    fn check_pending_pings(&mut self, actions: &mut Vec<MillAction>)
        requires
            old(self)@.well_formed(),
        ensures
            final(self)@ == spec_check_pending_pings(old(self)@).0,
            view_actions(final(actions)@) == view_actions(old(actions)@)
                + spec_check_pending_pings(old(self)@).1,
            final(self)@.well_formed(),
    {
        let ghost a0 = view_actions(actions@);
        let nodes_requiring_followup = self.node_state.drain_pending_pings();
        let ghost v0 = self@;
        let any_followup = nodes_requiring_followup.len() > 0;
        let mut i: usize = 0;
        assert(nodes_requiring_followup@.take(0) =~= Seq::<NodeId>::empty());
        assert(a0 =~= a0 + spec_indirect_each(v0, nodes_requiring_followup@.take(0)).1);
        while i < nodes_requiring_followup.len()
            invariant
                i <= nodes_requiring_followup@.len(),
                self@.well_formed(),
                self@ == spec_indirect_each(v0, nodes_requiring_followup@.take(i as int)).0,
                view_actions(actions@) == a0 + spec_indirect_each(
                    v0,
                    nodes_requiring_followup@.take(i as int),
                ).1,
            decreases nodes_requiring_followup@.len() - i,
        {
            let p = nodes_requiring_followup[i];
            assert(nodes_requiring_followup@.take(i + 1).drop_last() =~= nodes_requiring_followup@.take(i as int));
            assert(nodes_requiring_followup@.take(i + 1).last() == p);
            self.send_indirect_ping_to(p, actions);
            assert(view_actions(actions@) =~= a0 + spec_indirect_each(
                v0,
                nodes_requiring_followup@.take(i + 1),
            ).1);
            i = i + 1;
        }
        assert(nodes_requiring_followup@.take(i as int) =~= nodes_requiring_followup@);
        let ghost a1 = view_actions(actions@);
        if any_followup {
            actions.push(
                MillAction::RequestTimeout(
                    TimeoutRequest::new(
                        Duration::from_millis(200),
                        OnTimeoutAction::CheckPendingPingReqs,
                    ),
                ),
            );
            assert(view_actions(actions@) =~= a1.push(ActionView::RequestTimeout(timeout(PING_TIMEOUT_MS, OnTimeoutAction::CheckPendingPingReqs))));
        }
        assert(view_actions(actions@) =~= a0 + spec_check_pending_pings(old(self)@).1);
    }

    /// How long a member stays suspect before it is declared dead.
    fn suspicion_timeout(&self) -> (r: Duration)
        ensures
            r == (Duration { millis: SUSPICION_TIMEOUT_MS }),
    {
        Duration::from_secs(2)
    }

    /// Suspects `suspect_node`: if it was not suspect, it becomes so and is
    /// checked on after the suspicion timeout.
    fn suspect(&mut self, suspect_node: NodeId, actions: &mut Vec<MillAction>)
        requires
            old(self)@.well_formed(),
        ensures
            final(self)@ == spec_suspect(old(self)@, suspect_node).0,
            view_actions(final(actions)@) == view_actions(old(actions)@) + spec_suspect(
                old(self)@,
                suspect_node,
            ).1,
            final(self)@.well_formed(),
    {
        let ghost a0 = view_actions(actions@);
        let timeout = self.suspicion_timeout();
        proof {
            lemma_add_member(self@.node.suspects, suspect_node);
        }
        if self.node_state.add_suspect(suspect_node) {
            actions.push(
                MillAction::RequestTimeout(
                    TimeoutRequest::new(
                        timeout,
                        OnTimeoutAction::CheckFailureSuspect(suspect_node, timeout, 0),
                    ),
                ),
            );
        }
        assert(view_actions(actions@) =~= a0 + spec_suspect(old(self)@, suspect_node).1);
    }

    /// Follows up unanswered indirect pings: each such peer becomes
    /// suspect.
    fn check_pending_ping_reqs(&mut self, actions: &mut Vec<MillAction>)
        requires
            old(self)@.well_formed(),
        ensures
            final(self)@ == spec_check_pending_ping_reqs(old(self)@).0,
            view_actions(final(actions)@) == view_actions(old(actions)@)
                + spec_check_pending_ping_reqs(old(self)@).1,
            final(self)@.well_formed(),
    {
        let ghost a0 = view_actions(actions@);
        let unreplied_reqs = self.node_state.drain_pending_indirect_pings();
        let ghost v0 = self@;
        let mut i: usize = 0;
        assert(unreplied_reqs@.take(0) =~= Seq::<NodeId>::empty());
        assert(a0 =~= a0 + spec_suspect_each(v0, unreplied_reqs@.take(0)).1);
        while i < unreplied_reqs.len()
            invariant
                i <= unreplied_reqs@.len(),
                self@.well_formed(),
                self@ == spec_suspect_each(v0, unreplied_reqs@.take(i as int)).0,
                view_actions(actions@) == a0 + spec_suspect_each(
                    v0,
                    unreplied_reqs@.take(i as int),
                ).1,
            decreases unreplied_reqs@.len() - i,
        {
            let p = unreplied_reqs[i];
            assert(unreplied_reqs@.take(i + 1).drop_last() =~= unreplied_reqs@.take(i as int));
            assert(unreplied_reqs@.take(i + 1).last() == p);
            self.suspect(p, actions);
            assert(view_actions(actions@) =~= a0 + spec_suspect_each(
                v0,
                unreplied_reqs@.take(i + 1),
            ).1);
            i = i + 1;
        }
        assert(unreplied_reqs@.take(i as int) =~= unreplied_reqs@);
    }

    /// Ends the suspicion of `suspect`: if it is still suspect, it is
    /// declared dead and the application is told; either way, rumours about
    /// it are dropped and news that it left starts to spread.
    fn check_failure_suspects(&mut self, suspect: NodeId, actions: &mut Vec<MillAction>)
        requires
            old(self)@.well_formed(),
        ensures
            failure_check_ok(old(self)@, suspect, final(self)@.node),
            final(self)@ == spec_check_failure_suspect(old(self)@, suspect, final(self)@.node).0,
            view_actions(final(actions)@) == view_actions(old(actions)@)
                + spec_check_failure_suspect(old(self)@, suspect, final(self)@.node).1,
            final(self)@.well_formed(),
    {
        let ghost a0 = view_actions(actions@);
        proof {
            lemma_swap_remove_member(self@.node.live, suspect);
        }
        if self.node_state.accuse_suspect(suspect) {
            actions.push(MillAction::NodeDead(suspect));
        }
        proof {
            lemma_forget_drops_member(self@.gossip, suspect);
        }
        self.gossip.forget(suspect);
        self.gossip.remember(Rumour::NodeHasLeft(suspect));
        assert(view_actions(actions@) =~= a0 + spec_check_failure_suspect(
            old(self)@,
            suspect,
            self@.node,
        ).1);
    }

    /// Takes the action of an expired timeout. Returns the effects to
    /// perform, in order.
    pub fn on_timeout_expired(&mut self, request: TimeoutRequest) -> (r: Vec<MillAction>)
        requires
            old(self)@.well_formed(),
        ensures
            timeout_outcome_ok(old(self)@, request.action, final(self)@.node),
            final(self)@ == spec_on_timeout(old(self)@, request.action, final(self)@.node).0,
            view_actions(r@) == spec_on_timeout(old(self)@, request.action, final(self)@.node).1,
            final(self)@.well_formed(),
    {
        let mut actions: Vec<MillAction> = Vec::new();
        assert(view_actions(actions@) =~= Seq::<ActionView>::empty());
        match request.action {
            OnTimeoutAction::DoHealthCheck => {
                actions = self.trigger_begin_failure_detection();
            },
            OnTimeoutAction::CheckPendingPings => {
                self.check_pending_pings(&mut actions);
                assert(view_actions(actions@) =~= spec_check_pending_pings(old(self)@).1);
            },
            OnTimeoutAction::CheckPendingPingReqs => {
                self.check_pending_ping_reqs(&mut actions);
                assert(view_actions(actions@) =~= spec_check_pending_ping_reqs(old(self)@).1);
            },
            OnTimeoutAction::CheckFailureSuspect(node_id, _, _) => {
                self.check_failure_suspects(node_id, &mut actions);
                assert(view_actions(actions@) =~= spec_check_failure_suspect(old(self)@, node_id, self@.node).1);
            },
        }
        actions
    }
}

} // verus!

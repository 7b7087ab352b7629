use rumour::address::{IpAddress, SocketAddress};
use rumour::codec::{ControlRequest, InboundMessage, MessageContent, NodeId, OutboundMessage, Rumour};
use rumour::fixed_list::{KnownPeersList, RumourList};
use rumour::mill::{new_mill, MillAction, OnTimeoutAction, RumourMill, TimeoutRequest};
use rumour::time::Duration;

/// Records the messages that the mill asks to send.
#[derive(Default)]
struct MockMessageSender {
    sent_messages: Vec<OutboundMessage>,
}

impl MockMessageSender {
    fn sent_messages(&mut self) -> Vec<OutboundMessage> {
        std::mem::take(&mut self.sent_messages)
    }

    fn control_plain_messages(&mut self) -> Vec<(SocketAddress, ControlRequest)> {
        self.sent_messages()
            .iter()
            .map(|m| match m.content() {
                MessageContent::ControlPlain(r, _) => (m.destination(), r.clone()),
            })
            .collect()
    }

    fn sent_messages_of_type(&mut self, kind: ControlRequest) -> Vec<OutboundMessage> {
        let mut all = self.sent_messages();
        all.retain(|m| match m.content() {
            MessageContent::ControlPlain(control_request, _) => {
                matches!((control_request, &kind), (&ControlRequest::Ping, &ControlRequest::Ping))
            }
        });
        all
    }
}

/// Keeps the requested timeouts ordered by how long they have left.
#[derive(Default)]
struct MockTimeoutRequester {
    requested_timeouts: Vec<TimeoutRequest>,
}

impl MockTimeoutRequester {
    fn request_timeout(&mut self, request: TimeoutRequest) {
        match self
            .requested_timeouts
            .binary_search_by_key(&request.duration(), |r| r.duration())
        {
            Ok(idx) => self.requested_timeouts.insert(idx, request),
            Err(idx) => self.requested_timeouts.insert(idx, request),
        }
    }

    fn requested_timeouts(&self) -> Vec<TimeoutRequest> {
        self.requested_timeouts.clone()
    }
}

/// Counts the lifecycle notifications.
#[derive(Default)]
struct NoopRumourObserver {
    dead_notifications_count: u64,
    joined_notifications_count: u64,
}

/// A mill with its effects carried out by mocks.
struct Node {
    mill: RumourMill,
    message_sender: MockMessageSender,
    timeout_requester: MockTimeoutRequester,
    observer: NoopRumourObserver,
}

impl Node {
    fn new(id: NodeId) -> Node {
        Node {
            mill: new_mill(id),
            message_sender: MockMessageSender::default(),
            timeout_requester: MockTimeoutRequester::default(),
            observer: NoopRumourObserver::default(),
        }
    }

    fn perform(&mut self, actions: Vec<MillAction>) {
        for action in actions {
            match action {
                MillAction::Send(msg) => self.message_sender.sent_messages.push(msg),
                MillAction::RequestTimeout(t) => self.timeout_requester.request_timeout(t),
                MillAction::NodeJoined(_) => self.observer.joined_notifications_count += 1,
                MillAction::NodeDead(_) => self.observer.dead_notifications_count += 1,
            }
        }
    }

    fn on_message_received(&mut self, msg: InboundMessage) {
        let actions = self.mill.on_message_received(msg);
        self.perform(actions);
    }

    fn do_join(&mut self, remote_nodes: &[SocketAddress]) {
        let actions = self.mill.do_join(remote_nodes);
        self.perform(actions);
    }

    fn trigger_begin_failure_detection(&mut self) {
        let actions = self.mill.trigger_begin_failure_detection();
        self.perform(actions);
    }

    fn get_live_nodes(&self) -> Vec<NodeId> {
        self.mill.get_live_nodes()
    }

    fn get_suspect_nodes(&self) -> Vec<NodeId> {
        self.mill.get_suspect_nodes()
    }
}

fn progress_timeout(node: &mut Node, how_far: Duration) {
    let mut fired_so_far: u64 = 0;
    while fired_so_far < how_far.as_millis() {
        match process_next_timeout(node) {
            Some(elapsed) => fired_so_far += elapsed.as_millis(),
            None => break,
        }
    }
}

/// Sends the next timeout back to the mill; returns how far time moved,
/// or nothing if no timeout was pending.
fn process_next_timeout(node: &mut Node) -> Option<Duration> {
    let (to_fire, how_far) = {
        let timeout_requests = &mut node.timeout_requester.requested_timeouts;
        if timeout_requests.is_empty() {
            return None;
        }
        let mut timeout_to_fire = timeout_requests.remove(0);
        let how_far = timeout_to_fire.duration;
        timeout_to_fire.duration = Duration::from_millis(0);
        for t in timeout_requests.iter_mut() {
            t.duration = Duration::from_millis(t.duration.as_millis() - how_far.as_millis());
        }
        (timeout_to_fire, how_far)
    };
    let actions = node.mill.on_timeout_expired(to_fire);
    node.perform(actions);
    Some(how_far)
}

fn parse_ipv4(ip: &str) -> u32 {
    let octets: Vec<u32> = ip.split('.').map(|o| o.parse::<u8>().expect("Couldn't parse ip addr") as u32).collect();
    assert_eq!(octets.len(), 4);
    (octets[0] << 24) | (octets[1] << 16) | (octets[2] << 8) | octets[3]
}

fn localnode() -> NodeId {
    NodeId(SocketAddress::new(IpAddress::V4(parse_ipv4("127.0.0.1")), 2073))
}

fn remote_node(ip: &str) -> NodeId {
    NodeId(SocketAddress::new(IpAddress::V4(parse_ipv4(ip)), 2073))
}

fn peers(nodes: Vec<NodeId>) -> KnownPeersList {
    KnownPeersList::from_vec(nodes)
}

#[test]
fn shows_self_as_active_from_the_start() {
    let mill = new_mill(localnode());
    assert_eq!(mill.get_live_nodes(), &[localnode()])
}

#[test]
fn adds_joined_node_to_active_list_right_away() {
    let mut node = Node::new(localnode());
    let remote_node = remote_node("127.0.0.2");

    node.on_message_received(InboundMessage::bare_control_plain_message(remote_node.0, ControlRequest::MemberJoin));

    let live_nodes = node.get_live_nodes();
    assert!(live_nodes.contains(&localnode()));
    assert!(live_nodes.contains(&remote_node));
}

#[test]
fn responds_to_ping() {
    let mut node = Node::new(localnode());
    let remote_node = remote_node("127.0.0.2");

    node.on_message_received(InboundMessage::bare_control_plain_message(remote_node.0, ControlRequest::Ping));

    assert!(node.message_sender.control_plain_messages().contains(&(remote_node.0, ControlRequest::PingAck)));
}

#[test]
fn do_join_sends_join_messages_to_known_nodes() {
    let mut node = Node::new(localnode());
    let remote_node = remote_node("127.0.0.2");

    node.do_join(&[remote_node.0]);

    let sent = node.message_sender.control_plain_messages();
    assert!(sent.contains(&(remote_node.0, ControlRequest::MemberJoin)));
}

#[test]
fn do_join_schedules_a_health_check_timeout() {
    let mut node = Node::new(localnode());
    let remote_node = remote_node("127.0.0.2");

    node.do_join(&[remote_node.0]);

    let requested_timeouts = node.timeout_requester.requested_timeouts();
    assert!(requested_timeouts.contains(&TimeoutRequest::new(Duration::from_secs(1), OnTimeoutAction::DoHealthCheck)));
}

#[test]
fn remote_nodes_marked_live_when_join_ack_received() {
    let mut node = Node::new(localnode());
    let remote_node1 = remote_node("127.0.0.2");
    let remote_node2 = remote_node("127.0.0.3");
    let remote_node3 = remote_node("127.0.0.4");

    let live_nodes = node.get_live_nodes();
    assert!(!live_nodes.contains(&remote_node1));

    node.on_message_received(InboundMessage::bare_control_plain_message(
        remote_node1.0,
        ControlRequest::JoinAck(peers(vec![remote_node2, remote_node3])),
    ));

    let live_nodes = node.get_live_nodes();

    assert!(live_nodes.contains(&remote_node1));
    assert!(live_nodes.contains(&remote_node2));
    assert!(live_nodes.contains(&remote_node3));
    assert_eq!(live_nodes.len(), 4)
}

#[test]
fn health_check_pings_some_known_nodes() {
    let mut node = Node::new(localnode());
    let remote_node = remote_node("127.0.0.2");

    node.on_message_received(InboundMessage::bare_control_plain_message(remote_node.0, ControlRequest::JoinAck(peers(vec![]))));

    node.trigger_begin_failure_detection();

    let sent_pings = node.message_sender.sent_messages_of_type(ControlRequest::Ping);

    assert!(!sent_pings.is_empty())
}

#[test]
fn when_node_responds_to_ping_then_it_remains_healthy() {
    let mut node = Node::new(localnode());

    let remote_node = remote_node("127.0.0.2");
    node.on_message_received(InboundMessage::bare_control_plain_message(remote_node.0, ControlRequest::JoinAck(peers(vec![]))));

    node.trigger_begin_failure_detection();
    node.on_message_received(InboundMessage::bare_control_plain_message(remote_node.0, ControlRequest::PingAck));

    process_next_timeout(&mut node);
    process_next_timeout(&mut node);
    process_next_timeout(&mut node);

    assert!(node.get_live_nodes().contains(&remote_node));
    assert!(!node.get_suspect_nodes().contains(&remote_node));
}

#[test]
fn when_node_doesnt_respond_to_ping_then_ping_req_sent() {
    let mut node = Node::new(localnode());

    let remote_node1 = remote_node("127.0.0.2");
    let remote_node2 = remote_node("127.0.0.3");

    node.on_message_received(InboundMessage::bare_control_plain_message(
        remote_node1.0,
        ControlRequest::JoinAck(peers(vec![remote_node2])),
    ));

    assert_eq!(node.get_live_nodes().len(), 3);

    node.trigger_begin_failure_detection();
    node.trigger_begin_failure_detection(); // so that it will have health-checked every node

    node.on_message_received(InboundMessage::bare_control_plain_message(remote_node2.0, ControlRequest::PingAck));

    process_next_timeout(&mut node);
    process_next_timeout(&mut node); // flush out all ping checks

    assert_eq!(node.get_live_nodes().len(), 3); // Not dead until ping-req has failed

    assert!(node
        .message_sender
        .control_plain_messages()
        .contains(&(remote_node2.0, ControlRequest::PingRequest(remote_node1))));
}

#[test]
fn when_node_doesnt_respond_to_ping_or_ping_req_then_marked_as_suspect() {
    let mut node = Node::new(localnode());

    let remote_node1 = remote_node("127.0.0.2");
    let remote_node2 = remote_node("127.0.0.3");

    node.on_message_received(InboundMessage::bare_control_plain_message(
        remote_node1.0,
        ControlRequest::JoinAck(peers(vec![remote_node2])),
    ));

    assert_eq!(node.get_live_nodes().len(), 3);

    node.trigger_begin_failure_detection();

    process_next_timeout(&mut node);
    process_next_timeout(&mut node); // both sets of pings failed

    assert_eq!(node.get_live_nodes().len(), 3); // Still not dead, just suspect
    assert!(node.get_suspect_nodes().contains(&remote_node1));
}

#[test]
fn after_node_has_been_suspect_on_timeout_remove_from_live_set() {
    let mut node = Node::new(localnode());

    let remote_node1 = remote_node("127.0.0.2");
    let remote_node2 = remote_node("127.0.0.3");

    node.on_message_received(InboundMessage::bare_control_plain_message(
        remote_node1.0,
        ControlRequest::JoinAck(peers(vec![remote_node2])),
    ));
    assert_eq!(node.get_live_nodes().len(), 3);

    node.trigger_begin_failure_detection();

    progress_timeout(&mut node, Duration::from_millis(500));

    assert!(node.get_suspect_nodes().contains(&remote_node1));

    progress_timeout(&mut node, Duration::from_secs(10));

    assert!(node.get_suspect_nodes().is_empty());
    assert!(!node.get_live_nodes().contains(&remote_node1));
}

#[test]
fn if_no_peers_then_failed_ping_still_results_in_node_suspected() {
    let mut node = Node::new(localnode());

    let remote_node = remote_node("127.0.0.2");

    node.on_message_received(InboundMessage::bare_control_plain_message(remote_node.0, ControlRequest::MemberJoin));

    node.trigger_begin_failure_detection();

    progress_timeout(&mut node, Duration::from_secs(1));

    assert!(node.get_live_nodes().contains(&remote_node));
    assert!(node.get_suspect_nodes().contains(&remote_node));

    progress_timeout(&mut node, Duration::from_secs(10)); // suspicion timeout expires

    assert!(!node.get_live_nodes().contains(&remote_node));
    assert!(!node.get_suspect_nodes().contains(&remote_node)); // both lists are "live-ish" - should be removed from both.

    // The only messages that should have been sent with no peers are pings
    assert!(node.message_sender.control_plain_messages().iter().all(|m| {
        let (_, msg) = m;
        matches!(msg, ControlRequest::Ping | ControlRequest::MemberJoin | ControlRequest::JoinAck(_))
    }));

    node.trigger_begin_failure_detection();
    let sent_messages_this_time = node.message_sender.sent_messages();
    assert!(sent_messages_this_time.is_empty()); // Should no longer send health checks to dead node
}

fn bare_join_message(node: NodeId) -> InboundMessage {
    InboundMessage::bare_control_plain_message(node.0, ControlRequest::MemberJoin)
}

fn gossip_from(msg: &OutboundMessage) -> Option<&RumourList> {
    match msg.content() {
        MessageContent::ControlPlain(_, rl) => Some(rl),
    }
}

#[test]
fn acks_join_requests_with_any_known_nodes() {
    let mut node = Node::new(localnode());

    let remote_node1 = remote_node("127.0.0.2");
    let remote_node2 = remote_node("127.0.0.3");

    node.on_message_received(bare_join_message(remote_node1));
    node.on_message_received(bare_join_message(remote_node2));

    let messages = node.message_sender.control_plain_messages();
    assert!(messages.contains(&(remote_node1.0, ControlRequest::JoinAck(peers(vec![])))));
    assert!(messages.contains(&(remote_node2.0, ControlRequest::JoinAck(peers(vec![remote_node1])))));
}

#[test]
fn other_nodes_will_hear_about_membership_through_control_messages() {
    let mut node = Node::new(localnode());

    let remote1 = remote_node("127.0.0.2");
    let remote2 = remote_node("127.0.0.3");

    node.on_message_received(bare_join_message(remote1));
    node.on_message_received(bare_join_message(remote2));
    node.trigger_begin_failure_detection();

    progress_timeout(&mut node, Duration::from_secs(5)); // enough time for a health check to have been sent to remote1

    let sent_messages = node.message_sender.sent_messages();
    assert!(sent_messages.iter().any(|m| match gossip_from(m) {
        Some(rumours) => (m.destination() == remote1.0) && rumours.contains(&Rumour::NodeHasJoin(remote2)),
        _ => false,
    }));
}

#[test]
fn once_node_is_dead_stop_gossipping_that_it_has_joined() {
    let mut node = Node::new(localnode());

    let remote2 = remote_node("127.0.0.2");
    let remote3 = remote_node("127.0.0.3");

    node.on_message_received(bare_join_message(remote2));
    node.trigger_begin_failure_detection();

    progress_timeout(&mut node, Duration::from_secs(20)); // enough time for remote2 to be marked as failed

    node.on_message_received(bare_join_message(remote3));

    let sent_messages = node.message_sender.sent_messages();
    assert!(!sent_messages.iter().any(|m| match gossip_from(m) {
        Some(rumours) => (m.destination() == remote3.0) && rumours.contains(&Rumour::NodeHasJoin(remote2)),
        _ => false,
    }));
}

#[test]
fn node_can_pick_up_peer_join_through_control_plane_gossip() {
    let mut node = Node::new(localnode());

    let remote1 = remote_node("127.0.0.2");
    let remote2 = remote_node("127.0.0.3");

    node.on_message_received(InboundMessage::new(remote1.0, ControlRequest::Ping, vec![Rumour::NodeHasJoin(remote2)]));

    assert!(node.get_live_nodes().contains(&remote2));
}

#[test]
fn observer_received_node_lifecycle_events() {
    let mut node = Node::new(localnode());

    let remote_node = remote_node("127.0.0.2");
    node.on_message_received(InboundMessage::bare_control_plain_message(remote_node.0, ControlRequest::MemberJoin));
    assert_eq!(node.observer.joined_notifications_count, 1);
    assert_eq!(node.observer.dead_notifications_count, 0);

    node.trigger_begin_failure_detection();
    progress_timeout(&mut node, Duration::from_secs(12));
    assert_eq!(node.observer.dead_notifications_count, 1);
}

use rumour::address::{IpAddress, SocketAddress, LOOPBACK_V4};
use rumour::cli::{get_port, resolve_peer, resolve_peers, split_address_list, DEFAULT_PEER_PORT};
use rumour::codec::{ControlRequest, InboundMessage, MessageContent, NodeId, OutboundMessage, Rumour};
use rumour::errors::ErrorKind;
use rumour::fixed_list::{KnownPeersList, RumourList};
use rumour::gossip::GossipState;
use rumour::mill::{new_mill, MillAction, OnTimeoutAction, TimeoutRequest};
use rumour::node::{server, Config};
use rumour::node_state::{add_to_vec, new as new_liveness, to_vec};
use rumour::time::Duration;

fn node(last_octet: u32) -> NodeId {
    NodeId(SocketAddress::V4 { ip: 0x7f00_0000 | last_octet, port: 2073 })
}

#[test]
fn rumour_list_round_trip() {
    let items = vec![Rumour::NodeHasJoin(node(2)), Rumour::NodeHasLeft(node(3))];
    let list = RumourList::from_vec(items.clone());
    assert_eq!(list.size, 2);
    assert!(list.contains(&Rumour::NodeHasLeft(node(3))));
    assert!(!list.contains(&Rumour::NodeHasLeft(node(2))));
    assert_eq!(list.into_vec(), items);
}

#[test]
fn rumour_list_push_stops_when_full() {
    let mut list = RumourList::empty();
    for i in 0..5 {
        assert!(list.push(Rumour::NodeHasJoin(node(i))));
    }
    assert!(!list.push(Rumour::NodeHasJoin(node(9))));
    assert_eq!(list.size, RumourList::capacity());
    assert_eq!(list.into_vec().len(), 5);
}

#[test]
fn rumour_list_pop_returns_the_slot_past_the_end() {
    let mut list = RumourList::from_vec(vec![Rumour::NodeHasJoin(node(2)), Rumour::NodeHasJoin(node(3))]);
    assert_eq!(list.pop(), None);
    assert_eq!(list.size, 1);
    assert_eq!(list.pop(), Some(Rumour::NodeHasJoin(node(3))));
    assert_eq!(list.size, 0);
    assert_eq!(list.pop(), Some(Rumour::NodeHasJoin(node(2))));
    assert_eq!(list.size, 0);
}

#[test]
fn known_peers_copy_to_fills_the_front() {
    let list = KnownPeersList::from_vec(vec![node(2), node(3)]);
    let mut to = [node(9), node(9), node(9)];
    list.copy_to(&mut to);
    assert_eq!(to, [node(2), node(3), node(9)]);
    assert!(list.contains(&node(3)));
}

#[test]
fn into_vec_stops_at_the_first_empty_slot() {
    let list = KnownPeersList { size: 3, slots: [Some(node(2)), None, Some(node(4)), None, None] };
    assert_eq!(list.into_vec(), vec![node(2)]);
}

#[test]
fn add_to_vec_adds_once() {
    let mut v = vec![node(2)];
    assert!(add_to_vec(node(3), &mut v));
    assert!(!add_to_vec(node(2), &mut v));
    assert_eq!(v, vec![node(2), node(3)]);
    assert_eq!(to_vec(&v), v);
}

#[test]
fn live_peers_wrap_round_the_round_robin_order() {
    let mut state = new_liveness();
    for i in 2..6 {
        assert!(state.add_live_node(node(i)));
    }
    assert!(!state.add_live_node(node(2)));
    assert_eq!(state.next_live_peer_for_message(), Some(node(2)));
    assert_eq!(state.next_live_peer_for_message(), Some(node(3)));
    assert_eq!(state.next_live_peer_for_message(), Some(node(4)));
    assert_eq!(state.get_live_peers(3), vec![node(5), node(2), node(3)]);
    assert_eq!(state.get_live_peers(10), vec![node(5), node(2), node(3), node(4)]);
}

#[test]
fn shuffle_with_given_draws() {
    let mut state = new_liveness();
    for i in 2..5 {
        state.add_live_node(node(i));
    }
    // order [2, 3, 4]; swaps (0, 2), (1, 1), (2, 0)
    state.shuffle_round_robin(&vec![2, 4, 3]);
    assert_eq!(state.next_live_peer_for_message(), Some(node(2)));
    assert_eq!(state.get_live_peers(3), vec![node(3), node(4), node(2)]);
}

#[test]
fn reshuffling_keeps_every_live_peer() {
    let mut state = new_liveness();
    for i in 2..8 {
        state.add_live_node(node(i));
    }
    state.re_index_round_robin_list();
    let mut peers = state.get_live_peers(10);
    peers.sort_by_key(|n| match n.0 {
        SocketAddress::V4 { ip, .. } => ip,
        _ => 0,
    });
    assert_eq!(peers, (2..8).map(node).collect::<Vec<_>>());
}

#[test]
fn pending_pings_are_settled_by_acks() {
    let mut state = new_liveness();
    state.add_pending_ping(node(2));
    state.add_pending_ping(node(3));
    state.add_pending_ping(node(4));
    state.add_pending_ping(node(3));
    state.remove_pending_ping(node(2));
    assert_eq!(state.drain_pending_pings(), vec![node(4), node(3)]);
    assert!(state.drain_pending_pings().is_empty());
}

#[test]
fn accusing_a_suspect_removes_it() {
    let mut state = new_liveness();
    state.add_live_node(node(2));
    state.add_live_node(node(3));
    assert!(!state.accuse_suspect(node(2)));
    assert!(state.add_suspect(node(2)));
    assert!(!state.add_suspect(node(2)));
    assert!(state.accuse_suspect(node(2)));
    assert!(state.get_suspect_nodes().is_empty());
    assert_eq!(state.live_nodes(), vec![node(3)]);
    assert_eq!(state.get_live_nodes(), vec![node(3)]);
}

#[test]
fn indirect_pings_are_recorded_once() {
    let mut state = new_liveness();
    state.add_pending_indirect_ping(node(2));
    state.add_pending_indirect_ping(node(2));
    assert_eq!(state.drain_pending_indirect_pings(), vec![node(2)]);
}

#[test]
fn ports_are_decimal_with_an_optional_plus() {
    assert_eq!(get_port("2073"), Ok(2073));
    assert_eq!(get_port("+80"), Ok(80));
    assert_eq!(get_port("65535"), Ok(65535));
    assert_eq!(get_port("0065535"), Ok(65535));
    assert_eq!(get_port("65536"), Err(ErrorKind::BadPortSpecified));
    assert_eq!(get_port("999999999999"), Err(ErrorKind::BadPortSpecified));
    assert_eq!(get_port(""), Err(ErrorKind::BadPortSpecified));
    assert_eq!(get_port("+"), Err(ErrorKind::BadPortSpecified));
    assert_eq!(get_port("-1"), Err(ErrorKind::BadPortSpecified));
    assert_eq!(get_port("80a"), Err(ErrorKind::BadPortSpecified));
    assert_eq!(get_port(" 80"), Err(ErrorKind::BadPortSpecified));
}

#[test]
fn address_lists_split_at_commas() {
    assert_eq!(split_address_list("127.0.0.1:2073,10.0.0.1"), vec!["127.0.0.1:2073", "10.0.0.1"]);
    assert_eq!(split_address_list(""), vec![""]);
    assert_eq!(split_address_list("a,,b,"), vec!["a", "", "b", ""]);
    assert_eq!(split_address_list("é,ü"), vec!["é", "ü"]);
}

#[test]
fn peers_given_by_ip_alone_use_the_default_port() {
    assert_eq!(
        resolve_peer(Some(IpAddress::V4(0x0a00_0001)), None),
        Ok(SocketAddress::V4 { ip: 0x0a00_0001, port: DEFAULT_PEER_PORT })
    );
    assert_eq!(
        resolve_peer(Some(IpAddress::V6(1)), None),
        Ok(SocketAddress::V6 { ip: 1, port: 8123, flowinfo: 0, scope_id: 0 })
    );
    let addr = SocketAddress::V4 { ip: 0x0a00_0001, port: 99 };
    assert_eq!(resolve_peer(None, Some(addr)), Ok(addr));
    assert_eq!(resolve_peer(None, None), Err(ErrorKind::BadClusterJoinAddressSpecified));
}

#[test]
fn error_descriptions() {
    assert_eq!(ErrorKind::BadPortSpecified.description(), "Bad port specified");
    assert_eq!(ErrorKind::BadClusterJoinAddressSpecified.description(), "Bad peer address specified");
}

#[test]
fn local_config_listens_on_loopback() {
    let config = Config::listen_local(2073, vec![node(2).0]);
    assert_eq!(config.listen_port, SocketAddress::V4 { ip: LOOPBACK_V4, port: 2073 });
    assert_eq!(config.listen_port.port(), 2073);
    let s = server(config).ok().unwrap();
    assert_eq!(s.config.peer_addresses, vec![node(2).0]);
}

#[test]
fn durations_count_milliseconds() {
    assert_eq!(Duration::from_secs(2).as_millis(), 2000);
    assert_eq!(Duration::from_millis(200), Duration { millis: 200 });
    let t = TimeoutRequest::new(Duration::from_secs(1), OnTimeoutAction::DoHealthCheck);
    assert_eq!(t.duration(), Duration::from_millis(1000));
}

#[test]
fn gossip_entries_compare_by_sends_left() {
    let a = GossipState { number_of_times_to_spread: 3, rumour: Rumour::NodeHasJoin(node(2)) };
    let b = GossipState { number_of_times_to_spread: 5, rumour: Rumour::NodeHasJoin(node(2)) };
    let c = GossipState { number_of_times_to_spread: 3, rumour: Rumour::NodeHasLeft(node(2)) };
    assert!(a < b);
    assert!(a != c);
    assert_eq!(a.partial_cmp(&c), Some(std::cmp::Ordering::Equal));
    assert!(a == GossipState { number_of_times_to_spread: 3, rumour: Rumour::NodeHasJoin(node(2)) });
}

#[test]
fn join_notifications_match_newly_live_members() {
    let mut mill = new_mill(node(1));
    let actions = mill.on_message_received(InboundMessage::bare_control_plain_message(
        node(2).0,
        ControlRequest::JoinAck(KnownPeersList::from_vec(vec![node(1), node(3), node(2)])),
    ));
    let joined: Vec<NodeId> = actions
        .iter()
        .filter_map(|a| match a {
            MillAction::NodeJoined(n) => Some(*n),
            _ => None,
        })
        .collect();
    assert_eq!(joined, vec![node(2), node(3)]);
    assert_eq!(mill.get_live_nodes(), vec![node(2), node(3), node(1)]);
}

#[test]
fn unknown_messages_are_greeted() {
    let mut mill = new_mill(node(1));
    let actions = mill.on_message_received(InboundMessage::bare_control_plain_message(node(2).0, ControlRequest::UnknownMessage));
    assert_eq!(actions.len(), 1);
    match &actions[0] {
        MillAction::Send(m) => {
            assert_eq!(m.destination(), node(2).0);
            assert_eq!(
                m.content(),
                &MessageContent::ControlPlain(ControlRequest::PlainBytes(b"hai from service".to_vec()), RumourList::empty())
            );
        }
        _ => panic!("expected a message"),
    }
}

#[test]
fn join_request_is_acknowledged_then_spread() {
    let mut mill = new_mill(node(1));
    let actions = mill.on_message_received(InboundMessage::bare_control_plain_message(node(2).0, ControlRequest::MemberJoin));
    assert_eq!(
        actions[0],
        MillAction::Send(OutboundMessage::control_message(
            node(2).0,
            ControlRequest::JoinAck(KnownPeersList::empty()),
            RumourList::empty()
        ))
    );
    assert_eq!(actions[1], MillAction::NodeJoined(node(2)));
    let actions = mill.on_message_received(InboundMessage::bare_control_plain_message(node(3).0, ControlRequest::Ping));
    assert_eq!(
        actions,
        vec![MillAction::Send(OutboundMessage::control_message(
            node(3).0,
            ControlRequest::PingAck,
            RumourList::from_vec(vec![Rumour::NodeHasJoin(node(2))])
        ))]
    );
}

#[test]
fn health_check_with_no_peers_only_schedules_the_next() {
    let mut mill = new_mill(node(1));
    let actions = mill.trigger_begin_failure_detection();
    assert_eq!(
        actions,
        vec![MillAction::RequestTimeout(TimeoutRequest::new(Duration::from_secs(1), OnTimeoutAction::DoHealthCheck))]
    );
}

#[test]
fn suspicion_ends_in_death_and_news_of_leaving() {
    let mut mill = new_mill(node(1));
    let _ = mill.on_message_received(InboundMessage::bare_control_plain_message(node(2).0, ControlRequest::MemberJoin));
    let actions = mill.trigger_begin_failure_detection();
    assert_eq!(actions.len(), 3);
    let actions = mill.on_timeout_expired(TimeoutRequest::new(Duration::from_millis(200), OnTimeoutAction::CheckPendingPings));
    assert_eq!(
        actions,
        vec![MillAction::RequestTimeout(TimeoutRequest::new(Duration::from_millis(200), OnTimeoutAction::CheckPendingPingReqs))]
    );
    let actions = mill.on_timeout_expired(TimeoutRequest::new(Duration::from_millis(200), OnTimeoutAction::CheckPendingPingReqs));
    let timeout = Duration::from_secs(2);
    assert_eq!(
        actions,
        vec![MillAction::RequestTimeout(TimeoutRequest::new(timeout, OnTimeoutAction::CheckFailureSuspect(node(2), timeout, 0)))]
    );
    assert_eq!(mill.get_suspect_nodes(), vec![node(2)]);
    let actions = mill.on_timeout_expired(TimeoutRequest::new(timeout, OnTimeoutAction::CheckFailureSuspect(node(2), timeout, 0)));
    assert_eq!(actions, vec![MillAction::NodeDead(node(2))]);
    assert_eq!(mill.get_live_nodes(), vec![node(1)]);
    let actions = mill.on_message_received(InboundMessage::bare_control_plain_message(node(3).0, ControlRequest::Ping));
    match &actions[0] {
        MillAction::Send(m) => match m.content() {
            MessageContent::ControlPlain(_, rumours) => {
                assert!(rumours.contains(&Rumour::NodeHasLeft(node(2))));
                assert!(!rumours.contains(&Rumour::NodeHasJoin(node(2))));
            }
        },
        _ => panic!("expected a message"),
    }
}

#[test]
fn peer_lists_resolve_in_order_or_fail() {
    let a = SocketAddress::V4 { ip: 0x0a00_0001, port: 99 };
    assert_eq!(
        resolve_peers(vec![(Some(IpAddress::V4(0x0a00_0002)), None), (None, Some(a))]),
        Ok(vec![SocketAddress::V4 { ip: 0x0a00_0002, port: DEFAULT_PEER_PORT }, a])
    );
    assert_eq!(resolve_peers(vec![]), Ok(vec![]));
    assert_eq!(
        resolve_peers(vec![(None, Some(a)), (None, None), (None, Some(a))]),
        Err(ErrorKind::BadClusterJoinAddressSpecified)
    );
}

#[test]
fn round_robin_probes_every_peer_within_a_round_and_a_half() {
    let mut state = new_liveness();
    for i in 2..6 {
        state.add_live_node(node(i));
    }
    let k = 4;
    let picks: Vec<NodeId> = (0..20).map(|_| state.next_live_peer_for_message().unwrap()).collect();
    let mut first: Vec<NodeId> = picks[..k].to_vec();
    first.sort_by_key(|n| match n.0 {
        SocketAddress::V4 { ip, .. } => ip,
        _ => 0,
    });
    assert_eq!(first, (2..6).map(node).collect::<Vec<_>>());
    for j in 0..=(picks.len() - (2 * k - 1)) {
        for i in 2..6 {
            assert!(picks[j..j + 2 * k - 1].contains(&node(i)));
        }
    }
}

use rumour::address::SocketAddress;
use rumour::codec::{NodeId, Rumour};
use rumour::gossip::new;

fn a_node() -> NodeId {
    NodeId(SocketAddress::V4 { ip: 0x7f00_0002, port: 2073 })
}

#[test]
fn initially_no_rumours() {
    let mut gossip = new();
    let result = gossip.pull_rumours(5);
    assert!(result.is_empty());
}

#[test]
fn if_i_tell_it_a_rumour_then_i_can_retreive_that() {
    let mut gossip = new();
    let rumour = Rumour::NodeHasJoin(a_node());

    gossip.remember(rumour);
    let result = gossip.pull_rumours(1);

    assert!(result.contains(&rumour))
}

#[test]
fn eventually_stops_spreaing_a_rumour() {
    let mut gossip = new();
    let rumour = Rumour::NodeHasJoin(a_node());

    gossip.remember(rumour);

    for _ in 0..100 {
        if !gossip.pull_rumours(1).contains(&rumour) {
            return;
        }
    }

    panic!("Still spreading {:?} after 100 queuries", rumour);
}

#[test]
fn hearing_something_weve_heard_before_is_not_remembered() {
    let mut gossip = new();
    let rumour = Rumour::NodeHasJoin(a_node());

    gossip.remember(rumour);

    let mut number_of_times_to_spread = 0;
    for i in 1..100 {
        if gossip.pull_rumours(1).contains(&rumour) {
            number_of_times_to_spread = i;
        } else {
            break;
        }
    }

    gossip.remember(rumour);
    for _ in 0..number_of_times_to_spread - 1 {
        let _ = gossip.pull_rumours(1);
    }

    gossip.remember(rumour);
    let _ = gossip.pull_rumours(1);
    assert!(!gossip.pull_rumours(1).contains(&rumour));
}

#[test]
fn a_rumour_is_spread_exactly_ten_times() {
    let mut gossip = new();
    let rumour = Rumour::NodeHasLeft(a_node());
    gossip.remember(rumour);
    let mut times = 0;
    while gossip.pull_rumours(1).contains(&rumour) {
        times += 1;
    }
    assert_eq!(times, 10);
}

#[test]
fn pull_hands_out_the_rumours_with_fewest_sends_left_first() {
    let mut gossip = new();
    let old = Rumour::NodeHasJoin(a_node());
    let fresh = Rumour::NodeHasLeft(NodeId(SocketAddress::V4 { ip: 0x7f00_0003, port: 2073 }));
    gossip.remember(old);
    let _ = gossip.pull_rumours(1);
    gossip.remember(fresh);
    assert_eq!(gossip.pull_rumours(1), vec![old]);
    assert_eq!(gossip.pull_rumours(5), vec![old, fresh]);
}

#[test]
fn forgetting_a_member_drops_every_rumour_about_it() {
    let mut gossip = new();
    let joined = Rumour::NodeHasJoin(a_node());
    let other = Rumour::NodeHasJoin(NodeId(SocketAddress::V4 { ip: 0x7f00_0003, port: 2073 }));
    gossip.remember(joined);
    gossip.remember(other);
    gossip.forget(a_node());
    assert_eq!(gossip.pull_rumours(5), vec![other]);
}

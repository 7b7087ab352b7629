use vstd::prelude::*;

use crate::codec::NodeId;

verus! {

/// What a member knows of the liveness of its peers.
///
/// The live set is held as a vector without repeats rather than a hash
/// set: vstd specifies std's hash set only for keys whose hashing it
/// models (integers, `bool` and boxes of them), and a `NodeId` is a struct.
#[derive(Debug)]
pub struct NodeLivenessState {
    pub(crate) live_nodes: Vec<NodeId>,
    pub(crate) live_node_round_robin_idx: usize,
    pub(crate) live_node_round_robin: Vec<NodeId>,
    pub(crate) pending_pings: Vec<NodeId>,
    pub(crate) pending_ping_reqs: Vec<NodeId>,
    pub(crate) suspect_nodes: Vec<NodeId>,
}

/// The liveness state taken as sequences: the live set, the round-robin
/// order over it with the position of the next peer to probe, the peers
/// with a direct or an indirect ping outstanding, and the suspects.
pub struct LivenessView {
    pub live: Seq<NodeId>,
    pub round_robin: Seq<NodeId>,
    pub next: nat,
    pub pending_pings: Seq<NodeId>,
    pub pending_ping_reqs: Seq<NodeId>,
    pub suspects: Seq<NodeId>,
}

impl View for NodeLivenessState {
    type V = LivenessView;

    closed spec fn view(&self) -> LivenessView {
        LivenessView {
            live: self.live_nodes@,
            round_robin: self.live_node_round_robin@,
            next: self.live_node_round_robin_idx as nat,
            pending_pings: self.pending_pings@,
            pending_ping_reqs: self.pending_ping_reqs@,
            suspects: self.suspect_nodes@,
        }
    }
}

impl LivenessView {
    /// The invariant of the liveness state: no list holds a peer twice, the
    /// round-robin order holds exactly the live peers, and the next position
    /// lies within it.
    pub open spec fn well_formed(self) -> bool {
        &&& self.live.no_duplicates()
        &&& self.round_robin.no_duplicates()
        &&& forall|n: NodeId| self.live.contains(n) <==> self.round_robin.contains(n)
        &&& self.next <= self.round_robin.len()
        &&& self.pending_pings.no_duplicates()
        &&& self.pending_ping_reqs.no_duplicates()
        &&& self.suspects.no_duplicates()
    }
}

/// `s` with `x` added at the end, unless it holds `x` already.
pub open spec fn add_member(s: Seq<NodeId>, x: NodeId) -> Seq<NodeId> {
    if s.contains(x) {
        s
    } else {
        s.push(x)
    }
}

/// `s` with `x` taken out, its place filled by the last entry.
pub open spec fn swap_remove_member<T>(s: Seq<T>, x: T) -> Seq<T> {
    if s.contains(x) {
        s.update(s.index_of(x), s.last()).drop_last()
    } else {
        s
    }
}

/// `s` with `x` taken out, the order of the rest kept.
pub open spec fn remove_member<T>(s: Seq<T>, x: T) -> Seq<T> {
    if s.contains(x) {
        s.remove(s.index_of(x))
    } else {
        s
    }
}

/// `s` with the entries at `a` and `b` exchanged.
pub open spec fn swap<T>(s: Seq<T>, a: int, b: int) -> Seq<T> {
    s.update(a, s[b]).update(b, s[a])
}

/// `s` after the first `i` steps of the shuffle driven by `draws`: step `k`
/// exchanges entry `k` with entry `draws[k]` modulo the length.
pub open spec fn shuffle_prefix<T>(s: Seq<T>, draws: Seq<usize>, i: int) -> Seq<T>
    decreases i,
{
    if i <= 0 {
        s
    } else {
        swap(shuffle_prefix(s, draws, i - 1), i - 1, (draws[i - 1] as int) % (s.len() as int))
    }
}

/// `s` after the whole shuffle driven by `draws`.
pub open spec fn shuffle_with<T>(s: Seq<T>, draws: Seq<usize>) -> Seq<T> {
    shuffle_prefix(s, draws, draws.len() as int)
}

/// `t` is what some run of the shuffle makes of `s`.
pub open spec fn reshuffled<T>(s: Seq<T>, t: Seq<T>) -> bool {
    exists|draws: Seq<usize>| draws.len() == s.len() && t == shuffle_with(s, draws)
}

/// One probe in round-robin order: the peer at the next position, or, when
/// the round has run out, the first peer of a fresh shuffle.
pub open spec fn probe_step(pre: LivenessView, post: LivenessView, pick: NodeId) -> bool {
    if pre.next < pre.round_robin.len() {
        &&& pick == pre.round_robin[pre.next as int]
        &&& post == (LivenessView { next: pre.next + 1, ..pre })
    } else {
        &&& reshuffled(pre.round_robin, post.round_robin)
        &&& pick == post.round_robin[0]
        &&& post == (LivenessView { round_robin: post.round_robin, next: 1, ..pre })
    }
}

/// A run of consecutive probes: `picks[i]` is the peer that the probe
/// taken in `states[i]` returns, leaving `states[i + 1]`.
pub open spec fn probe_run(states: Seq<LivenessView>, picks: Seq<NodeId>) -> bool {
    &&& states.len() == picks.len() + 1
    &&& forall|i: int| 0 <= i < picks.len() ==> probe_step(states[i], states[i + 1], #[trigger] picks[i])
}

/// The peers that a request for `number` of them gets: the next ones in
/// round-robin order, wrapping round to the start when the round runs out.
pub open spec fn live_peers(v: LivenessView, number: nat) -> Seq<NodeId> {
    let len = v.round_robin.len();
    let n = if number < len {
        number
    } else {
        len
    };
    let this_round = if (len - v.next) < n {
        (len - v.next) as nat
    } else {
        n
    };
    let next_round = (n - this_round) as nat;
    v.round_robin.subrange(v.next as int, (v.next + this_round) as int) + v.round_robin.subrange(
        0,
        next_round as int,
    )
}

/// How the live set and the round-robin order change when `node` is taken
/// out of the live set: it leaves both, and the round-robin order, if it
/// held `node`, is shuffled afresh and restarted.
pub open spec fn removed_live(pre: LivenessView, node: NodeId, post: LivenessView) -> bool {
    &&& post.live == remove_member(pre.live, node)
    &&& if pre.round_robin.contains(node) {
        &&& reshuffled(swap_remove_member(pre.round_robin, node), post.round_robin)
        &&& post.next == 0
    } else {
        &&& post.round_robin == pre.round_robin
        &&& post.next == pre.next
    }
}

/// Exchanging two entries keeps the multiset of entries.
pub proof fn lemma_swap_multiset<T>(s: Seq<T>, a: int, b: int)
    requires
        0 <= a < s.len(),
        0 <= b < s.len(),
    ensures
        swap(s, a, b).to_multiset() == s.to_multiset(),
        swap(s, a, b).len() == s.len(),
{
    broadcast use vstd::multiset::group_multiset_axioms;

    if a != b {
        let s1 = s.update(a, s[b]);
        assert(s1 =~= s.remove(a).insert(a, s[b]));
        vstd::seq_lib::to_multiset_remove(s, a);
        vstd::seq_lib::to_multiset_insert(s.remove(a), a, s[b]);
        let s2 = s1.update(b, s[a]);
        assert(s2 =~= s1.remove(b).insert(b, s[a]));
        vstd::seq_lib::to_multiset_remove(s1, b);
        vstd::seq_lib::to_multiset_insert(s1.remove(b), b, s[a]);
        assert(s1[b] == s[b]);
        let m = s.to_multiset();
        assert(m.count(s[a]) > 0) by {
            broadcast use vstd::seq_lib::group_to_multiset_ensures;

            assert(s.contains(s[a]));
        }
        assert(s2.to_multiset() =~= m.remove(s[a]).insert(s[b]).remove(s[b]).insert(s[a]));
        assert(s2.to_multiset() =~= s.to_multiset());
    } else {
        assert(swap(s, a, b) =~= s);
    }
}

/// Every run of the shuffle permutes the entries: it keeps the multiset of
/// entries, so it keeps which entries there are and how often each occurs.
pub proof fn lemma_shuffle_permutes<T>(s: Seq<T>, draws: Seq<usize>, i: int)
    requires
        0 <= i <= draws.len() <= s.len(),
    ensures
        shuffle_prefix(s, draws, i).to_multiset() == s.to_multiset(),
        shuffle_prefix(s, draws, i).len() == s.len(),
    decreases i,
{
    if i > 0 {
        lemma_shuffle_permutes(s, draws, i - 1);
        let t = shuffle_prefix(s, draws, i - 1);
        lemma_swap_multiset(t, i - 1, (draws[i - 1] as int) % (s.len() as int));
    }
}

/// A permutation keeps which entries there are, and keeps a sequence free
/// of repeats.
pub proof fn lemma_permutation_keeps_members<T>(s: Seq<T>, t: Seq<T>)
    requires
        t.to_multiset() == s.to_multiset(),
    ensures
        forall|x: T| s.contains(x) <==> t.contains(x),
        s.no_duplicates() ==> t.no_duplicates(),
        s.len() == t.len(),
{
    broadcast use vstd::seq_lib::group_to_multiset_ensures;

    assert forall|x: T| s.contains(x) <==> t.contains(x) by {
        vstd::seq_lib::to_multiset_contains(s, x);
        vstd::seq_lib::to_multiset_contains(t, x);
    }
    vstd::seq_lib::to_multiset_len(s);
    vstd::seq_lib::to_multiset_len(t);
    if s.no_duplicates() {
        s.lemma_multiset_has_no_duplicates();
        t.lemma_multiset_has_no_duplicates_conv();
    }
}

/// A reshuffled sequence holds the same entries, each as often.
pub proof fn lemma_reshuffled<T>(s: Seq<T>, t: Seq<T>)
    requires
        reshuffled(s, t),
    ensures
        t.to_multiset() == s.to_multiset(),
        forall|x: T| s.contains(x) <==> t.contains(x),
        s.no_duplicates() ==> t.no_duplicates(),
        s.len() == t.len(),
{
    let draws = choose|draws: Seq<usize>| draws.len() == s.len() && t == shuffle_with(s, draws);
    lemma_shuffle_permutes(s, draws, draws.len() as int);
    lemma_permutation_keeps_members(s, t);
}

/// A request for peers gets as many as asked for, or every live peer if
/// there are fewer; they are live and none comes twice.
pub proof fn lemma_live_peers(v: LivenessView, number: nat)
    requires
        v.well_formed(),
    ensures
        live_peers(v, number).len() == (if number < v.round_robin.len() {
            number
        } else {
            v.round_robin.len()
        }),
        live_peers(v, number).no_duplicates(),
        forall|i: int|
            0 <= i < live_peers(v, number).len() ==> v.live.contains(
                #[trigger] live_peers(v, number)[i],
            ),
{
    let rr = v.round_robin;
    let p = live_peers(v, number);
    let len = rr.len();
    let n = if number < len {
        number
    } else {
        len
    };
    let this_round = if (len - v.next) < n {
        (len - v.next) as nat
    } else {
        n
    };
    let next_round = (n - this_round) as nat;
    assert forall|i: int| 0 <= i < p.len() implies rr.contains(#[trigger] p[i]) && (i
        < this_round ==> p[i] == rr[v.next + i]) && (i >= this_round ==> p[i] == rr[i
        - this_round]) by {
        if i < this_round {
            assert(p[i] == rr[v.next + i]);
        } else {
            assert(p[i] == rr[i - this_round]);
        }
    }
    assert forall|i: int, j: int| 0 <= i < p.len() && 0 <= j < p.len() && i != j implies p[i]
        != p[j] by {
        let a = if i < this_round {
            v.next + i
        } else {
            i - this_round
        };
        let b = if j < this_round {
            v.next + j
        } else {
            j - this_round
        };
        assert(a != b);
    }
}

/// Adds `thing` at the end of `destination` unless it is there already;
/// returns whether it added it.
pub fn add_to_vec(thing: NodeId, destination: &mut Vec<NodeId>) -> (r: bool)
    ensures
        r == !old(destination)@.contains(thing),
        final(destination)@ == add_member(old(destination)@, thing),
{
    let mut i: usize = 0;
    while i < destination.len()
        invariant
            i <= destination@.len(),
            destination@ == old(destination)@,
            forall|j: int| 0 <= j < i ==> destination@[j] != thing,
        decreases destination@.len() - i,
    {
        if destination[i] == thing {
            assert(destination@[i as int] == thing);
            return false;
        }
        i = i + 1;
    }
    destination.push(thing);
    true
}

/// A copy of the members of `s`.
pub fn to_vec(s: &Vec<NodeId>) -> (r: Vec<NodeId>)
    ensures
        r@ == s@,
{
    let mut out: Vec<NodeId> = Vec::with_capacity(s.len());
    let mut i: usize = 0;
    while i < s.len()
        invariant
            i <= s@.len(),
            out@ == s@.take(i as int),
        decreases s@.len() - i,
    {
        out.push(s[i]);
        assert(out@ =~= s@.take(i + 1));
        i = i + 1;
    }
    assert(s@.take(i as int) =~= s@);
    out
}

/// Draws a `usize` from the thread-local generator of the `rand` crate
/// (`rand::random`). Nothing is claimed of the value: any `usize` may come
/// back. `rand` panics if the thread-local generator cannot be seeded by
/// the operating system; no argument can rule that out, so it is left
/// unstated.
#[verifier::external_body]
fn random_usize() -> usize {
    rand::random::<usize>()
}

/// The index of `x` in `s`, if `s` holds it.
fn position_of(s: &Vec<NodeId>, x: NodeId) -> (r: Option<usize>)
    ensures
        r is None <==> !s@.contains(x),
        r matches Some(i) ==> i < s@.len() && s@[i as int] == x,
        r matches Some(i) ==> forall|j: int| 0 <= j < i ==> s@[j] != x,
{
    let mut i: usize = 0;
    while i < s.len()
        invariant
            i <= s@.len(),
            forall|j: int| 0 <= j < i ==> s@[j] != x,
        decreases s@.len() - i,
    {
        if s[i] == x {
            return Some(i);
        }
        i = i + 1;
    }
    None
}

proof fn lemma_index_of_unique<T>(s: Seq<T>, x: T, i: int)
    requires
        s.no_duplicates(),
        0 <= i < s.len(),
        s[i] == x,
    ensures
        s.contains(x),
        s.index_of(x) == i,
{
    assert(s.contains(x));
    let j = s.index_of(x);
    assert(s[j] == x);
}

/// Adding a member to a sequence without repeats keeps it without repeats.
pub proof fn lemma_add_member(s: Seq<NodeId>, x: NodeId)
    requires
        s.no_duplicates(),
    ensures
        add_member(s, x).no_duplicates(),
        forall|y: NodeId| add_member(s, x).contains(y) <==> (s.contains(y) || y == x),
{
    if !s.contains(x) {
        let t = s.push(x);
        assert forall|i: int, j: int| 0 <= i < t.len() && 0 <= j < t.len() && i != j implies t[i]
            != t[j] by {
            if i == s.len() {
                assert(s[j] == t[j]);
            } else if j == s.len() {
                assert(s[i] == t[i]);
            }
        }
        assert forall|y: NodeId| t.contains(y) <==> (s.contains(y) || y == x) by {
            if t.contains(y) && y != x {
                let k = choose|k: int| 0 <= k < t.len() && t[k] == y;
                assert(s[k] == y);
            }
            if s.contains(y) {
                let k = choose|k: int| 0 <= k < s.len() && s[k] == y;
                assert(t[k] == y);
            }
            if y == x {
                assert(t[s.len() as int] == y);
            }
        }
    }
}

/// Taking a member out of a sequence without repeats keeps it without
/// repeats and removes exactly that member.
pub proof fn lemma_swap_remove_member<T>(s: Seq<T>, x: T)
    requires
        s.no_duplicates(),
    ensures
        swap_remove_member(s, x).no_duplicates(),
        forall|y: T| swap_remove_member(s, x).contains(y) <==> (s.contains(y) && y != x),
        remove_member(s, x).no_duplicates(),
        forall|y: T| remove_member(s, x).contains(y) <==> (s.contains(y) && y != x),
{
    if s.contains(x) {
        let j = s.index_of(x);
        let t = s.update(j, s.last()).drop_last();
        assert forall|y: T| t.contains(y) <==> (s.contains(y) && y != x) by {
            if t.contains(y) {
                let k = choose|k: int| 0 <= k < t.len() && t[k] == y;
                if k == j {
                    assert(y == s[s.len() - 1]);
                } else {
                    assert(y == s[k]);
                }
            }
            if s.contains(y) && y != x {
                let k = choose|k: int| 0 <= k < s.len() && s[k] == y;
                if k == s.len() - 1 {
                    assert(t[j] == y);
                } else {
                    assert(t[k] == y);
                }
            }
        }
        let u = s.remove(j);
        assert forall|y: T| u.contains(y) <==> (s.contains(y) && y != x) by {
            if u.contains(y) {
                let k = choose|k: int| 0 <= k < u.len() && u[k] == y;
                if k < j {
                    assert(y == s[k]);
                } else {
                    assert(y == s[k + 1]);
                }
            }
            if s.contains(y) && y != x {
                let k = choose|k: int| 0 <= k < s.len() && s[k] == y;
                if k < j {
                    assert(u[k] == y);
                } else {
                    assert(u[k - 1] == y);
                }
            }
        }
    }
}

impl NodeLivenessState {
    /// The live peers.
    pub fn get_live_nodes(&self) -> (r: Vec<NodeId>)
        ensures
            r@ == self@.live,
    {
        to_vec(&self.live_nodes)
    }

    /// The suspected peers.
    pub fn get_suspect_nodes(&self) -> (r: Vec<NodeId>)
        ensures
            r@ == self@.suspects,
    {
        to_vec(&self.suspect_nodes)
    }

    /// Records that `pinged_node` was sent a ping not yet answered.
    pub fn add_pending_ping(&mut self, pinged_node: NodeId)
        ensures
            final(self)@ == (LivenessView {
                pending_pings: add_member(old(self)@.pending_pings, pinged_node),
                ..old(self)@
            }),
    {
        add_to_vec(pinged_node, &mut self.pending_pings);
    }

    /// Records that `acker` answered its ping.
    pub fn remove_pending_ping(&mut self, acker: NodeId)
        requires
            old(self)@.pending_pings.no_duplicates(),
        ensures
            final(self)@ == (LivenessView {
                pending_pings: swap_remove_member(old(self)@.pending_pings, acker),
                ..old(self)@
            }),
    {
        let ghost s0 = self.pending_pings@;
        let mut got_to: usize = 0;
        while got_to < self.pending_pings.len()
            invariant
                s0.no_duplicates(),
                got_to <= self.pending_pings@.len(),
                self@ == (LivenessView { pending_pings: self.pending_pings@, ..old(self)@ }),
                forall|j: int| 0 <= j < got_to ==> self.pending_pings@[j] != acker,
                self.pending_pings@ == s0 || (s0.contains(acker) && self.pending_pings@
                    == swap_remove_member(s0, acker)),
                self.pending_pings@ == s0 ==> forall|j: int|
                    0 <= j < got_to ==> s0[j] != acker,
                self.pending_pings@ != s0 ==> !self.pending_pings@.contains(acker),
            decreases self.pending_pings@.len() - got_to,
        {
            if self.pending_pings[got_to] == acker {
                proof {
                    lemma_index_of_unique(s0, acker, got_to as int);
                    lemma_swap_remove_member(s0, acker);
                }
                self.pending_pings.swap_remove(got_to);
            } else {
                got_to = got_to + 1;
            }
        }
        proof {
            if self.pending_pings@ == s0 {
                assert(!s0.contains(acker));
            }
        }
    }

    /// The live peers.
    pub fn live_nodes(&self) -> (r: Vec<NodeId>)
        ensures
            r@ == self@.live,
    {
        to_vec(&self.live_nodes)
    }

    /// The next peer to probe in round-robin order; a round that has run
    /// out is shuffled afresh first.
    pub fn next_live_peer_for_message(&mut self) -> (r: Option<NodeId>)
        requires
            old(self)@.well_formed(),
        ensures
            final(self)@.well_formed(),
            old(self)@.round_robin.len() == 0 ==> r is None && final(self)@ == old(self)@,
            old(self)@.round_robin.len() > 0 && old(self)@.next < old(self)@.round_robin.len()
                ==> r == Some(old(self)@.round_robin[old(self)@.next as int]) && final(self)@ == (
            LivenessView { next: old(self)@.next + 1, ..old(self)@ }),
            old(self)@.round_robin.len() > 0 && old(self)@.next >= old(self)@.round_robin.len()
                ==> {
                &&& reshuffled(old(self)@.round_robin, final(self)@.round_robin)
                &&& r == Some(final(self)@.round_robin[0])
                &&& final(self)@ == (LivenessView {
                    round_robin: final(self)@.round_robin,
                    next: 1,
                    ..old(self)@
                })
            },
            old(self)@.round_robin.len() > 0 ==> r is Some && probe_step(
                old(self)@,
                final(self)@,
                r->0,
            ),
    {
        if self.live_node_round_robin.len() == 0 {
            return None;
        }
        if self.live_node_round_robin_idx >= self.live_node_round_robin.len() {
            self.re_index_round_robin_list();
            proof {
                lemma_reshuffled(old(self)@.round_robin, self@.round_robin);
            }
        }
        let idx_to_pick = self.live_node_round_robin_idx;
        self.live_node_round_robin_idx = self.live_node_round_robin_idx + 1;
        Some(self.live_node_round_robin[idx_to_pick])
    }

    /// Shuffles the round-robin order afresh, with random draws, and
    /// restarts the round.
    pub fn re_index_round_robin_list(&mut self)
        requires
            old(self)@.well_formed(),
        ensures
            final(self)@.well_formed(),
            reshuffled(old(self)@.round_robin, final(self)@.round_robin),
            final(self)@ == (LivenessView {
                round_robin: final(self)@.round_robin,
                next: 0,
                ..old(self)@
            }),
    {
        let node_count = self.live_node_round_robin.len();
        let mut draws: Vec<usize> = Vec::with_capacity(node_count);
        let mut i: usize = 0;
        while i < node_count
            invariant
                i <= node_count,
                draws@.len() == i,
            decreases node_count - i,
        {
            draws.push(random_usize());
            i = i + 1;
        }
        self.shuffle_round_robin(&draws);
    }

    /// Shuffles the round-robin order with the given draws: step `i`
    /// exchanges entry `i` with entry `draws[i]` modulo the number of live
    /// peers; the round restarts.
    pub fn shuffle_round_robin(&mut self, draws: &Vec<usize>)
        requires
            old(self)@.well_formed(),
            draws@.len() == old(self)@.round_robin.len(),
        ensures
            final(self)@.well_formed(),
            reshuffled(old(self)@.round_robin, final(self)@.round_robin),
            final(self)@ == (LivenessView {
                round_robin: shuffle_with(old(self)@.round_robin, draws@),
                next: 0,
                ..old(self)@
            }),
    {
        let ghost s0 = self.live_node_round_robin@;
        self.live_node_round_robin_idx = 0;
        let node_count = self.live_node_round_robin.len();
        let mut i: usize = 0;
        while i < node_count
            invariant
                i <= node_count,
                node_count == s0.len(),
                draws@.len() == node_count,
                self.live_node_round_robin@ == shuffle_prefix(s0, draws@, i as int),
                self@ == (LivenessView {
                    round_robin: self.live_node_round_robin@,
                    next: 0,
                    ..old(self)@
                }),
            decreases node_count - i,
        {
            proof {
                lemma_shuffle_permutes(s0, draws@, i as int);
            }
            let j = draws[i] % node_count;
            let a = self.live_node_round_robin[i];
            let b = self.live_node_round_robin[j];
            self.live_node_round_robin.set(i, b);
            self.live_node_round_robin.set(j, a);
            assert(self.live_node_round_robin@ =~= shuffle_prefix(s0, draws@, i + 1));
            i = i + 1;
        }
        proof {
            assert(reshuffled(s0, self.live_node_round_robin@));
            lemma_reshuffled(s0, self.live_node_round_robin@);
        }
    }

    /// Up to `number` live peers, taken onward from the next one in
    /// round-robin order and wrapping round to the start.
    pub fn get_live_peers(&mut self, number: usize) -> (r: Vec<NodeId>)
        requires
            old(self)@.well_formed(),
        ensures
            final(self)@ == old(self)@,
            r@ == live_peers(old(self)@, number as nat),
    {
        let live_peer_count = self.live_node_round_robin.len();
        let n = if number < live_peer_count {
            number
        } else {
            live_peer_count
        };
        let mut out: Vec<NodeId> = Vec::with_capacity(n);
        let from_this_round = if live_peer_count - self.live_node_round_robin_idx < n {
            live_peer_count - self.live_node_round_robin_idx
        } else {
            n
        };
        let from_next_round = n - from_this_round;
        let start = self.live_node_round_robin_idx;
        let ghost rr = self.live_node_round_robin@;
        let end = start + from_this_round;
        let mut i: usize = start;
        while i < end
            invariant
                end == start + from_this_round,
                start <= i <= start + from_this_round <= rr.len(),
                rr == self.live_node_round_robin@,
                out@ == rr.subrange(start as int, i as int),
            decreases end - i,
        {
            out.push(self.live_node_round_robin[i]);
            assert(out@ =~= rr.subrange(start as int, i + 1));
            i = i + 1;
        }
        let mut k: usize = 0;
        while k < from_next_round
            invariant
                k <= from_next_round <= rr.len(),
                rr == self.live_node_round_robin@,
                out@ == rr.subrange(start as int, start + from_this_round) + rr.subrange(
                    0,
                    k as int,
                ),
            decreases from_next_round - k,
        {
            out.push(self.live_node_round_robin[k]);
            assert(out@ =~= rr.subrange(start as int, start + from_this_round) + rr.subrange(
                0,
                k + 1,
            ));
            k = k + 1;
        }
        out
    }

    /// Marks `id` live; returns whether it was not live before.
    pub fn add_live_node(&mut self, id: NodeId) -> (r: bool)
        requires
            old(self)@.well_formed(),
        ensures
            final(self)@.well_formed(),
            r == !old(self)@.live.contains(id),
            final(self)@ == (if r {
                LivenessView {
                    live: old(self)@.live.push(id),
                    round_robin: old(self)@.round_robin.push(id),
                    ..old(self)@
                }
            } else {
                old(self)@
            }),
    {
        if add_to_vec(id, &mut self.live_nodes) {
            self.live_node_round_robin.push(id);
            proof {
                assert(!old(self)@.round_robin.contains(id));
                assert forall|n: NodeId| self@.live.contains(n) <==> self@.round_robin.contains(
                    n,
                ) by {
                    if n != id {
                        if self@.live.contains(n) {
                            let k = choose|k: int| 0 <= k < self@.live.len() && self@.live[k] == n;
                            assert(old(self)@.live[k] == n);
                            assert(old(self)@.round_robin.contains(n));
                            let m = choose|m: int|
                                0 <= m < old(self)@.round_robin.len() && old(self)@.round_robin[m]
                                    == n;
                            assert(self@.round_robin[m] == n);
                        }
                        if self@.round_robin.contains(n) {
                            let k = choose|k: int|
                                0 <= k < self@.round_robin.len() && self@.round_robin[k] == n;
                            assert(old(self)@.round_robin[k] == n);
                            assert(old(self)@.live.contains(n));
                            let m = choose|m: int|
                                0 <= m < old(self)@.live.len() && old(self)@.live[m] == n;
                            assert(self@.live[m] == n);
                        }
                    } else {
                        assert(self@.live[self@.live.len() - 1] == id);
                        assert(self@.round_robin[self@.round_robin.len() - 1] == id);
                    }
                }
            }
            true
        } else {
            false
        }
    }

    /// Takes `node_to_remove` out of the live set; the round-robin order,
    /// if it held the node, is shuffled afresh and restarted.
    pub fn remove_live_node(&mut self, node_to_remove: NodeId)
        requires
            old(self)@.well_formed(),
        ensures
            final(self)@.well_formed(),
            removed_live(old(self)@, node_to_remove, final(self)@),
            final(self)@.pending_pings == old(self)@.pending_pings,
            final(self)@.pending_ping_reqs == old(self)@.pending_ping_reqs,
            final(self)@.suspects == old(self)@.suspects,
    {
        let ghost pre = self@;
        proof {
            lemma_swap_remove_member(pre.round_robin, node_to_remove);
            lemma_swap_remove_member(pre.live, node_to_remove);
        }
        match position_of(&self.live_node_round_robin, node_to_remove) {
            Some(i) => {
                proof {
                    lemma_index_of_unique(pre.round_robin, node_to_remove, i as int);
                }
                self.live_node_round_robin.swap_remove(i);
                self.live_node_round_robin_idx = 0;
                assert(self@.round_robin == swap_remove_member(pre.round_robin, node_to_remove));
                // the live set is updated before the reshuffle, so that the
                // state stays well formed across it
                match position_of(&self.live_nodes, node_to_remove) {
                    Some(k) => {
                        proof {
                            lemma_index_of_unique(pre.live, node_to_remove, k as int);
                        }
                        self.live_nodes.remove(k);
                        assert(self@.live == remove_member(pre.live, node_to_remove));
                    },
                    None => {
                        assert(self@.live == remove_member(pre.live, node_to_remove));
                    },
                }
                assert forall|n: NodeId| self@.live.contains(n) <==> self@.round_robin.contains(
                    n,
                ) by {
                    assert(pre.live.contains(n) <==> pre.round_robin.contains(n));
                }
                assert(self@.well_formed());
                self.re_index_round_robin_list();
            },
            None => {
                match position_of(&self.live_nodes, node_to_remove) {
                    Some(k) => {
                        proof {
                            lemma_index_of_unique(pre.live, node_to_remove, k as int);
                        }
                        self.live_nodes.remove(k);
                    },
                    None => {},
                }
            },
        }
    }

    /// Records that peers were asked to ping `node_being_pinged` on our
    /// behalf.
    pub fn add_pending_indirect_ping(&mut self, node_being_pinged: NodeId)
        ensures
            final(self)@ == (LivenessView {
                pending_ping_reqs: add_member(old(self)@.pending_ping_reqs, node_being_pinged),
                ..old(self)@
            }),
    {
        add_to_vec(node_being_pinged, &mut self.pending_ping_reqs);
    }

    /// Hands out, and forgets, the peers with a ping outstanding.
    pub fn drain_pending_pings(&mut self) -> (r: Vec<NodeId>)
        ensures
            r@ == old(self)@.pending_pings,
            final(self)@ == (LivenessView {
                pending_pings: Seq::<NodeId>::empty(),
                ..old(self)@
            }),
    {
        let mut out: Vec<NodeId> = Vec::new();
        std::mem::swap(&mut out, &mut self.pending_pings);
        out
    }

    /// Hands out, and forgets, the peers with an indirect ping outstanding.
    pub fn drain_pending_indirect_pings(&mut self) -> (r: Vec<NodeId>)
        ensures
            r@ == old(self)@.pending_ping_reqs,
            final(self)@ == (LivenessView {
                pending_ping_reqs: Seq::<NodeId>::empty(),
                ..old(self)@
            }),
    {
        let mut out: Vec<NodeId> = Vec::new();
        std::mem::swap(&mut out, &mut self.pending_ping_reqs);
        out
    }

    /// Marks `suspected_node` as suspect; returns whether it was not
    /// suspect before.
    pub fn add_suspect(&mut self, suspected_node: NodeId) -> (r: bool)
        ensures
            r == !old(self)@.suspects.contains(suspected_node),
            final(self)@ == (LivenessView {
                suspects: add_member(old(self)@.suspects, suspected_node),
                ..old(self)@
            }),
    {
        add_to_vec(suspected_node, &mut self.suspect_nodes)
    }

    /// Declares a suspect dead: it stops being suspect and leaves the live
    /// set. Returns whether it was suspect; if not, nothing changes.
    pub fn accuse_suspect(&mut self, suspected_node: NodeId) -> (r: bool)
        requires
            old(self)@.well_formed(),
        ensures
            final(self)@.well_formed(),
            r == old(self)@.suspects.contains(suspected_node),
            r ==> {
                &&& final(self)@.suspects == swap_remove_member(
                    old(self)@.suspects,
                    suspected_node,
                )
                &&& removed_live(old(self)@, suspected_node, final(self)@)
                &&& final(self)@.pending_pings == old(self)@.pending_pings
                &&& final(self)@.pending_ping_reqs == old(self)@.pending_ping_reqs
            },
            !r ==> final(self)@ == old(self)@,
    {
        let ghost pre = self@;
        match position_of(&self.suspect_nodes, suspected_node) {
            Some(i) => {
                proof {
                    lemma_index_of_unique(pre.suspects, suspected_node, i as int);
                    lemma_swap_remove_member(pre.suspects, suspected_node);
                }
                self.suspect_nodes.swap_remove(i);
                self.remove_live_node(suspected_node);
                true
            },
            None => false,
        }
    }
}

/// A liveness state that knows of no peers.
pub fn new() -> (r: NodeLivenessState)
    ensures
        r@ == (LivenessView {
            live: Seq::empty(),
            round_robin: Seq::empty(),
            next: 0,
            pending_pings: Seq::empty(),
            pending_ping_reqs: Seq::empty(),
            suspects: Seq::empty(),
        }),
        r@.well_formed(),
{
    NodeLivenessState {
        live_nodes: Vec::new(),
        live_node_round_robin: Vec::new(),
        live_node_round_robin_idx: 0,
        pending_pings: Vec::new(),
        pending_ping_reqs: Vec::new(),
        suspect_nodes: Vec::new(),
    }
}

} // verus!

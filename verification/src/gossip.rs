use vstd::prelude::*;

use crate::codec::{rumour_subject, NodeId, Rumour};
use vstd::multiset::Multiset;
use vstd::std_specs::cmp::{PartialEqSpecImpl, PartialOrdSpecImpl};
use core::cmp::Ordering;

verus! {

/// How many times a newly heard rumour is passed on.
pub const INITIAL_SPREAD: u16 = 10;

/// A rumour and how many more times it is to be passed on.
#[derive(Clone, Copy, Debug, Eq)]
pub struct GossipState {
    pub number_of_times_to_spread: u16,
    pub rumour: Rumour,
}

impl PartialEq for GossipState {
    fn eq(&self, other: &Self) -> (r: bool) {
        self.number_of_times_to_spread == other.number_of_times_to_spread && self.rumour
            == other.rumour
    }
}

impl PartialEqSpecImpl for GossipState {
    open spec fn obeys_eq_spec() -> bool {
        true
    }

    open spec fn eq_spec(&self, other: &GossipState) -> bool {
        self.number_of_times_to_spread == other.number_of_times_to_spread && self.rumour
            == other.rumour
    }
}

impl PartialOrd for GossipState {
    /// Entries are ordered by the number of sends left alone.
    fn partial_cmp(&self, other: &Self) -> (r: Option<Ordering>) {
        if self.number_of_times_to_spread < other.number_of_times_to_spread {
            Some(Ordering::Less)
        } else if self.number_of_times_to_spread == other.number_of_times_to_spread {
            Some(Ordering::Equal)
        } else {
            Some(Ordering::Greater)
        }
    }
}

impl PartialOrdSpecImpl for GossipState {
    open spec fn obeys_partial_cmp_spec() -> bool {
        true
    }

    open spec fn partial_cmp_spec(&self, other: &GossipState) -> Option<Ordering> {
        if self.number_of_times_to_spread < other.number_of_times_to_spread {
            Some(Ordering::Less)
        } else if self.number_of_times_to_spread == other.number_of_times_to_spread {
            Some(Ordering::Equal)
        } else {
            Some(Ordering::Greater)
        }
    }
}

/// The rumours a member is spreading, those with the fewest sends left
/// first.
#[derive(Debug)]
pub struct Gossip {
    pub(crate) gossip: Vec<GossipState>,
}

impl View for Gossip {
    type V = Seq<GossipState>;

    closed spec fn view(&self) -> Seq<GossipState> {
        self.gossip@
    }
}

/// The entries are ordered by the number of sends left, fewest first.
pub open spec fn sorted_by_spread(s: Seq<GossipState>) -> bool {
    forall|i: int, j: int|
        0 <= i <= j < s.len() ==> s[i].number_of_times_to_spread
            <= s[j].number_of_times_to_spread
}

/// Every entry has between one and the initial number of sends left.
pub open spec fn spreads_in_range(s: Seq<GossipState>) -> bool {
    forall|i: int|
        0 <= i < s.len() ==> 1 <= (#[trigger] s[i]).number_of_times_to_spread <= INITIAL_SPREAD
}

/// No rumour is held by two entries.
pub open spec fn rumours_distinct(s: Seq<GossipState>) -> bool {
    forall|i: int, j: int| 0 <= i < j < s.len() ==> s[i].rumour != s[j].rumour
}

/// The invariant of the gossip store: ordered, in range, and no rumour
/// held twice.
pub open spec fn gossip_well_formed(s: Seq<GossipState>) -> bool {
    sorted_by_spread(s) && spreads_in_range(s) && rumours_distinct(s)
}

/// The length of the leading run of entries with fewer than `n` sends left;
/// in an ordered store, where an entry with `n` sends left goes.
pub open spec fn lower_bound(s: Seq<GossipState>, n: u16) -> nat
    decreases s.len(),
{
    if s.len() == 0 {
        0
    } else if s[0].number_of_times_to_spread < n {
        1 + lower_bound(s.drop_first(), n)
    } else {
        0
    }
}

/// `s` with `g` placed before the first entry with at least as many sends
/// left.
pub open spec fn insert_sorted(s: Seq<GossipState>, g: GossipState) -> Seq<GossipState> {
    s.insert(lower_bound(s, g.number_of_times_to_spread) as int, g)
}

/// `base` with each of `items` placed in order, one after the other.
pub open spec fn insert_all(base: Seq<GossipState>, items: Seq<GossipState>) -> Seq<GossipState>
    decreases items.len(),
{
    if items.len() == 0 {
        base
    } else {
        insert_sorted(insert_all(base, items.drop_last()), items.last())
    }
}

/// An entry after one more send.
pub open spec fn spread_once(g: GossipState) -> GossipState {
    GossipState {
        number_of_times_to_spread: (g.number_of_times_to_spread - 1) as u16,
        rumour: g.rumour,
    }
}

/// The entries of `t` that still have sends left after one more, each after
/// that send, in order.
pub open spec fn survivors(t: Seq<GossipState>) -> Seq<GossipState>
    decreases t.len(),
{
    if t.len() == 0 {
        Seq::empty()
    } else if t.last().number_of_times_to_spread > 1 {
        survivors(t.drop_last()).push(spread_once(t.last()))
    } else {
        survivors(t.drop_last())
    }
}

/// How many entries a pull of `how_many` takes.
pub open spec fn pull_count(s: Seq<GossipState>, how_many: nat) -> nat {
    if s.len() < how_many {
        s.len()
    } else {
        how_many
    }
}

/// The rumours that a pull of `how_many` hands out.
pub open spec fn pulled_rumours(s: Seq<GossipState>, how_many: nat) -> Seq<Rumour> {
    s.take(pull_count(s, how_many) as int).map_values(|g: GossipState| g.rumour)
}

/// The store after a pull of `how_many`: the entries handed out go back in
/// with one send fewer, unless that was their last.
pub open spec fn after_pull(s: Seq<GossipState>, how_many: nat) -> Seq<GossipState> {
    insert_all(
        s.skip(pull_count(s, how_many) as int),
        survivors(s.take(pull_count(s, how_many) as int)),
    )
}

/// Whether some entry carries `r`.
pub open spec fn knows_rumour(s: Seq<GossipState>, r: Rumour) -> bool {
    exists|i: int| 0 <= i < s.len() && (#[trigger] s[i]).rumour == r
}

/// The store after hearing `r`: unchanged if `r` is known, else `r` goes in
/// with the initial number of sends.
pub open spec fn after_remember(s: Seq<GossipState>, r: Rumour) -> Seq<GossipState> {
    if knows_rumour(s, r) {
        s
    } else {
        insert_sorted(s, GossipState { number_of_times_to_spread: INITIAL_SPREAD, rumour: r })
    }
}

/// Whether an entry is about some member other than `node`.
pub open spec fn not_about(node: NodeId) -> spec_fn(GossipState) -> bool {
    |g: GossipState| rumour_subject(g.rumour) != node
}

/// The store after forgetting `node`: every rumour about it is dropped.
pub open spec fn after_forget(s: Seq<GossipState>, node: NodeId) -> Seq<GossipState> {
    s.filter(not_about(node))
}

/// The total number of sends left over all entries.
pub open spec fn spread_budget(s: Seq<GossipState>) -> int
    decreases s.len(),
{
    if s.len() == 0 {
        0
    } else {
        s[0].number_of_times_to_spread + spread_budget(s.drop_first())
    }
}

proof fn lemma_lower_bound(s: Seq<GossipState>, n: u16)
    requires
        sorted_by_spread(s),
    ensures
        lower_bound(s, n) <= s.len(),
        forall|i: int| 0 <= i < lower_bound(s, n) ==> s[i].number_of_times_to_spread < n,
        forall|i: int|
            lower_bound(s, n) <= i < s.len() ==> s[i].number_of_times_to_spread >= n,
    decreases s.len(),
{
    if s.len() > 0 {
        lemma_lower_bound(s.drop_first(), n);
        if s[0].number_of_times_to_spread < n {
            assert forall|i: int| 0 <= i < lower_bound(s, n) implies s[i].number_of_times_to_spread
                < n by {
                if i > 0 {
                    assert(s[i] == s.drop_first()[i - 1]);
                }
            }
            assert forall|i: int| lower_bound(s, n) <= i < s.len() implies s[i].number_of_times_to_spread
                >= n by {
                assert(s[i] == s.drop_first()[i - 1]);
            }
        }
    }
}

proof fn lemma_lower_bound_le(s: Seq<GossipState>, n: u16)
    ensures
        lower_bound(s, n) <= s.len(),
    decreases s.len(),
{
    if s.len() > 0 {
        lemma_lower_bound_le(s.drop_first(), n);
    }
}

proof fn lemma_lower_bound_at(s: Seq<GossipState>, n: u16, p: int)
    requires
        0 <= p <= s.len(),
        forall|i: int| 0 <= i < p ==> s[i].number_of_times_to_spread < n,
        p < s.len() ==> s[p].number_of_times_to_spread >= n,
    ensures
        lower_bound(s, n) == p,
    decreases s.len(),
{
    if s.len() > 0 && p > 0 {
        assert forall|i: int| 0 <= i < p - 1 implies s.drop_first()[i].number_of_times_to_spread
            < n by {
            assert(s.drop_first()[i] == s[i + 1]);
        }
        lemma_lower_bound_at(s.drop_first(), n, p - 1);
    }
}

/// Placing an entry keeps the store ordered and in range.
pub proof fn lemma_insert_sorted(s: Seq<GossipState>, g: GossipState)
    requires
        sorted_by_spread(s),
    ensures
        sorted_by_spread(insert_sorted(s, g)),
        insert_sorted(s, g).len() == s.len() + 1,
        spreads_in_range(s) && 1 <= g.number_of_times_to_spread <= INITIAL_SPREAD
            ==> spreads_in_range(insert_sorted(s, g)),
        insert_sorted(s, g).to_multiset() == s.to_multiset().insert(g),
{
    let p = lower_bound(s, g.number_of_times_to_spread) as int;
    lemma_lower_bound(s, g.number_of_times_to_spread);
    let t = insert_sorted(s, g);
    assert forall|i: int, j: int| 0 <= i <= j < t.len() implies t[i].number_of_times_to_spread
        <= t[j].number_of_times_to_spread by {
        if i < p && j < p {
        } else if i < p && j == p {
        } else if i < p && j > p {
            assert(t[j] == s[j - 1]);
        } else if i == p && j == p {
        } else if i == p {
            assert(t[j] == s[j - 1]);
        } else {
            assert(t[i] == s[i - 1]);
            assert(t[j] == s[j - 1]);
        }
    }
    assert(spreads_in_range(s) && 1 <= g.number_of_times_to_spread <= INITIAL_SPREAD
        ==> spreads_in_range(t)) by {
        if spreads_in_range(s) && 1 <= g.number_of_times_to_spread <= INITIAL_SPREAD {
            assert forall|i: int| 0 <= i < t.len() implies 1 <= (#[trigger] t[i]).number_of_times_to_spread
                <= INITIAL_SPREAD by {
                if i > p {
                    assert(t[i] == s[i - 1]);
                }
            }
        }
    }
    vstd::seq_lib::to_multiset_insert(s, p, g);
}

/// Placing a run of entries keeps the store ordered and in range, and adds
/// exactly those entries.
pub proof fn lemma_insert_all(base: Seq<GossipState>, items: Seq<GossipState>)
    requires
        sorted_by_spread(base),
    ensures
        sorted_by_spread(insert_all(base, items)),
        insert_all(base, items).len() == base.len() + items.len(),
        spreads_in_range(base) && spreads_in_range(items) ==> spreads_in_range(
            insert_all(base, items),
        ),
        insert_all(base, items).to_multiset() == base.to_multiset().add(items.to_multiset()),
    decreases items.len(),
{
    broadcast use vstd::multiset::group_multiset_axioms;

    if items.len() == 0 {
        assert(items.to_multiset() =~= Multiset::empty()) by {
            broadcast use vstd::seq_lib::group_to_multiset_ensures;

        }
        assert(base.to_multiset().add(items.to_multiset()) =~= base.to_multiset());
    } else {
        lemma_insert_all(base, items.drop_last());
        let mid = insert_all(base, items.drop_last());
        lemma_insert_sorted(mid, items.last());
        assert(spreads_in_range(items) ==> spreads_in_range(items.drop_last()));
        assert(spreads_in_range(items) ==> 1 <= items[items.len() - 1].number_of_times_to_spread);
        assert(items.drop_last().push(items.last()) =~= items);
        vstd::seq_lib::to_multiset_build(items.drop_last(), items.last());
        assert(insert_all(base, items).to_multiset() =~= base.to_multiset().add(
            items.to_multiset(),
        ));
    }
}

/// Placing a run of entries whose rumours are new and distinct keeps the
/// rumours of the store distinct, and adds nothing but those entries.
proof fn lemma_insert_all_distinct(base: Seq<GossipState>, items: Seq<GossipState>)
    requires
        rumours_distinct(base + items),
    ensures
        rumours_distinct(insert_all(base, items)),
        forall|x: GossipState|
            #[trigger] insert_all(base, items).contains(x) ==> base.contains(x) || items.contains(
                x,
            ),
    decreases items.len(),
{
    if items.len() > 0 {
        let dl = items.drop_last();
        let last = items.last();
        assert(base + dl =~= (base + items).drop_last());
        assert(rumours_distinct(base + dl)) by {
            assert forall|i: int, j: int| 0 <= i < j < (base + dl).len() implies (base + dl)[i].rumour
                != (base + dl)[j].rumour by {
                assert((base + dl)[i] == (base + items)[i]);
                assert((base + dl)[j] == (base + items)[j]);
            }
        }
        lemma_insert_all_distinct(base, dl);
        let t = insert_all(base, dl);
        lemma_lower_bound_le(t, last.number_of_times_to_spread);
        let p = lower_bound(t, last.number_of_times_to_spread) as int;
        let u = t.insert(p, last);
        assert forall|x: GossipState| #[trigger] t.contains(x) implies x.rumour != last.rumour by {
            let k = choose|k: int| 0 <= k < t.len() && t[k] == x;
            assert(t.contains(t[k]));
            let n = (base + items).len() - 1;
            assert((base + items)[n] == last);
            if base.contains(x) {
                let m = choose|m: int| 0 <= m < base.len() && base[m] == x;
                assert((base + items)[m] == x);
            } else {
                assert(dl.contains(x));
                let m = choose|m: int| 0 <= m < dl.len() && dl[m] == x;
                assert((base + items)[base.len() + m] == x);
            }
        }
        assert forall|i: int, j: int| 0 <= i < j < u.len() implies u[i].rumour != u[j].rumour by {
            if i < p && j < p {
            } else if i < p && j == p {
                assert(t.contains(t[i]));
            } else if i < p {
                assert(u[j] == t[j - 1]);
            } else if i == p {
                assert(u[j] == t[j - 1]);
                assert(t.contains(t[j - 1]));
            } else {
                assert(u[i] == t[i - 1]);
                assert(u[j] == t[j - 1]);
            }
        }
        assert forall|x: GossipState| #[trigger] u.contains(x) implies base.contains(x)
            || items.contains(x) by {
            let k = choose|k: int| 0 <= k < u.len() && u[k] == x;
            if k == p {
                assert(items[items.len() - 1] == x);
            } else {
                let kk = if k < p {
                    k
                } else {
                    k - 1
                };
                assert(t[kk] == x);
                assert(t.contains(x));
                if dl.contains(x) {
                    let m = choose|m: int| 0 <= m < dl.len() && dl[m] == x;
                    assert(items[m] == x);
                }
            }
        }
    }
}

/// The entries left by a pull: each survivor carries the rumour of an
/// entry of the run, so distinct rumours stay distinct.
proof fn lemma_survivors_rumours(t: Seq<GossipState>)
    ensures
        forall|j: int|
            0 <= j < survivors(t).len() ==> exists|i: int|
                0 <= i < t.len() && (#[trigger] survivors(t)[j]).rumour == t[i].rumour,
        rumours_distinct(t) ==> rumours_distinct(survivors(t)),
    decreases t.len(),
{
    if t.len() > 0 {
        let dl = t.drop_last();
        lemma_survivors_rumours(dl);
        let sd = survivors(dl);
        assert forall|j: int| 0 <= j < survivors(t).len() implies exists|i: int|
            0 <= i < t.len() && (#[trigger] survivors(t)[j]).rumour == t[i].rumour by {
            if j < sd.len() {
                assert(survivors(t)[j] == sd[j]);
                let i = choose|i: int| 0 <= i < dl.len() && sd[j].rumour == dl[i].rumour;
                assert(t[i] == dl[i]);
            } else {
                assert(survivors(t)[j].rumour == t[t.len() - 1].rumour);
            }
        }
        if rumours_distinct(t) {
            assert(rumours_distinct(dl)) by {
                assert forall|i: int, j: int| 0 <= i < j < dl.len() implies dl[i].rumour
                    != dl[j].rumour by {
                    assert(dl[i] == t[i]);
                    assert(dl[j] == t[j]);
                }
            }
            assert forall|i: int, j: int| 0 <= i < j < survivors(t).len() implies survivors(
                t,
            )[i].rumour != survivors(t)[j].rumour by {
                assert(survivors(t)[i] == sd[i]);
                if j < sd.len() {
                    assert(survivors(t)[j] == sd[j]);
                } else {
                    let k = choose|k: int| 0 <= k < dl.len() && sd[i].rumour == dl[k].rumour;
                    assert(t[k] == dl[k]);
                }
            }
        }
    }
}

/// The survivors of a run are in range and number at most the run.
pub proof fn lemma_survivors(t: Seq<GossipState>)
    requires
        spreads_in_range(t),
    ensures
        spreads_in_range(survivors(t)),
        survivors(t).len() <= t.len(),
        spread_budget(survivors(t)) == spread_budget(t) - t.len(),
    decreases t.len(),
{
    if t.len() > 0 {
        lemma_survivors(t.drop_last());
        lemma_budget_push(survivors(t.drop_last()), spread_once(t.last()));
        lemma_budget_push(t.drop_last(), t.last());
        assert(t.drop_last().push(t.last()) =~= t);
    }
}

/// The budget of a sequence with one entry added at the end.
pub proof fn lemma_budget_push(s: Seq<GossipState>, g: GossipState)
    ensures
        spread_budget(s.push(g)) == spread_budget(s) + g.number_of_times_to_spread,
    decreases s.len(),
{
    if s.len() > 0 {
        lemma_budget_push(s.drop_first(), g);
        assert(s.push(g).drop_first() =~= s.drop_first().push(g));
        assert(s.push(g)[0] == s[0]);
        assert(spread_budget(s.push(g)) == s[0].number_of_times_to_spread + spread_budget(s.push(g).drop_first()));
    } else {
        assert(s.push(g).drop_first() =~= Seq::<GossipState>::empty());
        assert(spread_budget(Seq::<GossipState>::empty()) == 0);
        assert(s.push(g)[0] == g);
        assert(spread_budget(s.push(g)) == g.number_of_times_to_spread + spread_budget(s.push(g).drop_first()));
    }
}

/// The budget of a concatenation is the sum of the budgets.
pub proof fn lemma_budget_add(a: Seq<GossipState>, b: Seq<GossipState>)
    ensures
        spread_budget(a + b) == spread_budget(a) + spread_budget(b),
    decreases a.len(),
{
    if a.len() > 0 {
        lemma_budget_add(a.drop_first(), b);
        assert((a + b).drop_first() =~= a.drop_first() + b);
    } else {
        assert(a + b =~= b);
    }
}

/// The budget of a sequence with one entry inserted anywhere.
pub proof fn lemma_budget_insert(s: Seq<GossipState>, p: int, g: GossipState)
    requires
        0 <= p <= s.len(),
    ensures
        spread_budget(s.insert(p, g)) == spread_budget(s) + g.number_of_times_to_spread,
{
    lemma_budget_add(s.take(p), s.skip(p));
    assert(s.take(p) + s.skip(p) =~= s);
    lemma_budget_add(s.take(p).push(g), s.skip(p));
    assert(s.take(p).push(g) + s.skip(p) =~= s.insert(p, g));
    lemma_budget_push(s.take(p), g);
}

/// The budget after placing a run of entries.
pub proof fn lemma_budget_insert_all(base: Seq<GossipState>, items: Seq<GossipState>)
    ensures
        spread_budget(insert_all(base, items)) == spread_budget(base) + spread_budget(items),
    decreases items.len(),
{
    if items.len() > 0 {
        let mid = insert_all(base, items.drop_last());
        lemma_budget_insert_all(base, items.drop_last());
        lemma_lower_bound_le(mid, items.last().number_of_times_to_spread);
        lemma_budget_insert(
            mid,
            lower_bound(mid, items.last().number_of_times_to_spread) as int,
            items.last(),
        );
        lemma_budget_push(items.drop_last(), items.last());
        assert(items.drop_last().push(items.last()) =~= items);
    }
}

/// A pull spends exactly one send for each entry it hands out: the total
/// budget of sends drops by the number of rumours handed out, and the store
/// never grows. Repeated pulls therefore stop handing out any rumour once
/// its sends are spent.
pub proof fn lemma_pull_spends_budget(s: Seq<GossipState>, how_many: nat)
    requires
        gossip_well_formed(s),
    ensures
        pulled_rumours(s, how_many).len() == pull_count(s, how_many),
        spread_budget(after_pull(s, how_many)) == spread_budget(s) - pull_count(s, how_many),
        after_pull(s, how_many).len() <= s.len(),
        gossip_well_formed(after_pull(s, how_many)),
        0 <= spread_budget(s) <= INITIAL_SPREAD * s.len(),
{
    let k = pull_count(s, how_many) as int;
    let head = s.take(k);
    let tail = s.skip(k);
    assert(head + tail =~= s);
    lemma_budget_add(head, tail);
    assert(spreads_in_range(head));
    assert(spreads_in_range(tail));
    assert(sorted_by_spread(tail));
    lemma_survivors(head);
    lemma_insert_all(tail, survivors(head));
    lemma_budget_insert_all(tail, survivors(head));
    lemma_budget_bounds(s);
    lemma_survivors_rumours(head);
    let surv = survivors(head);
    assert(rumours_distinct(head)) by {
        assert forall|i: int, j: int| 0 <= i < j < head.len() implies head[i].rumour
            != head[j].rumour by {
            assert(head[i] == s[i]);
            assert(head[j] == s[j]);
        }
    }
    assert(rumours_distinct(tail + surv)) by {
        assert forall|i: int, j: int| 0 <= i < j < (tail + surv).len() implies (tail
            + surv)[i].rumour != (tail + surv)[j].rumour by {
            if j < tail.len() {
                assert(tail[i] == s[k + i]);
                assert(tail[j] == s[k + j]);
            } else if i < tail.len() {
                assert((tail + surv)[j] == surv[j - tail.len()]);
                let m = choose|m: int|
                    0 <= m < head.len() && surv[j - tail.len()].rumour == head[m].rumour;
                assert(head[m] == s[m]);
                assert(tail[i] == s[k + i]);
            } else {
                assert((tail + surv)[i] == surv[i - tail.len()]);
                assert((tail + surv)[j] == surv[j - tail.len()]);
            }
        }
    }
    lemma_insert_all_distinct(tail, surv);
}

/// The budget of an in-range store lies between nothing and the initial
/// number of sends for every entry.
pub proof fn lemma_budget_bounds(s: Seq<GossipState>)
    requires
        spreads_in_range(s),
    ensures
        0 <= spread_budget(s) <= INITIAL_SPREAD * s.len(),
    decreases s.len(),
{
    if s.len() > 0 {
        assert(spreads_in_range(s.drop_first())) by {
            assert forall|i: int| 0 <= i < s.drop_first().len() implies 1
                <= (#[trigger] s.drop_first()[i]).number_of_times_to_spread <= INITIAL_SPREAD by {
                assert(s.drop_first()[i] == s[i + 1]);
            }
        }
        lemma_budget_bounds(s.drop_first());
        assert(1 <= s[0].number_of_times_to_spread <= INITIAL_SPREAD);
    }
}

/// Hearing a rumour twice is the same as hearing it once.
pub proof fn lemma_remember_idempotent(s: Seq<GossipState>, r: Rumour)
    requires
        gossip_well_formed(s),
    ensures
        knows_rumour(after_remember(s, r), r),
        after_remember(after_remember(s, r), r) == after_remember(s, r),
        gossip_well_formed(after_remember(s, r)),
{
    if !knows_rumour(s, r) {
        let g = GossipState { number_of_times_to_spread: INITIAL_SPREAD, rumour: r };
        lemma_insert_sorted(s, g);
        lemma_lower_bound(s, INITIAL_SPREAD);
        let p = lower_bound(s, INITIAL_SPREAD) as int;
        assert(after_remember(s, r)[p].rumour == r);
        let u = after_remember(s, r);
        assert forall|i: int, j: int| 0 <= i < j < u.len() implies u[i].rumour != u[j].rumour by {
            if i < p && j < p {
            } else if i < p && j == p {
                assert(!(s[i].rumour == r));
            } else if i < p {
                assert(u[j] == s[j - 1]);
            } else if i == p {
                assert(u[j] == s[j - 1]);
                assert(!(s[j - 1].rumour == r));
            } else {
                assert(u[i] == s[i - 1]);
                assert(u[j] == s[j - 1]);
            }
        }
    }
}

proof fn lemma_filter_sorted(s: Seq<GossipState>, pred: spec_fn(GossipState) -> bool)
    ensures
        sorted_by_spread(s) ==> sorted_by_spread(s.filter(pred)),
        spreads_in_range(s) ==> spreads_in_range(s.filter(pred)),
        rumours_distinct(s) ==> rumours_distinct(s.filter(pred)),
        forall|i: int|
            0 <= i < s.filter(pred).len() ==> s.contains(#[trigger] s.filter(pred)[i]),
    decreases s.len(),
{
    reveal_with_fuel(Seq::filter, 1);
    if s.len() > 0 {
        lemma_filter_sorted(s.drop_last(), pred);
        let sub = s.drop_last().filter(pred);
        assert forall|i: int| 0 <= i < sub.len() implies s.contains(#[trigger] sub[i]) by {
            let j = choose|j: int| 0 <= j < s.drop_last().len() && s.drop_last()[j] == sub[i];
            assert(s[j] == sub[i]);
        }
        if pred(s.last()) {
            let t = sub.push(s.last());
            assert(t =~= s.filter(pred));
            assert forall|i: int| 0 <= i < t.len() implies s.contains(#[trigger] t[i]) by {
                if i < sub.len() {
                    assert(t[i] == sub[i]);
                } else {
                    assert(t[i] == s[s.len() - 1]);
                }
            }
            if sorted_by_spread(s) {
                assert forall|i: int, j: int| 0 <= i <= j < t.len() implies t[i].number_of_times_to_spread
                    <= t[j].number_of_times_to_spread by {
                    if j == t.len() - 1 && i < j {
                        assert(t[i] == sub[i]);
                        assert(s.contains(sub[i]));
                        let k = choose|k: int| 0 <= k < s.len() && s[k] == sub[i];
                        assert(s[k].number_of_times_to_spread <= s[s.len() - 1].number_of_times_to_spread);
                    } else if j < t.len() - 1 {
                        assert(t[i] == sub[i]);
                        assert(t[j] == sub[j]);
                    }
                }
            }
            if spreads_in_range(s) {
                assert forall|i: int| 0 <= i < t.len() implies 1 <= (#[trigger] t[i]).number_of_times_to_spread
                    <= INITIAL_SPREAD by {
                    assert(s.contains(t[i]));
                }
            }
            if rumours_distinct(s) {
                assert(rumours_distinct(s.drop_last())) by {
                    assert forall|i: int, j: int| 0 <= i < j < s.drop_last().len() implies s.drop_last()[i].rumour
                        != s.drop_last()[j].rumour by {
                        assert(s.drop_last()[i] == s[i]);
                        assert(s.drop_last()[j] == s[j]);
                    }
                }
                assert forall|i: int, j: int| 0 <= i < j < t.len() implies t[i].rumour
                    != t[j].rumour by {
                    assert(t[i] == sub[i]);
                    if j < sub.len() {
                        assert(t[j] == sub[j]);
                    } else {
                        let k = choose|k: int| 0 <= k < s.drop_last().len() && s.drop_last()[k] == sub[i];
                        assert(s[k] == sub[i]);
                        assert(t[j] == s[s.len() - 1]);
                    }
                }
            }
        }
    }
}

/// Forgetting a member drops every rumour about it and keeps every other
/// entry, in order.
pub proof fn lemma_forget_drops_member(s: Seq<GossipState>, node: NodeId)
    requires
        gossip_well_formed(s),
    ensures
        gossip_well_formed(after_forget(s, node)),
        forall|i: int|
            0 <= i < after_forget(s, node).len() ==> rumour_subject(
                (#[trigger] after_forget(s, node)[i]).rumour,
            ) != node,
        forall|i: int|
            0 <= i < s.len() && rumour_subject((#[trigger] s[i]).rumour) != node
                ==> after_forget(s, node).contains(s[i]),
        forall|i: int|
            0 <= i < after_forget(s, node).len() ==> s.contains(
                #[trigger] after_forget(s, node)[i],
            ),
{
    broadcast use Seq::lemma_filter_pred, Seq::lemma_filter_contains;

    lemma_filter_sorted(s, not_about(node));
    assert forall|i: int| 0 <= i < after_forget(s, node).len() implies rumour_subject(
        (#[trigger] after_forget(s, node)[i]).rumour,
    ) != node by {
        assert(not_about(node)(s.filter(not_about(node))[i]));
    }
    assert forall|i: int| 0 <= i < s.len() && rumour_subject((#[trigger] s[i]).rumour) != node
        implies after_forget(s, node).contains(s[i]) by {
        assert(not_about(node)(s[i]));
    }
}

impl Gossip {
    /// Places `gs` before the first entry with at least as many sends left.
    fn insert(&mut self, gs: GossipState)
        requires
            sorted_by_spread(old(self)@),
        ensures
            final(self)@ == insert_sorted(old(self)@, gs),
            sorted_by_spread(final(self)@),
    {
        let key = gs.number_of_times_to_spread;
        let mut lo: usize = 0;
        let mut hi: usize = self.gossip.len();
        while lo < hi
            invariant
                lo <= hi <= self.gossip@.len(),
                self.gossip@ == old(self)@,
                sorted_by_spread(self.gossip@),
                forall|i: int| 0 <= i < lo ==> self.gossip@[i].number_of_times_to_spread < key,
                forall|i: int|
                    hi <= i < self.gossip@.len() ==> self.gossip@[i].number_of_times_to_spread
                        >= key,
            decreases hi - lo,
        {
            let mid = lo + (hi - lo) / 2;
            if self.gossip[mid].number_of_times_to_spread < key {
                lo = mid + 1;
            } else {
                hi = mid;
            }
        }
        proof {
            lemma_lower_bound_at(self.gossip@, key, lo as int);
            lemma_insert_sorted(self.gossip@, gs);
        }
        self.gossip.insert(lo, gs);
    }

    /// Hands out the rumours of up to `how_many` entries, those with the
    /// fewest sends left; each goes back in with one send fewer, unless that
    /// was its last.
    pub fn pull_rumours(&mut self, how_many: usize) -> (r: Vec<Rumour>)
        requires
            gossip_well_formed(old(self)@),
        ensures
            r@ == pulled_rumours(old(self)@, how_many as nat),
            final(self)@ == after_pull(old(self)@, how_many as nat),
            gossip_well_formed(final(self)@),
    {
        let ghost s0 = self.gossip@;
        let k = if self.gossip.len() < how_many {
            self.gossip.len()
        } else {
            how_many
        };
        let mut head = self.gossip.split_off(k);
        std::mem::swap(&mut self.gossip, &mut head);
        assert(head@ =~= s0.take(k as int));
        assert(self.gossip@ =~= s0.skip(k as int));
        let mut to_send: Vec<Rumour> = Vec::with_capacity(k);
        let mut to_reinsert: Vec<GossipState> = Vec::with_capacity(k);
        let mut i: usize = 0;
        while i < k
            invariant
                i <= k,
                k == head@.len(),
                head@ == s0.take(k as int),
                self.gossip@ == s0.skip(k as int),
                to_send@ == head@.take(i as int).map_values(|g: GossipState| g.rumour),
                to_reinsert@ == survivors(head@.take(i as int)),
            decreases k - i,
        {
            let gs = head[i];
            to_send.push(gs.rumour);
            if gs.number_of_times_to_spread > 1 {
                to_reinsert.push(
                    GossipState {
                        number_of_times_to_spread: gs.number_of_times_to_spread - 1,
                        rumour: gs.rumour,
                    },
                );
            }
            assert(head@.take(i + 1).drop_last() =~= head@.take(i as int));
            assert(to_send@ =~= head@.take(i + 1).map_values(|g: GossipState| g.rumour));
            i = i + 1;
        }
        assert(head@.take(k as int) =~= head@);
        proof {
            assert(spreads_in_range(head@));
            lemma_survivors(head@);
        }
        let mut j: usize = 0;
        assert(to_reinsert@.take(0) =~= Seq::<GossipState>::empty());
        while j < to_reinsert.len()
            invariant
                j <= to_reinsert@.len(),
                to_reinsert@ == survivors(s0.take(k as int)),
                sorted_by_spread(s0.skip(k as int)),
                self.gossip@ == insert_all(s0.skip(k as int), to_reinsert@.take(j as int)),
            decreases to_reinsert@.len() - j,
        {
            proof {
                lemma_insert_all(s0.skip(k as int), to_reinsert@.take(j as int));
                assert(to_reinsert@.take(j + 1).drop_last() =~= to_reinsert@.take(j as int));
            }
            self.insert(to_reinsert[j]);
            j = j + 1;
        }
        assert(to_reinsert@.take(j as int) =~= to_reinsert@);
        proof {
            lemma_pull_spends_budget(s0, how_many as nat);
        }
        to_send
    }

    /// Starts spreading `rumour`, unless it is being spread already.
    pub fn remember(&mut self, rumour: Rumour)
        requires
            gossip_well_formed(old(self)@),
        ensures
            final(self)@ == after_remember(old(self)@, rumour),
            gossip_well_formed(final(self)@),
    {
        proof {
            lemma_remember_idempotent(self.gossip@, rumour);
        }
        let mut i: usize = 0;
        while i < self.gossip.len()
            invariant
                i <= self.gossip@.len(),
                self.gossip@ == old(self)@,
                gossip_well_formed(old(self)@),
                forall|j: int| 0 <= j < i ==> self.gossip@[j].rumour != rumour,
            decreases self.gossip@.len() - i,
        {
            if self.gossip[i].rumour == rumour {
                assert(knows_rumour(self.gossip@, rumour));
                return;
            }
            i = i + 1;
        }
        self.insert(GossipState { number_of_times_to_spread: INITIAL_SPREAD, rumour: rumour });
    }

    /// Drops every rumour about `node`.
    pub fn forget(&mut self, node: NodeId)
        requires
            gossip_well_formed(old(self)@),
        ensures
            final(self)@ == after_forget(old(self)@, node),
            gossip_well_formed(final(self)@),
    {
        let ghost s0 = self.gossip@;
        let mut kept: Vec<GossipState> = Vec::new();
        let mut i: usize = 0;
        while i < self.gossip.len()
            invariant
                i <= self.gossip@.len(),
                self.gossip@ == s0,
                kept@ == s0.take(i as int).filter(not_about(node)),
            decreases self.gossip@.len() - i,
        {
            let g = self.gossip[i];
            let keep = match g.rumour {
                Rumour::NodeHasJoin(nid) | Rumour::NodeHasLeft(nid) => nid != node,
            };
            proof {
                reveal_with_fuel(Seq::filter, 1);
                assert(s0.take(i + 1).drop_last() =~= s0.take(i as int));
                assert(s0.take(i + 1).last() == g);
            }
            if keep {
                kept.push(g);
            }
            i = i + 1;
        }
        assert(s0.take(i as int) =~= s0);
        proof {
            lemma_forget_drops_member(s0, node);
        }
        self.gossip = kept;
    }
}

/// An empty gossip store.
pub fn new() -> (r: Gossip)
    ensures
        r@ == Seq::<GossipState>::empty(),
{
    Gossip { gossip: Vec::with_capacity(10) }
}

} // verus!

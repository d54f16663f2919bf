//! Reachability, and what an analysis says about it.
use crate::analysis;
use crate::analysis::{Analysis, Search};
use crate::net;
use crate::net::{Net, NetModel};
use crate::report;
use vstd::prelude::*;

verus! {

// ---------------------------------------------------------------------
// Reachable markings
// ---------------------------------------------------------------------

/// Firing one enabled transition leads from `a` to `b`.
pub open spec fn steps_to(net: NetModel, a: Seq<u32>, b: Seq<u32>) -> bool {
    exists|t: int|
        0 <= t < net.trans.len() && #[trigger] net.enabled(a, t) && net.has_room(a, t) && b
            == net.fired(a, t)
}

/// `n` firings lead from `m0` to `m`.
pub open spec fn reachable_in(net: NetModel, m0: Seq<u32>, m: Seq<u32>, n: nat) -> bool
    decreases n,
{
    if n == 0 {
        m == m0
    } else {
        exists|a: Seq<u32>|
            reachable_in(net, m0, a, (n - 1) as nat) && #[trigger] steps_to(net, a, m)
    }
}

/// Some number of firings leads from `m0` to `m`.
pub open spec fn reachable(net: NetModel, m0: Seq<u32>, m: Seq<u32>) -> bool {
    exists|n: nat| reachable_in(net, m0, m, n)
}

/// The set of the markings reachable from `m0`.
pub open spec fn reachable_set(net: NetModel, m0: Seq<u32>) -> Set<Seq<u32>> {
    Set::new(|m: Seq<u32>| reachable(net, m0, m))
}

/// The set of the dead markings reachable from `m0`.
pub open spec fn dead_set(net: NetModel, m0: Seq<u32>) -> Set<Seq<u32>> {
    Set::new(|m: Seq<u32>| reachable(net, m0, m) && net.dead(m))
}

/// The initial marking is reachable, and so is whatever one firing makes of a
/// reachable marking.
pub proof fn law_reachable_closed(net: NetModel, m0: Seq<u32>, a: Seq<u32>, b: Seq<u32>)
    ensures
        reachable(net, m0, m0),
        reachable(net, m0, a) && steps_to(net, a, b) ==> reachable(net, m0, b),
{
    assert(reachable_in(net, m0, m0, 0));
    if reachable(net, m0, a) && steps_to(net, a, b) {
        let n = choose|n: nat| reachable_in(net, m0, a, n);
        assert(reachable_in(net, m0, b, n + 1));
    }
}

// ---------------------------------------------------------------------
// The search meets reachable markings only
// ---------------------------------------------------------------------

proof fn lemma_prefix_countable(net: NetModel, a: Search, b: Search)
    requires
        analysis::grows(a, b),
        analysis::countable(net, b.seen),
    ensures
        analysis::countable(net, a.seen),
{
    assert forall|i: int, t: int|
        0 <= i < a.seen.len() && 0 <= t < net.trans.len() && #[trigger] net.enabled(
            a.seen[i],
            t,
        ) implies net.has_room(a.seen[i], t) by {
        assert(b.seen.take(a.seen.len() as int)[i] == b.seen[i]);
        assert(net.enabled(b.seen[i], t));
    }
}

/// Every marking that the search has met is reachable.
proof fn lemma_seen_reachable(net: NetModel, m0: Seq<u32>, cap: nat, n: nat, m: Seq<u32>)
    requires
        net.trans.len() <= usize::MAX,
        n <= analysis::limit(cap),
        analysis::countable(net, analysis::explored(net, m0, cap).seen),
        analysis::search(net, m0, cap, n).seen.contains(m),
    ensures
        reachable(net, m0, m),
    decreases n,
{
    law_reachable_closed(net, m0, m0, m0);
    if n > 0 {
        let s = analysis::search(net, m0, cap, (n - 1) as nat);
        if s.seen.contains(m) {
            lemma_seen_reachable(net, m0, cap, (n - 1) as nat, m);
        } else {
            let a = s.seen[n - 1];
            let ts = net.enabled_list(a);
            analysis::lemma_search(net, m0, cap, (n - 1) as nat);
            analysis::lemma_met_after(s, net, a, ts, ts.len(), m0.len(), cap);
            let i = choose|i: int| 0 <= i < ts.len() && m == net.fired(a, #[trigger] ts[i] as int);
            net::lemma_enabled_below(net, a, net.trans.len());
            analysis::lemma_search_grows(net, m0, cap, (n - 1) as nat, analysis::limit(cap));
            lemma_prefix_countable(net, s, analysis::explored(net, m0, cap));
            assert(net.enabled(s.seen[n - 1], ts[i] as int));
            assert(s.seen.contains(a));
            lemma_seen_reachable(net, m0, cap, (n - 1) as nat, a);
            assert(steps_to(net, a, m));
            law_reachable_closed(net, m0, a, m);
        }
    }
}

// ---------------------------------------------------------------------
// A search that is not truncated meets all of them
// ---------------------------------------------------------------------

/// Without truncation the search has met every successor.
proof fn lemma_successor_seen(net: NetModel, m0: Seq<u32>, cap: nat, i: int, t: int)
    requires
        net.trans.len() <= usize::MAX,
        !analysis::explored(net, m0, cap).truncated,
        0 <= i < analysis::explored(net, m0, cap).seen.len(),
        0 <= t < net.trans.len(),
        net.enabled(analysis::explored(net, m0, cap).seen[i], t),
    ensures
        analysis::explored(net, m0, cap).seen.contains(
            net.fired(analysis::explored(net, m0, cap).seen[i], t),
        ),
{
    let all = analysis::explored(net, m0, cap);
    let top = analysis::limit(cap);
    let n = i as nat;
    let s = analysis::search(net, m0, cap, n);
    let m = all.seen[i];
    analysis::lemma_search(net, m0, cap, top);
    analysis::lemma_search(net, m0, cap, n);
    analysis::lemma_search_grows(net, m0, cap, n, top);
    if s.seen.len() <= n {
        analysis::lemma_search_over(net, m0, cap, n, top);
    }
    assert(all.seen.take(s.seen.len() as int)[i] == m);
    assert(s.seen[i] == m);
    let ts = net.enabled_list(m);
    let next = analysis::search(net, m0, cap, n + 1);
    assert(next == s.expanded(net, m, cap));
    analysis::lemma_met_after(s, net, m, ts, ts.len(), m0.len(), cap);
    analysis::lemma_search_grows(net, m0, cap, n + 1, top);
    net::lemma_enabled_below(net, m, net.trans.len());
    assert(ts.contains(t as usize));
    let j = choose|j: int| 0 <= j < ts.len() && ts[j] == t as usize;
    assert(next.seen.contains(net.fired(m, ts[j] as int)));
    analysis::lemma_grows_contains(next, all, net.fired(m, t));
}

/// Without truncation the search has met whatever `n` firings lead to.
proof fn lemma_reachable_seen(net: NetModel, m0: Seq<u32>, cap: nat, m: Seq<u32>, n: nat)
    requires
        net.trans.len() <= usize::MAX,
        !analysis::explored(net, m0, cap).truncated,
        reachable_in(net, m0, m, n),
    ensures
        analysis::explored(net, m0, cap).seen.contains(m),
    decreases n,
{
    let all = analysis::explored(net, m0, cap);
    if n == 0 {
        let s = analysis::search(net, m0, cap, 0);
        analysis::lemma_search_grows(net, m0, cap, 0, analysis::limit(cap));
        assert(s.seen[0] == m0);
        analysis::lemma_grows_contains(s, all, m0);
    } else {
        let a = choose|a: Seq<u32>|
            reachable_in(net, m0, a, (n - 1) as nat) && #[trigger] steps_to(net, a, m);
        lemma_reachable_seen(net, m0, cap, a, (n - 1) as nat);
        let i = choose|i: int| 0 <= i < all.seen.len() && all.seen[i] == a;
        let t = choose|t: int|
            0 <= t < net.trans.len() && #[trigger] net.enabled(a, t) && net.has_room(a, t) && m
                == net.fired(a, t);
        lemma_successor_seen(net, m0, cap, i, t);
    }
}

// ---------------------------------------------------------------------
// The numbers of an analysis
// ---------------------------------------------------------------------

/// The dead markings among others: which they are, and that none is counted
/// twice.
proof fn lemma_dead_among(net: NetModel, ms: Seq<Seq<u32>>, k: nat)
    requires
        k <= ms.len(),
        ms.no_duplicates(),
    ensures
        analysis::dead_among(net, ms, k).no_duplicates(),
        analysis::dead_among(net, ms, k).len() <= k,
        forall|m: Seq<u32>| #[trigger]
            analysis::dead_among(net, ms, k).contains(m) <==> ms.take(k as int).contains(m)
                && net.dead(m),
    decreases k,
{
    let d = analysis::dead_among(net, ms, k);
    if k > 0 {
        let e = analysis::dead_among(net, ms, (k - 1) as nat);
        let last = ms[k - 1];
        lemma_dead_among(net, ms, (k - 1) as nat);
        assert forall|m: Seq<u32>| #[trigger] d.contains(m) <==> ms.take(k as int).contains(m)
            && net.dead(m) by {
            if d.contains(m) {
                let i = choose|i: int| 0 <= i < d.len() && d[i] == m;
                if i < e.len() {
                    assert(e[i] == m);
                    assert(e.contains(m));
                    let j = choose|j: int|
                        0 <= j < k - 1 && #[trigger] ms.take(k - 1)[j] == m;
                    assert(ms.take(k as int)[j] == m);
                } else {
                    assert(ms.take(k as int)[k - 1] == m);
                }
            }
            if ms.take(k as int).contains(m) && net.dead(m) {
                let j = choose|j: int| 0 <= j < k && #[trigger] ms.take(k as int)[j] == m;
                if j < k - 1 {
                    assert(ms.take(k - 1)[j] == m);
                    assert(e.contains(m));
                    let i = choose|i: int| 0 <= i < e.len() && e[i] == m;
                    assert(d[i] == m);
                } else {
                    assert(d[d.len() - 1] == m);
                }
            }
        }
        if net.dead(last) {
            assert(!e.contains(last)) by {
                if e.contains(last) {
                    let j = choose|j: int| 0 <= j < k - 1 && #[trigger] ms.take(k - 1)[j] == last;
                    assert(ms[j] == ms[k - 1]);
                }
            }
            assert forall|i: int, j: int|
                0 <= i < d.len() && 0 <= j < d.len() && i != j implies d[i] != d[j] by {
                if i == e.len() {
                    assert(e.contains(e[j]));
                } else if j == e.len() {
                    assert(e.contains(e[i]));
                }
            }
        }
    }
}

/// The largest count is one of the counts, and none is larger.
proof fn lemma_most_tokens(ms: Seq<Seq<u32>>, p: int, k: nat, start: u32)
    requires
        k <= ms.len(),
    ensures
        analysis::most_tokens(ms, p, k, start) >= start,
        forall|i: int|
            0 <= i < k ==> (#[trigger] ms[i])[p] <= analysis::most_tokens(ms, p, k, start),
        analysis::most_tokens(ms, p, k, start) == start || exists|i: int|
            0 <= i < k && (#[trigger] ms[i])[p] == analysis::most_tokens(ms, p, k, start),
    decreases k,
{
    if k > 0 {
        lemma_most_tokens(ms, p, (k - 1) as nat, start);
        assert(ms[k - 1][p] <= analysis::most_tokens(ms, p, k, start));
    }
}

// ---------------------------------------------------------------------
// What an analysis says
// ---------------------------------------------------------------------

/// The analysis reports on a search in which no place overflowed.
pub open spec fn sound(net: Net, m0: Seq<u32>, cap: nat, a: Analysis) -> bool {
    &&& net@.arcs_valid()
    &&& net@.marks(m0)
    &&& analysis::countable(net@, analysis::explored(net@, m0, cap).seen)
    &&& a.reports(net@, m0, cap)
}

/// The visited markings are that many different reachable markings, never
/// more than the cap allows; an exploration is cut short only if it has
/// visited as many markings as the cap.
pub proof fn law_visited_markings(net: Net, m0: Seq<u32>, cap: nat, a: Analysis)
    requires
        sound(net, m0, cap, a),
    ensures
        exists|ms: Seq<Seq<u32>>|
            {
                &&& #[trigger] ms.no_duplicates()
                &&& ms.len() == a.states
                &&& forall|i: int| 0 <= i < ms.len() ==> reachable(net@, m0, #[trigger] ms[i])
            },
        1 <= a.states <= analysis::limit(cap),
        a.truncated ==> a.states >= cap,
{
    assert(net@.trans.len() == net.trans.len());
    let ms = analysis::explored(net@, m0, cap).seen;
    analysis::lemma_search(net@, m0, cap, analysis::limit(cap));
    assert forall|i: int| 0 <= i < ms.len() implies reachable(net@, m0, #[trigger] ms[i]) by {
        assert(ms.contains(ms[i]));
        lemma_seen_reachable(net@, m0, cap, analysis::limit(cap), ms[i]);
    }
    assert(ms.no_duplicates());
}

/// The exploration was not cut short, or it had room for every reachable
/// marking: one that meets the last of them just as it reaches its cap is
/// reported as cut short, though it has missed nothing.
pub open spec fn exhaustive(net: Net, m0: Seq<u32>, cap: nat, a: Analysis) -> bool {
    ||| !a.truncated
    ||| reachable_set(net@, m0).finite() && reachable_set(net@, m0).len() <= analysis::limit(cap)
}

/// An exploration that was not cut short, or had room for every reachable
/// marking, has visited exactly the reachable markings: `states` is their
/// number.
pub proof fn law_complete(net: Net, m0: Seq<u32>, cap: nat, a: Analysis)
    requires
        sound(net, m0, cap, a),
        exhaustive(net, m0, cap, a),
    ensures
        reachable_set(net@, m0).finite(),
        reachable_set(net@, m0).len() == a.states,
        reachable_set(net@, m0).len() <= analysis::limit(cap),
        analysis::explored(net@, m0, cap).seen.to_set() == reachable_set(net@, m0),
{
    assert(net@.trans.len() == net.trans.len());
    let ms = analysis::explored(net@, m0, cap).seen;
    let all = reachable_set(net@, m0);
    analysis::lemma_search(net@, m0, cap, analysis::limit(cap));
    ms.unique_seq_to_set();
    assert forall|m: Seq<u32>| ms.to_set().contains(m) implies all.contains(m) by {
        lemma_seen_reachable(net@, m0, cap, analysis::limit(cap), m);
    }
    if a.truncated {
        vstd::set_lib::lemma_len_subset(ms.to_set(), all);
        vstd::set_lib::lemma_subset_equality(ms.to_set(), all);
    } else {
        assert forall|m: Seq<u32>| all.contains(m) implies ms.to_set().contains(m) by {
            let n = choose|n: nat| reachable_in(net@, m0, m, n);
            lemma_reachable_seen(net@, m0, cap, m, n);
        }
    }
    assert(ms.to_set() =~= all);
}

/// Where the exploration was exhaustive, no run of the net can make a place
/// overflow.
pub proof fn law_no_overflow(net: Net, m0: Seq<u32>, cap: nat, a: Analysis, m: Seq<u32>, t: int)
    requires
        sound(net, m0, cap, a),
        exhaustive(net, m0, cap, a),
        reachable(net@, m0, m),
        0 <= t < net@.trans.len(),
        net@.enabled(m, t),
    ensures
        net@.has_room(m, t),
{
    let ms = analysis::explored(net@, m0, cap).seen;
    law_complete(net, m0, cap, a);
    assert(ms.to_set().contains(m));
    let i = choose|i: int| 0 <= i < ms.len() && ms[i] == m;
    assert(net@.enabled(ms[i], t));
}

/// A net with fewer reachable markings than the cap is explored to the end.
pub proof fn law_small_net_not_truncated(net: Net, m0: Seq<u32>, cap: nat, a: Analysis)
    requires
        sound(net, m0, cap, a),
        reachable_set(net@, m0).finite(),
        reachable_set(net@, m0).len() < cap,
    ensures
        !a.truncated,
{
    law_visited_markings(net, m0, cap, a);
    if a.truncated {
        let ms = choose|ms: Seq<Seq<u32>>|
            {
                &&& #[trigger] ms.no_duplicates()
                &&& ms.len() == a.states
                &&& forall|i: int| 0 <= i < ms.len() ==> reachable(net@, m0, #[trigger] ms[i])
            };
        ms.unique_seq_to_set();
        assert(ms.to_set().subset_of(reachable_set(net@, m0)));
        vstd::set_lib::lemma_len_subset(ms.to_set(), reachable_set(net@, m0));
    }
}

/// The exploration of a net with infinitely many reachable markings is always
/// cut short.
pub proof fn law_infinite_net_truncated(net: Net, m0: Seq<u32>, cap: nat, a: Analysis)
    requires
        sound(net, m0, cap, a),
        !reachable_set(net@, m0).finite(),
    ensures
        a.truncated,
{
    if !a.truncated {
        law_complete(net, m0, cap, a);
    }
}

/// Dead markings that are reported can be reached: each example is reachable
/// and dead, no two are the same, and a count above zero means that there is
/// one, even where the exploration was cut short.
pub proof fn law_deadlocks_real(net: Net, m0: Seq<u32>, cap: nat, a: Analysis)
    requires
        sound(net, m0, cap, a),
    ensures
        forall|i: int|
            0 <= i < a.deadlocks@.len() ==> reachable(net@, m0, #[trigger] a.deadlocks@[i]@)
                && net@.dead(a.deadlocks@[i]@),
        forall|i: int, j: int|
            0 <= i < j < a.deadlocks@.len() ==> #[trigger] a.deadlocks@[i]@
                != #[trigger] a.deadlocks@[j]@,
        a.deadlocks@.len() == (if a.deadlock_count < 3 {
            a.deadlock_count as int
        } else {
            3
        }),
        a.deadlock_count <= a.states,
        a.deadlock_count > 0 ==> exists|m: Seq<u32>| #[trigger]
            reachable(net@, m0, m) && net@.dead(m),
{
    assert(net@.trans.len() == net.trans.len());
    let ms = analysis::explored(net@, m0, cap).seen;
    let d = analysis::dead_among(net@, ms, ms.len());
    analysis::lemma_search(net@, m0, cap, analysis::limit(cap));
    lemma_dead_among(net@, ms, ms.len());
    assert(ms.take(ms.len() as int) =~= ms);
    assert(analysis::marking_views(a.deadlocks@).len() == analysis::first_three(d).len());
    assert forall|i: int| 0 <= i < a.deadlocks@.len() implies reachable(
        net@,
        m0,
        #[trigger] a.deadlocks@[i]@,
    ) && net@.dead(a.deadlocks@[i]@) by {
        let m = a.deadlocks@[i]@;
        assert(analysis::marking_views(a.deadlocks@)[i] == m);
        assert(d[i] == m);
        assert(d.contains(m));
        lemma_seen_reachable(net@, m0, cap, analysis::limit(cap), m);
    }
    assert forall|i: int, j: int|
        0 <= i < j < a.deadlocks@.len() implies #[trigger] a.deadlocks@[i]@
        != #[trigger] a.deadlocks@[j]@ by {
        assert(analysis::marking_views(a.deadlocks@)[i] == d[i]);
        assert(analysis::marking_views(a.deadlocks@)[j] == d[j]);
    }
    if a.deadlock_count > 0 {
        assert(reachable(net@, m0, a.deadlocks@[0]@));
    }
}

/// Where the exploration was exhaustive, `deadlock_count` is the number of the
/// reachable dead markings; if it is zero, the net is free of deadlocks.
pub proof fn law_deadlock_count(net: Net, m0: Seq<u32>, cap: nat, a: Analysis)
    requires
        sound(net, m0, cap, a),
        exhaustive(net, m0, cap, a),
    ensures
        dead_set(net@, m0).finite(),
        dead_set(net@, m0).len() == a.deadlock_count,
        a.deadlock_count == 0 <==> (forall|m: Seq<u32>| #[trigger]
            reachable(net@, m0, m) ==> !net@.dead(m)),
{
    let ms = analysis::explored(net@, m0, cap).seen;
    let d = analysis::dead_among(net@, ms, ms.len());
    analysis::lemma_search(net@, m0, cap, analysis::limit(cap));
    law_complete(net, m0, cap, a);
    lemma_dead_among(net@, ms, ms.len());
    assert(ms.take(ms.len() as int) =~= ms);
    assert forall|m: Seq<u32>| d.to_set().contains(m) <==> dead_set(net@, m0).contains(m) by {
        assert(ms.contains(m) <==> ms.to_set().contains(m));
        assert(d.contains(m) <==> d.to_set().contains(m));
        assert(reachable_set(net@, m0).contains(m) <==> reachable(net@, m0, m));
    }
    assert(d.to_set() =~= dead_set(net@, m0));
    d.unique_seq_to_set();
    if a.deadlock_count == 0 {
        assert forall|m: Seq<u32>| #[trigger] reachable(net@, m0, m) implies !net@.dead(m) by {
            if net@.dead(m) {
                assert(dead_set(net@, m0).contains(m));
                assert(d.contains(m));
            }
        }
    } else {
        assert(d.contains(d[0]));
        assert(dead_set(net@, m0).contains(d[0]));
    }
}

/// The reported bound of each place is the number of its tokens in some
/// reachable marking; where the exploration was exhaustive, no reachable
/// marking has more.
pub proof fn law_place_bounds(net: Net, m0: Seq<u32>, cap: nat, a: Analysis, p: int)
    requires
        sound(net, m0, cap, a),
        0 <= p < m0.len(),
    ensures
        a.max_tokens@.len() == m0.len(),
        exists|m: Seq<u32>| #[trigger] reachable(net@, m0, m) && m[p] == a.max_tokens@[p],
        exhaustive(net, m0, cap, a) ==> forall|m: Seq<u32>| #[trigger]
            reachable(net@, m0, m) ==> m[p] <= a.max_tokens@[p],
{
    assert(net@.trans.len() == net.trans.len());
    let ms = analysis::explored(net@, m0, cap).seen;
    let k = ms.len();
    let most = analysis::most_tokens(ms, p, k, m0[p]);
    assert(a.max_tokens@[p] == most);
    lemma_most_tokens(ms, p, k, m0[p]);
    if most == m0[p] {
        law_reachable_closed(net@, m0, m0, m0);
    } else {
        let i = choose|i: int| 0 <= i < k && (#[trigger] ms[i])[p] == most;
        assert(ms.contains(ms[i]));
        lemma_seen_reachable(net@, m0, cap, analysis::limit(cap), ms[i]);
    }
    if exhaustive(net, m0, cap, a) {
        law_complete(net, m0, cap, a);
        assert forall|m: Seq<u32>| #[trigger] reachable(net@, m0, m) implies m[p]
            <= a.max_tokens@[p] by {
            assert(reachable_set(net@, m0).contains(m));
            assert(ms.to_set().contains(m));
            let i = choose|i: int| 0 <= i < ms.len() && ms[i] == m;
            assert(ms[i][p] <= most);
        }
    }
}

/// The net is bounded by the number that the report gives: where the
/// exploration was exhaustive, no place ever holds more tokens, and some
/// place holds that many in some reachable marking.
pub proof fn law_bounded_by_largest(net: Net, m0: Seq<u32>, cap: nat, a: Analysis)
    requires
        sound(net, m0, cap, a),
        exhaustive(net, m0, cap, a),
    ensures
        forall|m: Seq<u32>, p: int|
            #![trigger reachable(net@, m0, m), m[p]]
            reachable(net@, m0, m) && 0 <= p < m0.len() ==> m[p] <= report::largest(
                a.max_tokens@,
            ),
        m0.len() > 0 ==> exists|m: Seq<u32>, p: int|
            #![trigger reachable(net@, m0, m), m[p]]
            reachable(net@, m0, m) && 0 <= p < m0.len() && m[p] == report::largest(
                a.max_tokens@,
            ),
{
    let counts = a.max_tokens@;
    report::lemma_largest(counts);
    assert(counts.len() == m0.len());
    assert forall|m: Seq<u32>, p: int|
        #![trigger reachable(net@, m0, m), m[p]]
        reachable(net@, m0, m) && 0 <= p < m0.len() implies m[p] <= report::largest(counts) by {
        law_place_bounds(net, m0, cap, a, p);
        assert(counts[p] <= report::largest(counts));
    }
    if m0.len() > 0 {
        let p = choose|p: int| 0 <= p < counts.len() && counts[p] == report::largest(counts);
        law_place_bounds(net, m0, cap, a, p);
        let m = choose|m: Seq<u32>| #[trigger] reachable(net@, m0, m) && m[p] == counts[p];
        assert(reachable(net@, m0, m) && m[p] == report::largest(counts));
    }
}

// ---------------------------------------------------------------------
// The nearest come first
// ---------------------------------------------------------------------

/// At most `n` firings lead from `m0` to `m`.
pub open spec fn reachable_within(net: NetModel, m0: Seq<u32>, m: Seq<u32>, n: nat) -> bool {
    exists|k: nat| k <= n && #[trigger] reachable_in(net, m0, m, k)
}

/// A search that was not truncated has met all successors of the markings
/// that it has expanded.
proof fn lemma_expanded(net: NetModel, m0: Seq<u32>, cap: nat, n: nat, l: int, t: int)
    requires
        net.trans.len() <= usize::MAX,
        !analysis::search(net, m0, cap, n).truncated,
        0 <= l < n,
        l < analysis::search(net, m0, cap, n).seen.len(),
        0 <= t < net.trans.len(),
        net.enabled(analysis::search(net, m0, cap, n).seen[l], t),
    ensures
        analysis::search(net, m0, cap, n).seen.contains(
            net.fired(analysis::search(net, m0, cap, n).seen[l], t),
        ),
    decreases n,
{
    let s = analysis::search(net, m0, cap, (n - 1) as nat);
    let r = analysis::search(net, m0, cap, n);
    analysis::lemma_search(net, m0, cap, (n - 1) as nat);
    analysis::lemma_search_grows(net, m0, cap, (n - 1) as nat, n);
    let m = r.seen[l];
    if l < s.seen.len() {
        assert(r.seen.take(s.seen.len() as int)[l] == m);
        assert(s.seen[l] == m);
    }
    if l < n - 1 {
        if l >= s.seen.len() {
            assert(r == s);
        }
        lemma_expanded(net, m0, cap, (n - 1) as nat, l, t);
        analysis::lemma_grows_contains(s, r, net.fired(m, t));
    } else {
        assert(n - 1 < s.seen.len());
        let ts = net.enabled_list(m);
        analysis::lemma_met_after(s, net, m, ts, ts.len(), m0.len(), cap);
        net::lemma_enabled_below(net, m, net.trans.len());
        assert(ts.contains(t as usize));
        let j = choose|j: int| 0 <= j < ts.len() && ts[j] == t as usize;
        assert(r.seen.contains(net.fired(m, ts[j] as int)));
    }
}

/// The marking at position `i` of a search is a successor of the one at
/// position `j`, and all successors of earlier ones stand before it.
spec fn comes_from(net: NetModel, ms: Seq<Seq<u32>>, i: int, j: int) -> bool {
    &&& 0 <= j < i
    &&& exists|t: int|
        0 <= t < net.trans.len() && #[trigger] net.enabled(ms[j], t) && ms[i] == net.fired(ms[j], t)
    &&& forall|l: int, t: int|
        0 <= l < j && 0 <= t < net.trans.len() && #[trigger] net.enabled(ms[l], t)
            ==> ms.take(i).contains(net.fired(ms[l], t))
}

proof fn lemma_comes_from_prefix(net: NetModel, a: Search, b: Search, i: int, j: int)
    requires
        analysis::grows(a, b),
        i < a.seen.len(),
        comes_from(net, a.seen, i, j),
    ensures
        comes_from(net, b.seen, i, j),
{
    assert forall|l: int| 0 <= l < a.seen.len() implies a.seen[l] == #[trigger] b.seen[l] by {
        assert(b.seen.take(a.seen.len() as int)[l] == b.seen[l]);
    }
    assert(b.seen.take(i) =~= a.seen.take(i));
    let t = choose|t: int|
        0 <= t < net.trans.len() && #[trigger] net.enabled(a.seen[j], t) && a.seen[i] == net.fired(
            a.seen[j],
            t,
        );
    assert(net.enabled(b.seen[j], t));
    assert forall|l: int, t: int|
        0 <= l < j && 0 <= t < net.trans.len() && #[trigger] net.enabled(
            b.seen[l],
            t,
        ) implies b.seen.take(i).contains(net.fired(b.seen[l], t)) by {
        assert(net.enabled(a.seen[l], t));
    }
}

/// Every marking but the first comes from an earlier one.
proof fn lemma_comes_from(net: NetModel, m0: Seq<u32>, cap: nat, n: nat, i: int)
    requires
        net.trans.len() <= usize::MAX,
        0 < i < analysis::search(net, m0, cap, n).seen.len(),
    ensures
        exists|j: int| #[trigger] comes_from(net, analysis::search(net, m0, cap, n).seen, i, j),
    decreases n,
{
    let r = analysis::search(net, m0, cap, n);
    if n > 0 {
        let s = analysis::search(net, m0, cap, (n - 1) as nat);
        analysis::lemma_search(net, m0, cap, (n - 1) as nat);
        analysis::lemma_search(net, m0, cap, n);
        analysis::lemma_search_grows(net, m0, cap, (n - 1) as nat, n);
        if i < s.seen.len() {
            lemma_comes_from(net, m0, cap, (n - 1) as nat, i);
            let j = choose|j: int| #[trigger] comes_from(net, s.seen, i, j);
            lemma_comes_from_prefix(net, s, r, i, j);
        } else {
            let m = s.seen[n - 1];
            let ts = net.enabled_list(m);
            assert(n - 1 < s.seen.len());
            analysis::lemma_met_after(s, net, m, ts, ts.len(), m0.len(), cap);
            net::lemma_enabled_below(net, m, net.trans.len());
            assert forall|l: int|
                0 <= l < s.seen.len() implies s.seen[l] == #[trigger] r.seen[l] by {
                assert(r.seen.take(s.seen.len() as int)[l] == r.seen[l]);
            }
            if s.seen.contains(r.seen[i]) {
                let l = choose|l: int| 0 <= l < s.seen.len() && s.seen[l] == r.seen[i];
                assert(r.seen[l] == r.seen[i]);
            }
            assert(r.seen.contains(r.seen[i]));
            let q = choose|q: int|
                0 <= q < ts.len() && r.seen[i] == net.fired(m, #[trigger] ts[q] as int);
            assert(net.enabled(r.seen[n - 1], ts[q] as int));
            assert(s.seen.len() < cap);
            assert forall|l: int, t: int|
                0 <= l < n - 1 && 0 <= t < net.trans.len() && #[trigger] net.enabled(
                    r.seen[l],
                    t,
                ) implies r.seen.take(i).contains(net.fired(r.seen[l], t)) by {
                let f = net.fired(r.seen[l], t);
                lemma_expanded(net, m0, cap, (n - 1) as nat, l, t);
                let e = choose|e: int| 0 <= e < s.seen.len() && s.seen[e] == f;
                assert(r.seen.take(i)[e] == f);
            }
            assert(comes_from(net, r.seen, i, n - 1));
        }
    }
}

/// The exploration is breadth-first: a marking that it has not visited before
/// its marking number `i` is no nearer to `m0` than that one.
pub proof fn law_breadth_first(net: NetModel, m0: Seq<u32>, cap: nat, i: int, m: Seq<u32>, n: nat)
    requires
        net.trans.len() <= usize::MAX,
        analysis::countable(net, analysis::explored(net, m0, cap).seen),
        0 <= i < analysis::explored(net, m0, cap).seen.len(),
        reachable_in(net, m0, m, n),
        !analysis::explored(net, m0, cap).seen.take(i).contains(m),
    ensures
        reachable_within(net, m0, analysis::explored(net, m0, cap).seen[i], n),
    decreases n,
{
    let ms = analysis::explored(net, m0, cap).seen;
    let first = analysis::search(net, m0, cap, 0);
    analysis::lemma_search_grows(net, m0, cap, 0, analysis::limit(cap));
    assert(ms.take(first.seen.len() as int)[0] == ms[0]);
    assert(ms[0] == m0);
    if i == 0 {
        assert(reachable_in(net, m0, m0, 0));
    } else {
        lemma_comes_from(net, m0, cap, analysis::limit(cap), i);
        let j = choose|j: int| #[trigger] comes_from(net, ms, i, j);
        if n == 0 {
            assert(ms.take(i)[0] == m);
        } else {
            let a = choose|a: Seq<u32>|
                reachable_in(net, m0, a, (n - 1) as nat) && #[trigger] steps_to(net, a, m);
            if ms.take(j).contains(a) {
                let l = choose|l: int| 0 <= l < j && #[trigger] ms.take(j)[l] == a;
                let t = choose|t: int|
                    0 <= t < net.trans.len() && #[trigger] net.enabled(a, t) && net.has_room(a, t)
                        && m == net.fired(a, t);
                assert(net.enabled(ms[l], t));
            }
            law_breadth_first(net, m0, cap, j, a, (n - 1) as nat);
            let k = choose|k: nat| k <= n - 1 && #[trigger] reachable_in(net, m0, ms[j], k);
            let t = choose|t: int|
                0 <= t < net.trans.len() && #[trigger] net.enabled(ms[j], t) && ms[i] == net.fired(
                    ms[j],
                    t,
                );
            assert(net.has_room(ms[j], t));
            assert(steps_to(net, ms[j], ms[i]));
            assert(reachable_in(net, m0, ms[i], k + 1));
        }
    }
}

/// Each of the dead markings among others stands behind the earlier ones, and
/// no other dead one stands before it.
proof fn lemma_dead_among_order(net: NetModel, ms: Seq<Seq<u32>>, k: nat, e: int) -> (i: int)
    requires
        k <= ms.len(),
        0 <= e < analysis::dead_among(net, ms, k).len(),
    ensures
        0 <= i < k,
        ms[i] == analysis::dead_among(net, ms, k)[e],
        forall|m: Seq<u32>|
            #![trigger ms.take(i).contains(m)]
            ms.take(i).contains(m) && net.dead(m) ==> analysis::dead_among(net, ms, k).take(
                e,
            ).contains(m),
    decreases k,
{
    let d = analysis::dead_among(net, ms, k);
    let p = analysis::dead_among(net, ms, (k - 1) as nat);
    if e < p.len() {
        let i = lemma_dead_among_order(net, ms, (k - 1) as nat, e);
        assert(d.take(e) =~= p.take(e));
        i
    } else {
        assert forall|m: Seq<u32>|
            #![trigger ms.take(k - 1).contains(m)]
            ms.take(k - 1).contains(m) && net.dead(m) implies d.take(e).contains(m) by {
            assert(d.take(e) =~= p);
            lemma_dead_among_holds(net, ms, (k - 1) as nat, m);
        }
        k - 1
    }
}

/// Every dead one of the first `k` markings is among the dead.
proof fn lemma_dead_among_holds(net: NetModel, ms: Seq<Seq<u32>>, k: nat, m: Seq<u32>)
    requires
        k <= ms.len(),
        ms.take(k as int).contains(m),
        net.dead(m),
    ensures
        analysis::dead_among(net, ms, k).contains(m),
    decreases k,
{
    let j = choose|j: int| 0 <= j < k && #[trigger] ms.take(k as int)[j] == m;
    let d = analysis::dead_among(net, ms, k);
    if j == k - 1 {
        assert(d[d.len() - 1] == m);
    } else {
        assert(ms.take(k - 1)[j] == m);
        lemma_dead_among_holds(net, ms, (k - 1) as nat, m);
        let p = analysis::dead_among(net, ms, (k - 1) as nat);
        let i = choose|i: int| 0 <= i < p.len() && p[i] == m;
        assert(d[i] == m);
    }
}

/// The examples are the nearest deadlocks, the nearest first: whatever dead
/// marking `n` firings lead to is one of the examples before number `e`, or
/// at most `n` firings lead to example number `e`. This holds even where the
/// exploration was cut short.
pub proof fn law_nearest_deadlocks(
    net: Net,
    m0: Seq<u32>,
    cap: nat,
    a: Analysis,
    e: int,
    m: Seq<u32>,
    n: nat,
)
    requires
        sound(net, m0, cap, a),
        0 <= e < a.deadlocks@.len(),
        reachable_in(net@, m0, m, n),
        net@.dead(m),
    ensures
        (exists|i: int| 0 <= i < e && #[trigger] a.deadlocks@[i]@ == m) || reachable_within(
            net@,
            m0,
            a.deadlocks@[e]@,
            n,
        ),
{
    assert(net@.trans.len() == net.trans.len());
    let ms = analysis::explored(net@, m0, cap).seen;
    let d = analysis::dead_among(net@, ms, ms.len());
    let views = analysis::marking_views(a.deadlocks@);
    assert(views.len() == analysis::first_three(d).len());
    assert(views[e] == d[e]);
    let i = lemma_dead_among_order(net@, ms, ms.len(), e);
    if ms.take(i).contains(m) {
        assert(d.take(e).contains(m));
        let j = choose|j: int| 0 <= j < e && #[trigger] d.take(e)[j] == m;
        assert(views[j] == d[j]);
        assert(a.deadlocks@[j]@ == m);
    } else {
        law_breadth_first(net@, m0, cap, i, m, n);
    }
}

// ---------------------------------------------------------------------
// What exactly is explored
// ---------------------------------------------------------------------

/// Transition `u` of marking `l` is tried before transition `v` of marking
/// `k`.
spec fn earlier(l: int, u: int, k: int, v: int) -> bool {
    l < k || (l == k && u < v)
}

/// The markings `s.seen` were met by trying the transitions of each in turn,
/// up to transition `v` of marking `k`: marking number `i` by transition
/// `ts[i]` of marking `js[i]`.
spec fn traced(
    net: NetModel,
    s: Search,
    cap: nat,
    js: Seq<int>,
    ts: Seq<int>,
    k: int,
    v: int,
) -> bool {
    let ms = s.seen;
    &&& js.len() == ms.len()
    &&& ts.len() == ms.len()
    &&& forall|i: int|
        0 < i < ms.len() ==> {
            &&& 0 <= #[trigger] js[i] < i
            &&& 0 <= ts[i] < net.trans.len()
            &&& net.enabled(ms[js[i]], ts[i])
            &&& ms[i] == net.fired(ms[js[i]], ts[i])
            &&& earlier(js[i], ts[i], k, v)
        }
    &&& forall|i: int, l: int, u: int|
        #![trigger js[i], net.enabled(ms[l], u)]
        0 < i < ms.len() && 0 <= l < ms.len() && 0 <= u < net.trans.len() && net.enabled(ms[l], u)
            && earlier(l, u, js[i], ts[i]) ==> ms.take(i).contains(net.fired(ms[l], u))
    &&& s.truncated || forall|l: int, u: int|
        0 <= l < ms.len() && 0 <= u < net.trans.len() && #[trigger] net.enabled(ms[l], u)
            && earlier(l, u, k, v) ==> ms.contains(net.fired(ms[l], u))
    &&& s.truncated <==> ms.len() >= cap && exists|l: int, u: int|
        0 <= l < ms.len() && 0 <= u < net.trans.len() && #[trigger] net.enabled(ms[l], u)
            && earlier(l, u, k, v) && (ms.len() == 1 || earlier(js.last(), ts.last(), l, u))
}

/// The bound of a trace may be raised past transitions that are not enabled.
proof fn lemma_traced_on(
    net: NetModel,
    s: Search,
    cap: nat,
    js: Seq<int>,
    ts: Seq<int>,
    k: int,
    v: int,
    k2: int,
    v2: int,
)
    requires
        traced(net, s, cap, js, ts, k, v),
        s.seen.len() >= 1,
        !earlier(k2, v2, k, v),
        forall|l: int, u: int|
            0 <= l < s.seen.len() && 0 <= u < net.trans.len() && #[trigger] net.enabled(
                s.seen[l],
                u,
            ) && earlier(l, u, k2, v2) ==> earlier(l, u, k, v),
    ensures
        traced(net, s, cap, js, ts, k2, v2),
{
    let ms = s.seen;
    if s.truncated {
        let (l, u) = choose|l: int, u: int|
            0 <= l < ms.len() && 0 <= u < net.trans.len() && #[trigger] net.enabled(ms[l], u)
                && earlier(l, u, k, v) && (ms.len() == 1 || earlier(js.last(), ts.last(), l, u));
        assert(net.enabled(ms[l], u) && earlier(l, u, k2, v2));
    } else if ms.len() >= cap && exists|l: int, u: int|
        0 <= l < ms.len() && 0 <= u < net.trans.len() && #[trigger] net.enabled(ms[l], u)
            && earlier(l, u, k2, v2) && (ms.len() == 1 || earlier(js.last(), ts.last(), l, u)) {
        let (l, u) = choose|l: int, u: int|
            0 <= l < ms.len() && 0 <= u < net.trans.len() && #[trigger] net.enabled(ms[l], u)
                && earlier(l, u, k2, v2) && (ms.len() == 1 || earlier(js.last(), ts.last(), l, u));
        assert(net.enabled(ms[l], u) && earlier(l, u, k, v));
    }
}

/// One more transition is tried.
proof fn lemma_traced_met(
    net: NetModel,
    s: Search,
    cap: nat,
    js: Seq<int>,
    ts: Seq<int>,
    k: int,
    v: int,
) -> (r: (Seq<int>, Seq<int>))
    requires
        traced(net, s, cap, js, ts, k, v),
        s.seen.len() >= 1,
        0 <= k < s.seen.len(),
        0 <= v < net.trans.len(),
        net.enabled(s.seen[k], v),
    ensures
        traced(net, s.met(net.fired(s.seen[k], v), cap), cap, r.0, r.1, k, v + 1),
{
    let ms = s.seen;
    let f = net.fired(ms[k], v);
    let n = s.met(f, cap);
    if ms.len() >= cap {
        assert(net.enabled(ms[k], v) && earlier(k, v, k, v + 1) && (ms.len() == 1 || earlier(
            js.last(),
            ts.last(),
            k,
            v,
        ))) by {
            if ms.len() > 1 {
                assert(js[ms.len() - 1] == js.last());
            }
        }
        (js, ts)
    } else if ms.contains(f) {
        assert(!s.truncated);
        assert forall|l: int, u: int|
            0 <= l < ms.len() && 0 <= u < net.trans.len() && #[trigger] net.enabled(ms[l], u)
                && earlier(l, u, k, v + 1) implies ms.contains(net.fired(ms[l], u)) by {
            if !earlier(l, u, k, v) {
                assert(l == k && u == v);
            }
        }
        (js, ts)
    } else {
        let js2 = js.push(k);
        let ts2 = ts.push(v);
        let ms2 = n.seen;
        assert(!s.truncated);
        assert(ms2 == ms.push(f));
        assert forall|i: int| 0 < i < ms2.len() implies {
            &&& 0 <= #[trigger] js2[i] < i
            &&& 0 <= ts2[i] < net.trans.len()
            &&& net.enabled(ms2[js2[i]], ts2[i])
            &&& ms2[i] == net.fired(ms2[js2[i]], ts2[i])
            &&& earlier(js2[i], ts2[i], k, v + 1)
        } by {
            if i < ms.len() {
                assert(js2[i] == js[i]);
                assert(ms2[js2[i]] == ms[js[i]]);
            }
        }
        assert forall|i: int, l: int, u: int|
            #![trigger js2[i], net.enabled(ms2[l], u)]
            0 < i < ms2.len() && 0 <= l < ms2.len() && 0 <= u < net.trans.len() && net.enabled(
                ms2[l],
                u,
            ) && earlier(l, u, js2[i], ts2[i]) implies ms2.take(i).contains(
            net.fired(ms2[l], u),
        ) by {
            assert(l < ms.len());
            assert(ms2[l] == ms[l]);
            assert(net.enabled(ms[l], u));
            if i < ms.len() {
                assert(js2[i] == js[i]);
                assert(ms2.take(i) =~= ms.take(i));
            } else {
                assert(ms2.take(i) =~= ms);
                assert(earlier(l, u, k, v));
            }
        }
        assert forall|l: int, u: int|
            0 <= l < ms2.len() && 0 <= u < net.trans.len() && #[trigger] net.enabled(ms2[l], u)
                && earlier(l, u, k, v + 1) implies ms2.contains(net.fired(ms2[l], u)) by {
            assert(ms2[l] == ms[l]);
            assert(net.enabled(ms[l], u));
            if earlier(l, u, k, v) {
                let e = choose|e: int| 0 <= e < ms.len() && ms[e] == net.fired(ms[l], u);
                assert(ms2[e] == net.fired(ms[l], u));
            } else {
                assert(ms2[ms.len() as int] == f);
            }
        }
        (js2, ts2)
    }
}

/// The first `n` enabled transitions of marking `k` are tried.
proof fn lemma_traced_after(
    net: NetModel,
    s: Search,
    cap: nat,
    js: Seq<int>,
    ts: Seq<int>,
    k: int,
    n: nat,
    width: nat,
) -> (r: (Seq<int>, Seq<int>))
    requires
        net.trans.len() <= usize::MAX,
        traced(net, s, cap, js, ts, k, 0),
        analysis::orderly(s, width, cap),
        0 <= k < s.seen.len(),
        n <= net.enabled_list(s.seen[k]).len(),
    ensures
        traced(
            net,
            s.met_after(net, s.seen[k], net.enabled_list(s.seen[k]), n, cap),
            cap,
            r.0,
            r.1,
            k,
            if n == 0 {
                0
            } else {
                net.enabled_list(s.seen[k])[n - 1] + 1
            },
        ),
    decreases n,
{
    if n == 0 {
        (js, ts)
    } else {
        let m = s.seen[k];
        let en = net.enabled_list(m);
        net::lemma_enabled_below(net, m, net.trans.len());
        let (js1, ts1) = lemma_traced_after(net, s, cap, js, ts, k, (n - 1) as nat, width);
        let a = s.met_after(net, m, en, (n - 1) as nat, cap);
        analysis::lemma_met_after(s, net, m, en, (n - 1) as nat, width, cap);
        assert(a.seen.take(s.seen.len() as int)[k] == a.seen[k]);
        assert(a.seen[k] == m);
        let low = if n == 1 {
            0
        } else {
            en[n - 2] + 1
        };
        let v = en[n - 1] as int;
        assert forall|l: int, u: int|
            0 <= l < a.seen.len() && 0 <= u < net.trans.len() && #[trigger] net.enabled(
                a.seen[l],
                u,
            ) && earlier(l, u, k, v) implies earlier(l, u, k, low) by {
            if l == k {
                assert(en.contains(u as usize));
                let q = choose|q: int| 0 <= q < en.len() && en[q] == u as usize;
                if q >= n - 1 {
                    if q > n - 1 {
                        assert(en[n - 1] < en[q]);
                    }
                } else if q < n - 2 {
                    assert(en[q] < en[n - 2]);
                }
            }
        }
        if n > 1 {
            assert(en[n - 2] < en[n - 1]);
        }
        lemma_traced_on(net, a, cap, js1, ts1, k, low, k, v);
        assert(net.enabled(m, en[n - 1] as int));
        lemma_traced_met(net, a, cap, js1, ts1, k, v)
    }
}

/// Every search has a trace.
proof fn lemma_traced(net: NetModel, m0: Seq<u32>, cap: nat, n: nat) -> (r: (Seq<int>, Seq<int>))
    requires
        net.trans.len() <= usize::MAX,
    ensures
        traced(net, analysis::search(net, m0, cap, n), cap, r.0, r.1, n as int, 0),
        analysis::search(net, m0, cap, n).seen[0] == m0,
    decreases n,
{
    if n == 0 {
        let js = seq![0int];
        let ts = seq![0int];
        (js, ts)
    } else {
        let s = analysis::search(net, m0, cap, (n - 1) as nat);
        let (js, ts) = lemma_traced(net, m0, cap, (n - 1) as nat);
        analysis::lemma_search(net, m0, cap, (n - 1) as nat);
        analysis::lemma_search(net, m0, cap, n);
        analysis::lemma_search_grows(net, m0, cap, (n - 1) as nat, n);
        let r = analysis::search(net, m0, cap, n);
        assert(r.seen.take(s.seen.len() as int)[0] == r.seen[0]);
        if n - 1 < s.seen.len() {
            let m = s.seen[n - 1];
            let en = net.enabled_list(m);
            net::lemma_enabled_below(net, m, net.trans.len());
            let (js2, ts2) = lemma_traced_after(net, s, cap, js, ts, n - 1, en.len(), m0.len());
            let low = if en.len() == 0 {
                0
            } else {
                en[en.len() - 1] + 1
            };
            assert(r.seen.take(s.seen.len() as int)[n - 1] == r.seen[n - 1]);
            assert forall|l: int, u: int|
                0 <= l < r.seen.len() && 0 <= u < net.trans.len() && #[trigger] net.enabled(
                    r.seen[l],
                    u,
                ) && earlier(l, u, n as int, 0) implies earlier(l, u, n - 1, low) by {
                if l == n - 1 {
                    assert(r.seen[l] == m);
                    assert(en.contains(u as usize));
                    let q = choose|q: int| 0 <= q < en.len() && en[q] == u as usize;
                    if q < en.len() - 1 {
                        assert(en[q] < en[en.len() - 1]);
                    }
                }
            }
            lemma_traced_on(net, r, cap, js2, ts2, n - 1, low, n as int, 0);
            (js2, ts2)
        } else {
            lemma_traced_on(net, s, cap, js, ts, n - 1, 0, n as int, 0);
            (js, ts)
        }
    }
}

/// The dead ones among the first markings, as a filter gives them.
proof fn lemma_dead_filter(net: NetModel, ms: Seq<Seq<u32>>, k: nat)
    requires
        k <= ms.len(),
    ensures
        analysis::dead_among(net, ms, k) == ms.take(k as int).filter(|m: Seq<u32>| net.dead(m)),
    decreases k,
{
    reveal(Seq::filter);
    if k > 0 {
        lemma_dead_filter(net, ms, (k - 1) as nat);
        assert(ms.take(k as int).drop_last() =~= ms.take(k - 1));
    }
}

/// The exploration is exactly the breadth-first one, of whatever length it is.
/// Its markings are different, the first of them is `m0`, and there are no
/// more of them than the cap. Each later one, number `i`, comes from an earlier
/// one, number `r.0[i]`, by the firing of transition `r.1[i]`. The firings are
/// tried marking by marking, and transition by transition, and a marking takes
/// its number when it is met for the first time: everything that was tried
/// before it stands before it.
pub proof fn law_exploration_order(net: Net, m0: Seq<u32>, cap: nat) -> (r: (Seq<int>, Seq<int>))
    ensures
        ({
            let ms = analysis::explored(net@, m0, cap).seen;
            &&& ms.no_duplicates()
            &&& ms.len() > 0
            &&& ms.len() <= cap || ms.len() == 1
            &&& ms[0] == m0
            &&& forall|i: int|
                0 < i < ms.len() ==> {
                    &&& 0 <= #[trigger] r.0[i] < i
                    &&& 0 <= r.1[i] < net@.trans.len()
                    &&& net@.enabled(ms[r.0[i]], r.1[i])
                    &&& ms[i] == net@.fired(ms[r.0[i]], r.1[i])
                }
            &&& forall|i: int, l: int, u: int|
                #![trigger r.0[i], net@.enabled(ms[l], u)]
                0 < i < ms.len() && 0 <= l < ms.len() && 0 <= u < net@.trans.len() && net@.enabled(
                    ms[l],
                    u,
                ) && (l < r.0[i] || (l == r.0[i] && u < r.1[i])) ==> ms.take(i).contains(
                    net@.fired(ms[l], u),
                )
        }),
{
    assert(net@.trans.len() == net.trans.len());
    let top = analysis::limit(cap);
    analysis::lemma_search(net@, m0, cap, top);
    lemma_traced(net@, m0, cap, top)
}

/// When the exploration ends. Unless it was cut short, it has visited whatever
/// a firing leads to from one of its markings. It was cut short exactly if
/// there were as many markings as the cap, and a firing was left to try once
/// the last of them had been met.
pub proof fn law_exploration_end(net: Net, m0: Seq<u32>, cap: nat, a: Analysis)
    requires
        a.reports(net@, m0, cap),
    ensures
        a.states == analysis::explored(net@, m0, cap).seen.len(),
        ({
            let ms = analysis::explored(net@, m0, cap).seen;
            !a.truncated ==> forall|l: int, u: int|
                0 <= l < ms.len() && 0 <= u < net@.trans.len() && #[trigger] net@.enabled(ms[l], u)
                    ==> ms.contains(net@.fired(ms[l], u))
        }),
        a.truncated ==> a.states >= cap,
        a.states == 1 && cap <= 1 ==> (a.truncated <==> !net@.dead(m0)),
        ({
            let ms = analysis::explored(net@, m0, cap).seen;
            a.states > 1 && a.states >= cap ==> (a.truncated <==> exists|
                l: int,
                u: int,
                k: int,
                v: int,
            |
                {
                    &&& 0 <= l < ms.len() && 0 <= u < net@.trans.len()
                    &&& #[trigger] net@.enabled(ms[l], u)
                    &&& 0 <= k < ms.len() && 0 <= v < net@.trans.len()
                    &&& #[trigger] net@.enabled(ms[k], v)
                    &&& net@.fired(ms[k], v) == ms.last()
                    &&& k < l || (k == l && v < u)
                })
        }),
{
    assert(net@.trans.len() == net.trans.len());
    let top = analysis::limit(cap);
    let ms = analysis::explored(net@, m0, cap).seen;
    let (js, ts) = lemma_traced(net@, m0, cap, top);
    analysis::lemma_search(net@, m0, cap, top);
    let last = ms.len() - 1;
    if !a.truncated {
        assert forall|l: int, u: int|
            0 <= l < ms.len() && 0 <= u < net@.trans.len() && #[trigger] net@.enabled(
                ms[l],
                u,
            ) implies ms.contains(net@.fired(ms[l], u)) by {
            assert(earlier(l, u, top as int, 0));
        }
    }
    if a.truncated {
        let (l, u) = choose|l: int, u: int|
            0 <= l < ms.len() && 0 <= u < net@.trans.len() && #[trigger] net@.enabled(ms[l], u)
                && earlier(l, u, top as int, 0) && (ms.len() == 1 || earlier(
                js.last(),
                ts.last(),
                l,
                u,
            ));
        if ms.len() > 1 {
            assert(js[last] == js.last());
            assert(net@.enabled(ms[l], u) && net@.enabled(ms[js[last]], ts[last]));
        } else {
            assert(net@.enabled(m0, u));
        }
    }
    if ms.len() == 1 && cap <= 1 && !net@.dead(m0) {
        let u = choose|u: int| 0 <= u < net@.trans.len() && net@.enabled(m0, u);
        assert(net@.enabled(ms[0], u) && earlier(0, u, top as int, 0));
    }
    if ms.len() > 1 && ms.len() >= cap && exists|l: int, u: int, k: int, v: int|
        {
            &&& 0 <= l < ms.len() && 0 <= u < net@.trans.len()
            &&& #[trigger] net@.enabled(ms[l], u)
            &&& 0 <= k < ms.len() && 0 <= v < net@.trans.len()
            &&& #[trigger] net@.enabled(ms[k], v)
            &&& net@.fired(ms[k], v) == ms.last()
            &&& k < l || (k == l && v < u)
        } {
        let (l, u, k, v) = choose|l: int, u: int, k: int, v: int|
            {
                &&& 0 <= l < ms.len() && 0 <= u < net@.trans.len()
                &&& #[trigger] net@.enabled(ms[l], u)
                &&& 0 <= k < ms.len() && 0 <= v < net@.trans.len()
                &&& #[trigger] net@.enabled(ms[k], v)
                &&& net@.fired(ms[k], v) == ms.last()
                &&& k < l || (k == l && v < u)
            };
        assert(js[last] == js.last());
        if earlier(k, v, js[last], ts[last]) {
            assert(net@.enabled(ms[k], v));
            let e = choose|e: int| 0 <= e < last && #[trigger] ms.take(last)[e] == ms.last();
            assert(ms[e] == ms[last]);
        }
        assert(net@.enabled(ms[l], u) && earlier(l, u, top as int, 0) && earlier(
            js.last(),
            ts.last(),
            l,
            u,
        ));
    }
}

/// What is read off the markings of an exploration, be it cut short or not:
/// the dead ones among them are counted, and the first three of these are the
/// examples; the bound of a place is the largest number of tokens that one of
/// them has there.
pub proof fn law_exploration_results(net: Net, m0: Seq<u32>, cap: nat, a: Analysis)
    requires
        a.reports(net@, m0, cap),
    ensures
        ({
            let ms = analysis::explored(net@, m0, cap).seen;
            let dead = ms.filter(|m: Seq<u32>| net@.dead(m));
            &&& a.deadlock_count == dead.len()
            &&& a.deadlocks@.len() == (if dead.len() < 3 {
                dead.len() as int
            } else {
                3
            })
            &&& forall|e: int|
                0 <= e < a.deadlocks@.len() ==> (#[trigger] a.deadlocks@[e])@ == dead[e]
        }),
        a.max_tokens@.len() == m0.len(),
        ({
            let ms = analysis::explored(net@, m0, cap).seen;
            forall|i: int, p: int|
                0 <= i < ms.len() && 0 <= p < m0.len() ==> #[trigger] ms[i][p] <= a.max_tokens@[p]
        }),
        ({
            let ms = analysis::explored(net@, m0, cap).seen;
            forall|p: int|
                #![trigger a.max_tokens@[p]]
                0 <= p < m0.len() ==> exists|i: int|
                    #![trigger ms[i]]
                    0 <= i < ms.len() && ms[i][p] == a.max_tokens@[p]
        }),
{
    assert(net@.trans.len() == net.trans.len());
    let top = analysis::limit(cap);
    let ms = analysis::explored(net@, m0, cap).seen;
    let _ = lemma_traced(net@, m0, cap, top);
    analysis::lemma_search(net@, m0, cap, top);
    lemma_dead_filter(net@, ms, ms.len());
    assert(ms.take(ms.len() as int) =~= ms);
    let d = ms.filter(|m: Seq<u32>| net@.dead(m));
    let views = analysis::marking_views(a.deadlocks@);
    assert(views.len() == a.deadlocks@.len());
    assert forall|e: int| 0 <= e < a.deadlocks@.len() implies (#[trigger] a.deadlocks@[e])@
        == d[e] by {
        assert(views[e] == d[e]);
    }
    assert forall|i: int, p: int| 0 <= i < ms.len() && 0 <= p < m0.len() implies #[trigger] ms[i][p]
        <= a.max_tokens@[p] by {
        lemma_most_tokens(ms, p, ms.len(), m0[p]);
    }
    assert forall|p: int|
        #![trigger a.max_tokens@[p]]
        0 <= p < m0.len() implies exists|i: int|
        #![trigger ms[i]]
        0 <= i < ms.len() && ms[i][p] == a.max_tokens@[p] by {
        lemma_most_tokens(ms, p, ms.len(), m0[p]);
        if a.max_tokens@[p] == m0[p] {
            assert(ms[0][p] == a.max_tokens@[p]);
        } else {
            let i = choose|i: int| 0 <= i < ms.len() && (#[trigger] ms[i])[p] == a.max_tokens@[p];
            assert(ms[i][p] == a.max_tokens@[p]);
        }
    }
}

/// A deadlock that is near enough is found, even where the exploration was cut
/// short: if `n` firings lead to a dead marking, and no more markings than the
/// cap can be reached within `n` firings, a dead marking is counted.
pub proof fn law_near_deadlock_found(
    net: Net,
    m0: Seq<u32>,
    cap: nat,
    a: Analysis,
    m: Seq<u32>,
    n: nat,
)
    requires
        sound(net, m0, cap, a),
        reachable_in(net@, m0, m, n),
        net@.dead(m),
        Set::new(|x: Seq<u32>| reachable_within(net@, m0, x, n)).finite(),
        Set::new(|x: Seq<u32>| reachable_within(net@, m0, x, n)).len() <= cap,
    ensures
        a.deadlock_count > 0,
        a.deadlocks@.len() > 0,
        report::exit_code_of(a) == 2,
{
    assert(net@.trans.len() == net.trans.len());
    let ms = analysis::explored(net@, m0, cap).seen;
    let near = Set::new(|x: Seq<u32>| reachable_within(net@, m0, x, n));
    analysis::lemma_search(net@, m0, cap, analysis::limit(cap));
    assert(near.contains(m)) by {
        assert(reachable_in(net@, m0, m, n));
    }
    if !ms.contains(m) {
        if !a.truncated {
            lemma_reachable_seen(net@, m0, cap, m, n);
        }
        ms.unique_seq_to_set();
        assert forall|x: Seq<u32>| ms.to_set().insert(m).contains(x) implies near.contains(x) by {
            if x != m {
                let i = choose|i: int| 0 <= i < ms.len() && ms[i] == x;
                if ms.take(i).contains(m) {
                    let e = choose|e: int| 0 <= e < i && #[trigger] ms.take(i)[e] == m;
                    assert(ms[e] == m);
                }
                law_breadth_first(net@, m0, cap, i, m, n);
            }
        }
        vstd::set_lib::lemma_len_subset(ms.to_set().insert(m), near);
        assert(!ms.to_set().contains(m));
        assert(ms.to_set().insert(m).len() == ms.len() + 1);
    }
    lemma_dead_among(net@, ms, ms.len());
    assert(ms.take(ms.len() as int) =~= ms);
    let d = analysis::dead_among(net@, ms, ms.len());
    assert(d.contains(m));
    law_deadlocks_real(net, m0, cap, a);
}

/// Where no reachable marking makes a place overflow, every marking of the
/// exploration is reachable.
proof fn lemma_traced_reachable(
    net: NetModel,
    m0: Seq<u32>,
    s: Search,
    cap: nat,
    js: Seq<int>,
    ts: Seq<int>,
    k: int,
    i: int,
)
    requires
        traced(net, s, cap, js, ts, k, 0),
        s.seen.len() > 0,
        s.seen[0] == m0,
        0 <= i < s.seen.len(),
        forall|m: Seq<u32>, t: int|
            reachable(net, m0, m) && 0 <= t < net.trans.len() && #[trigger] net.enabled(m, t)
                ==> net.has_room(m, t),
    ensures
        reachable(net, m0, s.seen[i]),
    decreases i,
{
    law_reachable_closed(net, m0, m0, m0);
    if i > 0 {
        assert(0 <= js[i] < i);
        let a = s.seen[js[i]];
        lemma_traced_reachable(net, m0, s, cap, js, ts, k, js[i]);
        assert(net.enabled(a, ts[i]));
        assert(steps_to(net, a, s.seen[i]));
        law_reachable_closed(net, m0, a, s.seen[i]);
    }
}

/// An exploration is given up only where a place can really overflow: if
/// every reachable marking has room for the firings that it enables, none of
/// them is in the way.
pub proof fn law_given_up_on_overflow_only(net: Net, m0: Seq<u32>, cap: nat)
    requires
        forall|m: Seq<u32>, t: int|
            reachable(net@, m0, m) && 0 <= t < net@.trans.len() && #[trigger] net@.enabled(m, t)
                ==> net@.has_room(m, t),
    ensures
        analysis::countable(net@, analysis::explored(net@, m0, cap).seen),
{
    assert(net@.trans.len() == net.trans.len());
    let top = analysis::limit(cap);
    let s = analysis::explored(net@, m0, cap);
    let (js, ts) = lemma_traced(net@, m0, cap, top);
    analysis::lemma_search(net@, m0, cap, top);
    assert forall|i: int, t: int|
        0 <= i < s.seen.len() && 0 <= t < net@.trans.len() && #[trigger] net@.enabled(
            s.seen[i],
            t,
        ) implies net@.has_room(s.seen[i], t) by {
        lemma_traced_reachable(net@, m0, s, cap, js, ts, top as int, i);
    }
}

/// Markings can be explored exactly if each has room for every firing that it
/// enables.
pub proof fn law_countable(net: NetModel, ms: Seq<Seq<u32>>)
    ensures
        analysis::countable(net, ms) <==> !(exists|i: int, t: int|
            0 <= i < ms.len() && 0 <= t < net.trans.len() && #[trigger] net.enabled(ms[i], t)
                && !net.has_room(ms[i], t)),
{
}

/// Whoever can be reached by `n` firings is reached by a run: a sequence of
/// markings from `m0` to `m`, of which each comes from the one before by a
/// firing.
pub proof fn law_run_to(net: NetModel, m0: Seq<u32>, m: Seq<u32>, n: nat) -> (run: Seq<Seq<u32>>)
    requires
        reachable_in(net, m0, m, n),
    ensures
        run.len() == n + 1,
        run[0] == m0,
        run[n as int] == m,
        forall|i: int| 0 <= i < n ==> steps_to(net, #[trigger] run[i], run[i + 1]),
    decreases n,
{
    if n == 0 {
        seq![m]
    } else {
        let a = choose|a: Seq<u32>|
            reachable_in(net, m0, a, (n - 1) as nat) && #[trigger] steps_to(net, a, m);
        let r = law_run_to(net, m0, a, (n - 1) as nat);
        let run = r.push(m);
        assert forall|i: int| 0 <= i < n implies steps_to(net, #[trigger] run[i], run[i + 1]) by {
            if i < n - 1 {
                assert(run[i] == r[i]);
                assert(run[i + 1] == r[i + 1]);
            }
        }
        run
    }
}

/// The end of a run can be reached by as many firings as the run has.
pub proof fn law_run_reaches(net: NetModel, run: Seq<Seq<u32>>, n: nat)
    requires
        run.len() == n + 1,
        forall|i: int| 0 <= i < n ==> steps_to(net, #[trigger] run[i], run[i + 1]),
    ensures
        reachable_in(net, run[0], run[n as int], n),
    decreases n,
{
    if n > 0 {
        let r = run.drop_last();
        assert forall|i: int| 0 <= i < n - 1 implies steps_to(net, #[trigger] r[i], r[i + 1]) by {
            assert(steps_to(net, run[i], run[i + 1]));
        }
        law_run_reaches(net, r, (n - 1) as nat);
        assert(steps_to(net, run[n - 1], run[n as int]));
    }
}

/// A step is the firing of one enabled transition with room for its tokens.
pub proof fn law_step(net: NetModel, a: Seq<u32>, b: Seq<u32>)
    ensures
        steps_to(net, a, b) <==> exists|t: int|
            0 <= t < net.trans.len() && #[trigger] net.enabled(a, t) && net.has_room(a, t)
                && net.fired(a, t) == b,
{
}

/// A marking can be reached exactly if some number of firings leads there.
pub proof fn law_reachable(net: NetModel, m0: Seq<u32>, m: Seq<u32>)
    ensures
        reachable(net, m0, m) <==> exists|n: nat| reachable_in(net, m0, m, n),
        reachable_set(net, m0).contains(m) <==> reachable(net, m0, m),
        dead_set(net, m0).contains(m) <==> reachable(net, m0, m) && net.dead(m),
        forall|n: nat| #[trigger]
            reachable_within(net, m0, m, n) <==> exists|k: nat|
                k <= n && #[trigger] reachable_in(net, m0, m, k),
{
}

// ---------------------------------------------------------------------
// Small counts
// ---------------------------------------------------------------------

/// A search never overflows where the counts are small enough for its cap: if
/// no transition puts more than `w` tokens on a place, as many firings as the
/// cap allows markings cannot exceed what 32 bits count.
pub proof fn law_small_counts_do_not_overflow(net: NetModel, m0: Seq<u32>, cap: nat, w: nat)
    requires
        net.trans.len() <= usize::MAX,
        forall|t: int, p: int|
            0 <= t < net.trans.len() && 0 <= p < m0.len() ==> #[trigger] net.put(t, p) <= w,
        forall|p: int|
            0 <= p < m0.len() ==> #[trigger] m0[p] + analysis::limit(cap) * w <= u32::MAX,
    ensures
        analysis::countable(net, analysis::explored(net, m0, cap).seen),
{
    let top = analysis::limit(cap);
    let ms = analysis::explored(net, m0, cap).seen;
    analysis::lemma_search(net, m0, cap, top);
    lemma_counts_grow(net, m0, cap, w, top);
    assert forall|i: int, t: int|
        0 <= i < ms.len() && 0 <= t < net.trans.len() && #[trigger] net.enabled(
            ms[i],
            t,
        ) implies net.has_room(ms[i], t) by {
        assert forall|p: int| 0 <= p < ms[i].len() implies ms[i][p] - #[trigger] net.taken(t, p)
            + net.put(t, p) <= u32::MAX by {
            assert(ms[i][p] <= m0[p] + i * w);
            assert(net.put(t, p) <= w);
            assert(i * w + w <= top * w) by (nonlinear_arith)
                requires
                    i < top,
                    w >= 0,
            ;
        }
    }
}

/// The marking at position `i` of a search holds at most `i` times `w` tokens
/// more on each place than the first.
proof fn lemma_counts_grow(net: NetModel, m0: Seq<u32>, cap: nat, w: nat, n: nat)
    requires
        net.trans.len() <= usize::MAX,
        n <= analysis::limit(cap),
        forall|t: int, p: int|
            0 <= t < net.trans.len() && 0 <= p < m0.len() ==> #[trigger] net.put(t, p) <= w,
        forall|p: int|
            0 <= p < m0.len() ==> #[trigger] m0[p] + analysis::limit(cap) * w <= u32::MAX,
    ensures
        grown(analysis::search(net, m0, cap, n).seen, m0, w),
    decreases n,
{
    if n > 0 {
        let s = analysis::search(net, m0, cap, (n - 1) as nat);
        lemma_counts_grow(net, m0, cap, w, (n - 1) as nat);
        analysis::lemma_search(net, m0, cap, (n - 1) as nat);
        if n - 1 < s.seen.len() {
            let m = s.seen[n - 1];
            let ts = net.enabled_list(m);
            net::lemma_enabled_below(net, m, net.trans.len());
            lemma_met_grown(s, net, m0, cap, w, n, ts, ts.len());
        }
    }
}

/// See `lemma_counts_grow`.
spec fn grown(ms: Seq<Seq<u32>>, m0: Seq<u32>, w: nat) -> bool {
    forall|i: int, p: int|
        0 <= i < ms.len() && 0 <= p < m0.len() ==> #[trigger] ms[i][p] <= m0[p] + i * w
}

proof fn lemma_met_grown(
    s: Search,
    net: NetModel,
    m0: Seq<u32>,
    cap: nat,
    w: nat,
    n: nat,
    ts: Seq<usize>,
    k: nat,
)
    requires
        0 < n <= s.seen.len(),
        analysis::orderly(s, m0.len(), cap),
        grown(s.seen, m0, w),
        k <= ts.len(),
        forall|i: int|
            0 <= i < ts.len() ==> #[trigger] ts[i] < net.trans.len() && net.enabled(
                s.seen[n - 1],
                ts[i] as int,
            ),
        forall|t: int, p: int|
            0 <= t < net.trans.len() && 0 <= p < m0.len() ==> #[trigger] net.put(t, p) <= w,
        forall|p: int|
            0 <= p < m0.len() ==> #[trigger] m0[p] + analysis::limit(cap) * w <= u32::MAX,
    ensures
        grown(s.met_after(net, s.seen[n - 1], ts, k, cap).seen, m0, w),
    decreases k,
{
    if k > 0 {
        let m = s.seen[n - 1];
        let a = s.met_after(net, m, ts, (k - 1) as nat, cap);
        let b = s.met_after(net, m, ts, k, cap);
        lemma_met_grown(s, net, m0, cap, w, n, ts, (k - 1) as nat);
        analysis::lemma_met_after(s, net, m, ts, (k - 1) as nat, m0.len(), cap);
        let t = ts[k - 1] as int;
        let f = net.fired(m, t);
        let top = analysis::limit(cap);
        assert forall|i: int, p: int| 0 <= i < b.seen.len() && 0 <= p < m0.len() implies
            #[trigger] b.seen[i][p] <= m0[p] + i * w by {
            if i < a.seen.len() {
                assert(b.seen[i] == a.seen[i]);
                assert(a.seen[i][p] <= m0[p] + i * w);
            } else {
                assert(b.seen[i] == f);
                assert(m[p] <= m0[p] + (n - 1) * w);
                assert(net.put(t, p) <= w);
                assert(net.enabled(m, t));
                assert(net.taken(t, p) <= m[p]);
                assert((n - 1) * w + w <= i * w) by (nonlinear_arith)
                    requires
                        n <= i,
                        w >= 0,
                ;
                assert(i * w <= top * w) by (nonlinear_arith)
                    requires
                        i < top,
                        w >= 0,
                ;
                assert(m0[p] + top * w <= u32::MAX);
            }
        }
    }
}

} // verus!

//! Bounded breadth-first exploration of the reachable markings.
use crate::net::{Net, NetModel};
use crate::visited::Visited;
use vstd::prelude::*;
use vstd::slice::slice_to_vec;

verus! {

/// What an exploration found.
pub struct Analysis {
    /// The number of markings that were visited.
    pub states: usize,
    /// Whether the exploration ran into its cap.
    pub truncated: bool,
    /// The first dead markings that were visited, three at most.
    pub deadlocks: Vec<Vec<u32>>,
    /// The number of dead markings that were visited.
    pub deadlock_count: usize,
    /// For each place the largest number of tokens that was seen on it.
    pub max_tokens: Vec<u32>,
}

// ---------------------------------------------------------------------
// The search
// ---------------------------------------------------------------------

/// A search in progress: the markings met so far, in the order in which they
/// were met, and whether a successor was left aside because of the cap.
#[verifier::ext_equal]
pub struct Search {
    pub seen: Seq<Seq<u32>>,
    pub truncated: bool,
}

impl Search {
    /// The search once the marking `m` has been met: with `cap` markings seen
    /// it is left aside, otherwise it joins the others if it is new.
    pub open spec fn met(self, m: Seq<u32>, cap: nat) -> Search {
        if self.seen.len() >= cap {
            Search { seen: self.seen, truncated: true }
        } else if self.seen.contains(m) {
            self
        } else {
            Search { seen: self.seen.push(m), truncated: self.truncated }
        }
    }

    /// The search once the first `k` of the transitions `ts` have been fired
    /// under `m`.
    pub open spec fn met_after(
        self,
        net: NetModel,
        m: Seq<u32>,
        ts: Seq<usize>,
        k: nat,
        cap: nat,
    ) -> Search
        decreases k,
    {
        if k == 0 {
            self
        } else {
            self.met_after(net, m, ts, (k - 1) as nat, cap).met(
                net.fired(m, ts[k - 1] as int),
                cap,
            )
        }
    }

    /// The search once all transitions enabled under `m` have been fired.
    pub open spec fn expanded(self, net: NetModel, m: Seq<u32>, cap: nat) -> Search {
        let ts = net.enabled_list(m);
        self.met_after(net, m, ts, ts.len(), cap)
    }
}

/// The search from `m0` once the first `n` markings have been expanded, or
/// all of them where there are fewer.
pub open spec fn search(net: NetModel, m0: Seq<u32>, cap: nat, n: nat) -> Search
    decreases n,
{
    if n == 0 {
        Search { seen: seq![m0], truncated: false }
    } else {
        let s = search(net, m0, cap, (n - 1) as nat);
        if n - 1 < s.seen.len() {
            s.expanded(net, s.seen[n - 1], cap)
        } else {
            s
        }
    }
}

/// The most markings that a search with the given cap meets.
pub open spec fn limit(cap: nat) -> nat {
    if cap == 0 {
        1
    } else {
        cap
    }
}

/// The whole search from `m0`: as it never meets more than `limit(cap)`
/// markings, it is over once that many have been expanded.
pub open spec fn explored(net: NetModel, m0: Seq<u32>, cap: nat) -> Search {
    search(net, m0, cap, limit(cap))
}

/// No firing under one of the markings makes a place overflow.
pub open spec fn countable(net: NetModel, ms: Seq<Seq<u32>>) -> bool {
    forall|i: int, t: int|
        0 <= i < ms.len() && 0 <= t < net.trans.len() && #[trigger] net.enabled(ms[i], t)
            ==> net.has_room(ms[i], t)
}

/// The dead ones among the first `k` markings, in order.
pub open spec fn dead_among(net: NetModel, ms: Seq<Seq<u32>>, k: nat) -> Seq<Seq<u32>>
    decreases k,
{
    if k == 0 {
        Seq::empty()
    } else if net.dead(ms[k - 1]) {
        dead_among(net, ms, (k - 1) as nat).push(ms[k - 1])
    } else {
        dead_among(net, ms, (k - 1) as nat)
    }
}

/// The first three of the markings, or all where there are fewer.
pub open spec fn first_three(ms: Seq<Seq<u32>>) -> Seq<Seq<u32>> {
    ms.take(if ms.len() < 3 {
        ms.len() as int
    } else {
        3
    })
}

/// The largest number of tokens on the place `p` in the first `k` markings,
/// and at least `start`.
pub open spec fn most_tokens(ms: Seq<Seq<u32>>, p: int, k: nat, start: u32) -> u32
    decreases k,
{
    if k == 0 {
        start
    } else {
        let before = most_tokens(ms, p, (k - 1) as nat, start);
        if ms[k - 1][p] > before {
            ms[k - 1][p]
        } else {
            before
        }
    }
}

/// For each place the largest number of tokens in the first `k` markings,
/// counting `m0` in.
pub open spec fn bounds(ms: Seq<Seq<u32>>, m0: Seq<u32>, k: nat) -> Seq<u32> {
    Seq::new(m0.len(), |p: int| most_tokens(ms, p, k, m0[p]))
}

/// The views of a sequence of markings.
pub open spec fn marking_views(v: Seq<Vec<u32>>) -> Seq<Seq<u32>> {
    Seq::new(v.len(), |i: int| v[i]@)
}

impl Analysis {
    /// `self` reports exactly what the search from `m0` with this cap finds.
    pub open spec fn reports(self, net: NetModel, m0: Seq<u32>, cap: nat) -> bool {
        let s = explored(net, m0, cap);
        let dead = dead_among(net, s.seen, s.seen.len());
        &&& self.states == s.seen.len()
        &&& self.truncated == s.truncated
        &&& self.deadlock_count == dead.len()
        &&& marking_views(self.deadlocks@) == first_three(dead)
        &&& self.max_tokens@ == bounds(s.seen, m0, s.seen.len())
    }

    /// The analysis counts tokens for every place of the net.
    pub open spec fn fits(self, net: NetModel) -> bool {
        &&& net.marks(self.max_tokens@)
        &&& forall|i: int|
            0 <= i < self.deadlocks@.len() ==> net.marks((#[trigger] self.deadlocks@[i])@)
    }
}

// ---------------------------------------------------------------------
// Facts about the search
// ---------------------------------------------------------------------

/// The markings of `a` stand, in order, at the beginning of `b`.
pub open spec fn grows(a: Search, b: Search) -> bool {
    &&& a.seen.len() <= b.seen.len()
    &&& b.seen.take(a.seen.len() as int) == a.seen
    &&& a.truncated ==> b.truncated
}

/// What holds of every search: its markings are distinct, as long as the
/// first, and no more than the cap allows; it was truncated only at the cap.
pub open spec fn orderly(s: Search, width: nat, cap: nat) -> bool {
    &&& 1 <= s.seen.len() <= limit(cap)
    &&& s.seen.no_duplicates()
    &&& forall|i: int| 0 <= i < s.seen.len() ==> (#[trigger] s.seen[i]).len() == width
    &&& s.truncated ==> s.seen.len() >= cap
}

proof fn lemma_grows_trans(a: Search, b: Search, c: Search)
    requires
        grows(a, b),
        grows(b, c),
    ensures
        grows(a, c),
{
    assert(c.seen.take(a.seen.len() as int) =~= b.seen.take(a.seen.len() as int)) by {
        assert(forall|i: int|
            0 <= i < b.seen.len() ==> c.seen.take(b.seen.len() as int)[i] == c.seen[i]);
    }
}

proof fn lemma_met(s: Search, m: Seq<u32>, width: nat, cap: nat)
    requires
        orderly(s, width, cap),
        m.len() == width,
    ensures
        orderly(s.met(m, cap), width, cap),
        grows(s, s.met(m, cap)),
        !s.met(m, cap).truncated ==> s.met(m, cap).seen.contains(m),
        forall|x: Seq<u32>|
            s.met(m, cap).seen.contains(x) ==> s.seen.contains(x) || x == m,
{
    let r = s.met(m, cap);
    assert(r.seen.take(s.seen.len() as int) =~= s.seen);
    if r.seen.len() > s.seen.len() {
        assert(r.seen[s.seen.len() as int] == m);
        assert forall|x: Seq<u32>| r.seen.contains(x) implies s.seen.contains(x) || x == m by {
            let i = choose|i: int| 0 <= i < r.seen.len() && r.seen[i] == x;
            if i < s.seen.len() {
                assert(s.seen[i] == x);
            }
        }
        assert(r.seen.no_duplicates()) by {
            assert forall|i: int, j: int|
                0 <= i < r.seen.len() && 0 <= j < r.seen.len() && i != j implies r.seen[i]
                != r.seen[j] by {
                if i == s.seen.len() {
                    assert(s.seen.contains(s.seen[j]));
                } else if j == s.seen.len() {
                    assert(s.seen.contains(s.seen[i]));
                }
            }
        }
    }
}

pub proof fn lemma_met_after(
    s: Search,
    net: NetModel,
    m: Seq<u32>,
    ts: Seq<usize>,
    k: nat,
    width: nat,
    cap: nat,
)
    requires
        orderly(s, width, cap),
        m.len() == width,
        k <= ts.len(),
    ensures
        orderly(s.met_after(net, m, ts, k, cap), width, cap),
        grows(s, s.met_after(net, m, ts, k, cap)),
        !s.met_after(net, m, ts, k, cap).truncated ==> forall|i: int|
            0 <= i < k ==> s.met_after(net, m, ts, k, cap).seen.contains(
                net.fired(m, #[trigger] ts[i] as int),
            ),
        forall|x: Seq<u32>| #[trigger]
            s.met_after(net, m, ts, k, cap).seen.contains(x) ==> s.seen.contains(x) || exists|
                i: int,
            |
                0 <= i < k && x == net.fired(m, #[trigger] ts[i] as int),
    decreases k,
{
    let r = s.met_after(net, m, ts, k, cap);
    if k == 0 {
        assert(s.seen.take(s.seen.len() as int) =~= s.seen);
    } else {
        let a = s.met_after(net, m, ts, (k - 1) as nat, cap);
        let x = net.fired(m, ts[k - 1] as int);
        lemma_met_after(s, net, m, ts, (k - 1) as nat, width, cap);
        lemma_met(a, x, width, cap);
        lemma_grows_trans(s, a, r);
        if !r.truncated {
            assert forall|i: int| 0 <= i < k implies r.seen.contains(
                net.fired(m, #[trigger] ts[i] as int),
            ) by {
                if i < k - 1 {
                    let f = net.fired(m, ts[i] as int);
                    assert(a.seen.contains(f));
                    lemma_grows_contains(a, r, f);
                }
            }
        }
        assert forall|y: Seq<u32>| #[trigger] r.seen.contains(y) implies s.seen.contains(y)
            || exists|i: int| 0 <= i < k && y == net.fired(m, #[trigger] ts[i] as int) by {
            if a.seen.contains(y) && !s.seen.contains(y) {
                let i = choose|i: int|
                    0 <= i < k - 1 && y == net.fired(m, #[trigger] ts[i] as int);
                assert(y == net.fired(m, ts[i] as int));
            } else if !a.seen.contains(y) {
                assert(y == net.fired(m, ts[k - 1] as int));
            }
        }
    }
}

pub proof fn lemma_grows_contains(a: Search, b: Search, m: Seq<u32>)
    requires
        grows(a, b),
        a.seen.contains(m),
    ensures
        b.seen.contains(m),
{
    let i = choose|i: int| 0 <= i < a.seen.len() && a.seen[i] == m;
    assert(b.seen.take(a.seen.len() as int)[i] == m);
    assert(b.seen[i] == m);
}

/// Every search is orderly.
pub proof fn lemma_search(net: NetModel, m0: Seq<u32>, cap: nat, n: nat)
    ensures
        orderly(search(net, m0, cap, n), m0.len(), cap),
    decreases n,
{
    if n > 0 {
        let s = search(net, m0, cap, (n - 1) as nat);
        lemma_search(net, m0, cap, (n - 1) as nat);
        if n - 1 < s.seen.len() {
            let m = s.seen[n - 1];
            let ts = net.enabled_list(m);
            lemma_met_after(s, net, m, ts, ts.len(), m0.len(), cap);
        }
    }
}

/// A search only grows.
pub proof fn lemma_search_grows(net: NetModel, m0: Seq<u32>, cap: nat, n: nat, k: nat)
    requires
        n <= k,
    ensures
        grows(search(net, m0, cap, n), search(net, m0, cap, k)),
    decreases k,
{
    let a = search(net, m0, cap, n);
    if n == k {
        assert(a.seen.take(a.seen.len() as int) =~= a.seen);
    } else {
        let b = search(net, m0, cap, (k - 1) as nat);
        lemma_search_grows(net, m0, cap, n, (k - 1) as nat);
        if k - 1 < b.seen.len() {
            let m = b.seen[k - 1];
            let ts = net.enabled_list(m);
            lemma_search(net, m0, cap, (k - 1) as nat);
            lemma_met_after(b, net, m, ts, ts.len(), m0.len(), cap);
            lemma_grows_trans(a, b, search(net, m0, cap, k));
        }
    }
}

/// A search that has expanded all its markings is over.
pub proof fn lemma_search_over(net: NetModel, m0: Seq<u32>, cap: nat, n: nat, k: nat)
    requires
        n <= k,
        search(net, m0, cap, n).seen.len() <= n,
    ensures
        search(net, m0, cap, k) == search(net, m0, cap, n),
    decreases k,
{
    if n < k {
        lemma_search_over(net, m0, cap, n, (k - 1) as nat);
    }
}

/// What is read off the first markings does not depend on later ones.
proof fn lemma_prefix_stats(
    net: NetModel,
    a: Seq<Seq<u32>>,
    b: Seq<Seq<u32>>,
    m0: Seq<u32>,
    k: nat,
)
    requires
        k <= a.len() <= b.len(),
        b.take(a.len() as int) == a,
    ensures
        dead_among(net, a, k) == dead_among(net, b, k),
        bounds(a, m0, k) == bounds(b, m0, k),
    decreases k,
{
    if k > 0 {
        lemma_prefix_stats(net, a, b, m0, (k - 1) as nat);
        assert(b.take(a.len() as int)[k - 1] == a[k - 1]);
        assert forall|p: int| 0 <= p < m0.len() implies most_tokens(a, p, k, m0[p]) == most_tokens(
            b,
            p,
            k,
            m0[p],
        ) by {
            assert(bounds(a, m0, (k - 1) as nat)[p] == bounds(b, m0, (k - 1) as nat)[p]);
        }
        assert(bounds(a, m0, k) =~= bounds(b, m0, k));
    } else {
        assert(bounds(a, m0, k) =~= bounds(b, m0, k));
    }
}

/// Each dead marking is one of the markings.
proof fn lemma_dead_among_from(net: NetModel, ms: Seq<Seq<u32>>, k: nat, i: int)
    requires
        k <= ms.len(),
        0 <= i < dead_among(net, ms, k).len(),
    ensures
        exists|j: int| 0 <= j < k && #[trigger] ms[j] == dead_among(net, ms, k)[i],
    decreases k,
{
    let d = dead_among(net, ms, k);
    let e = dead_among(net, ms, (k - 1) as nat);
    if i < e.len() {
        lemma_dead_among_from(net, ms, (k - 1) as nat, i);
        let j = choose|j: int| 0 <= j < k - 1 && #[trigger] ms[j] == e[i];
        assert(ms[j] == d[i]);
    } else {
        assert(ms[k - 1] == d[i]);
    }
}

/// An analysis of a net fits the net.
proof fn lemma_reports_fit(net: NetModel, m0: Seq<u32>, cap: nat, a: Analysis)
    requires
        net.marks(m0),
        a.reports(net, m0, cap),
    ensures
        a.fits(net),
{
    let s = explored(net, m0, cap);
    let d = dead_among(net, s.seen, s.seen.len());
    lemma_search(net, m0, cap, limit(cap));
    assert(marking_views(a.deadlocks@).len() == first_three(d).len());
    assert forall|i: int| 0 <= i < a.deadlocks@.len() implies net.marks(
        (#[trigger] a.deadlocks@[i])@,
    ) by {
        assert(marking_views(a.deadlocks@)[i] == a.deadlocks@[i]@);
        assert(d[i] == a.deadlocks@[i]@);
        lemma_dead_among_from(net, s.seen, s.seen.len(), i);
    }
}

// ---------------------------------------------------------------------
// The exploration
// ---------------------------------------------------------------------

/// Raises every count of `most` to that of `m`, where `m` has more.
fn raise(most: &mut Vec<u32>, m: &Vec<u32>)
    requires
        old(most)@.len() == m@.len(),
    ensures
        final(most)@ == Seq::new(
            m@.len(),
            |p: int|
                if m@[p] > old(most)@[p] {
                    m@[p]
                } else {
                    old(most)@[p]
                },
        ),
{
    let mut i: usize = 0;
    while i < m.len()
        invariant
            i <= m@.len(),
            most@.len() == m@.len(),
            old(most)@.len() == m@.len(),
            forall|p: int|
                0 <= p < i ==> #[trigger] most@[p] == (if m@[p] > old(most)@[p] {
                    m@[p]
                } else {
                    old(most)@[p]
                }),
            forall|p: int| i <= p < m@.len() ==> #[trigger] most@[p] == old(most)@[p],
        decreases m@.len() - i,
    {
        if m[i] > most[i] {
            most.set(i, m[i]);
        }
        i = i + 1;
    }
    assert(most@ =~= Seq::new(
        m@.len(),
        |p: int|
            if m@[p] > old(most)@[p] {
                m@[p]
            } else {
                old(most)@[p]
            },
    ));
}

/// Explores the markings reachable from `m0`, up to `cap` of them, or gives
/// nothing where a firing makes a place overflow.
pub fn analyze_checked(net: &Net, m0: &[u32], cap: usize) -> (r: Option<Analysis>)
    requires
        net@.arcs_valid(),
        net@.marks(m0@),
    ensures
        r is Some <==> countable(net@, explored(net@, m0@, cap as nat).seen),
        r is Some ==> r->0.reports(net@, m0@, cap as nat) && r->0.fits(net@),
{
    let ghost nm = net@;
    let ghost c = cap as nat;
    let mut seen = Visited::new();
    seen.insert(slice_to_vec(m0));
    let mut truncated = false;
    let mut deadlocks: Vec<Vec<u32>> = Vec::new();
    let mut deadlock_count: usize = 0;
    let mut max_tokens: Vec<u32> = slice_to_vec(m0);
    let mut head: usize = 0;
    proof {
        assert(seen@ =~= seq![m0@]);
        assert(marking_views(deadlocks@) =~= first_three(Seq::empty()));
        assert(max_tokens@ =~= bounds(seen@, m0@, 0));
        lemma_search(nm, m0@, c, 0);
    }
    while head < seen.len()
        invariant
            nm == net@,
            c == cap as nat,
            nm.arcs_valid(),
            nm.marks(m0@),
            seen.inv(),
            head <= seen@.len(),
            search(nm, m0@, c, head as nat) == (Search { seen: seen@, truncated }),
            orderly(Search { seen: seen@, truncated }, m0@.len(), c),
            countable(nm, seen@.take(head as int)),
            deadlock_count == dead_among(nm, seen@, head as nat).len(),
            deadlock_count <= head,
            marking_views(deadlocks@) == first_three(dead_among(nm, seen@, head as nat)),
            max_tokens@ == bounds(seen@, m0@, head as nat),
        decreases limit(c) - head,
    {
        let ghost s = Search { seen: seen@, truncated };
        let m = seen.get(head);
        let ghost ts = nm.enabled_list(m@);
        assert(m@.len() == m0@.len());
        raise(&mut max_tokens, &m);
        assert(max_tokens@ =~= bounds(seen@, m0@, head as nat + 1));
        let en = net.enabled_set(m.as_slice());
        proof {
            assert(nm.trans.len() == net.trans.len());
            crate::net::lemma_dead_iff_no_enabled(nm, m@);
            crate::net::lemma_enabled_below(nm, m@, nm.trans.len());
        }
        if en.len() == 0 {
            let ghost before = dead_among(nm, seen@, head as nat);
            let ghost shown = marking_views(deadlocks@);
            deadlock_count = deadlock_count + 1;
            assert(deadlocks@.len() == first_three(before).len());
            if deadlocks.len() < 3 {
                deadlocks.push(slice_to_vec(m.as_slice()));
                assert(marking_views(deadlocks@) =~= shown.push(m@));
                assert(first_three(before) =~= before);
            }
            assert(marking_views(deadlocks@) =~= first_three(before.push(m@)));
        }
        let mut k: usize = 0;
        while k < en.len()
            invariant
                nm == net@,
                c == cap as nat,
                nm.arcs_valid(),
                nm.marks(m0@),
                m@.len() == m0@.len(),
                en@ == ts,
                ts == nm.enabled_list(m@),
                forall|i: int|
                    0 <= i < ts.len() ==> #[trigger] ts[i] < nm.trans.len() && nm.enabled(
                        m@,
                        ts[i] as int,
                    ),
                k <= ts.len(),
                seen.inv(),
                orderly(s, m0@.len(), c),
                s == search(nm, m0@, c, head as nat),
                head < s.seen.len(),
                m@ == s.seen[head as int],
                s.met_after(nm, m@, ts, k as nat, c) == (Search { seen: seen@, truncated }),
                forall|i: int| 0 <= i < k ==> nm.has_room(m@, #[trigger] ts[i] as int),
            decreases ts.len() - k,
        {
            let t = en[k];
            let m2 = match net.fire_checked(m.as_slice(), t) {
                None => {
                    proof {
                        assert(nm.enabled(m@, ts[k as int] as int));
                        lemma_search(nm, m0@, c, head as nat);
                        lemma_search_grows(nm, m0@, c, head as nat, limit(c));
                        let all = explored(nm, m0@, c).seen;
                        assert(all.take(s.seen.len() as int)[head as int] == m@);
                        assert(all[head as int] == m@);
                    }
                    return None;
                },
                Some(x) => x,
            };
            if seen.len() >= cap {
                truncated = true;
            } else {
                seen.insert(m2);
            }
            k = k + 1;
        }
        proof {
            lemma_met_after(s, nm, m@, ts, ts.len(), m0@.len(), c);
            let now = Search { seen: seen@, truncated };
            assert(search(nm, m0@, c, head as nat + 1) == now);
            assert forall|i: int, t: int|
                0 <= i < head + 1 && 0 <= t < nm.trans.len() && #[trigger] nm.enabled(
                    seen@.take(head + 1)[i],
                    t,
                ) implies nm.has_room(seen@.take(head + 1)[i], t) by {
                assert(seen@.take(s.seen.len() as int)[i] == s.seen[i]);
                if i == head {
                    assert(ts.contains(t as usize));
                    let j = choose|j: int| 0 <= j < ts.len() && ts[j] == t as usize;
                    assert(nm.has_room(m@, ts[j] as int));
                } else {
                    assert(s.seen.take(head as int)[i] == s.seen[i]);
                    assert(nm.enabled(s.seen.take(head as int)[i], t));
                }
            }
            lemma_prefix_stats(nm, s.seen, seen@, m0@, head as nat + 1);
        }
        head = head + 1;
    }
    proof {
        lemma_search_over(nm, m0@, c, head as nat, limit(c));
        assert(seen@.take(head as int) =~= seen@);
    }
    let a = Analysis { states: head, truncated, deadlocks, deadlock_count, max_tokens };
    proof {
        lemma_reports_fit(nm, m0@, c, a);
    }
    Some(a)
}

/// Explores the markings reachable from `m0`, up to `cap` of them.
pub fn analyze(net: &Net, m0: &[u32], cap: usize) -> (a: Analysis)
    requires
        net@.arcs_valid(),
        net@.marks(m0@),
        countable(net@, explored(net@, m0@, cap as nat).seen),
    ensures
        a.reports(net@, m0@, cap as nat),
        a.fits(net@),
{
    analyze_checked(net, m0, cap).unwrap()
}

} // verus!

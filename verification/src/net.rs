//! Petri nets: places, transitions, markings, and the firing rule.
use vstd::prelude::*;
use vstd::slice::slice_to_vec;

verus! {

/// A place with its initial number of tokens.
pub struct PlaceDef {
    pub name: String,
    pub init: u32,
}

/// A transition. Its arcs are place indices; repeating a place gives the arc
/// its weight.
pub struct Trans {
    pub name: String,
    pub ins: Vec<usize>,
    pub outs: Vec<usize>,
}

/// A net: its places and its transitions.
pub struct Net {
    pub places: Vec<PlaceDef>,
    pub trans: Vec<Trans>,
}

// ---------------------------------------------------------------------
// The mathematical model
// ---------------------------------------------------------------------

/// A place, mathematically.
#[verifier::ext_equal]
pub struct PlaceModel {
    pub name: Seq<char>,
    pub init: u32,
}

/// A transition, mathematically.
#[verifier::ext_equal]
pub struct TransModel {
    pub name: Seq<char>,
    pub ins: Seq<usize>,
    pub outs: Seq<usize>,
}

/// A net, mathematically.
#[verifier::ext_equal]
pub struct NetModel {
    pub places: Seq<PlaceModel>,
    pub trans: Seq<TransModel>,
}

impl View for PlaceDef {
    type V = PlaceModel;

    open spec fn view(&self) -> PlaceModel {
        PlaceModel { name: self.name@, init: self.init }
    }
}

impl View for Trans {
    type V = TransModel;

    open spec fn view(&self) -> TransModel {
        TransModel { name: self.name@, ins: self.ins@, outs: self.outs@ }
    }
}

impl View for Net {
    type V = NetModel;

    open spec fn view(&self) -> NetModel {
        NetModel {
            places: Seq::new(self.places@.len(), |i: int| self.places@[i]@),
            trans: Seq::new(self.trans@.len(), |i: int| self.trans@[i]@),
        }
    }
}

/// The weight of the arcs between a transition and the place `p`: how often
/// `p` occurs in `arcs`.
pub open spec fn weight(arcs: Seq<usize>, p: int) -> nat
    decreases arcs.len(),
{
    if arcs.len() == 0 {
        0
    } else {
        weight(arcs.drop_last(), p) + (if arcs.last() == p {
            1nat
        } else {
            0nat
        })
    }
}

/// `n`, or the largest number of 64 bits where `n` is larger.
spec fn at_most_64_bits(n: int) -> int {
    if n <= u64::MAX {
        n
    } else {
        u64::MAX as int
    }
}

impl NetModel {
    /// Every arc leads to a place of the net.
    pub open spec fn arcs_valid(self) -> bool {
        forall|t: int|
            0 <= t < self.trans.len() ==> {
                &&& forall|i: int|
                    0 <= i < (#[trigger] self.trans[t]).ins.len() ==> self.trans[t].ins[i]
                        < self.places.len()
                &&& forall|i: int|
                    0 <= i < self.trans[t].outs.len() ==> self.trans[t].outs[i]
                        < self.places.len()
            }
    }

    /// What every net read from a file fulfils: its arcs are valid, no two
    /// places share a name, and there is a transition, each with an arc.
    pub open spec fn well_formed(self) -> bool {
        &&& self.arcs_valid()
        &&& forall|i: int, j: int|
            0 <= i < j < self.places.len() ==> (#[trigger] self.places[i]).name != (
            #[trigger] self.places[j]).name
        &&& self.trans.len() > 0
        &&& forall|t: int|
            0 <= t < self.trans.len() ==> (#[trigger] self.trans[t]).ins.len() > 0
                || self.trans[t].outs.len() > 0
    }

    /// The tokens that `t` takes from the place `p`.
    pub open spec fn taken(self, t: int, p: int) -> nat {
        weight(self.trans[t].ins, p)
    }

    /// The tokens that `t` puts on the place `p`.
    pub open spec fn put(self, t: int, p: int) -> nat {
        weight(self.trans[t].outs, p)
    }

    /// The marking that the file gives.
    pub open spec fn initial(self) -> Seq<u32> {
        Seq::new(self.places.len(), |i: int| self.places[i].init)
    }

    /// `m` gives every place of the net a number of tokens.
    pub open spec fn marks(self, m: Seq<u32>) -> bool {
        self.places.len() <= m.len()
    }

    /// `t` is enabled under `m`: every place holds what `t` takes from it.
    pub open spec fn enabled(self, m: Seq<u32>, t: int) -> bool {
        forall|p: int| 0 <= p < m.len() ==> #[trigger] self.taken(t, p) <= m[p]
    }

    /// No place would hold more tokens than 32 bits can count once `t` has
    /// fired under `m`.
    pub open spec fn has_room(self, m: Seq<u32>, t: int) -> bool {
        forall|p: int|
            0 <= p < m.len() ==> m[p] - #[trigger] self.taken(t, p) + self.put(t, p) <= u32::MAX
    }

    /// The marking after `t` has fired under `m`.
    pub open spec fn fired(self, m: Seq<u32>, t: int) -> Seq<u32> {
        Seq::new(m.len(), |p: int| (m[p] - self.taken(t, p) + self.put(t, p)) as u32)
    }

    /// The transitions below `k` that are enabled under `m`, in order.
    pub open spec fn enabled_below(self, m: Seq<u32>, k: nat) -> Seq<usize>
        decreases k,
    {
        if k == 0 {
            Seq::empty()
        } else if self.enabled(m, k - 1) {
            self.enabled_below(m, (k - 1) as nat).push((k - 1) as usize)
        } else {
            self.enabled_below(m, (k - 1) as nat)
        }
    }

    /// The transitions that are enabled under `m`, in order.
    pub open spec fn enabled_list(self, m: Seq<u32>) -> Seq<usize> {
        self.enabled_below(m, self.trans.len())
    }

    /// No transition is enabled under `m`.
    pub open spec fn dead(self, m: Seq<u32>) -> bool {
        forall|t: int| 0 <= t < self.trans.len() ==> !#[trigger] self.enabled(m, t)
    }

    /// Firing `t` under `m` disables `o`: some place is left with fewer
    /// tokens than `o` takes from it.
    pub open spec fn disables(self, m: Seq<u32>, t: int, o: int) -> bool {
        exists|p: int|
            0 <= p < m.len() && m[p] - #[trigger] self.taken(t, p) + self.put(t, p) < self.taken(
                o,
                p,
            )
    }

    /// `t` is in conflict under `m`: it is one of the enabled transitions
    /// `among`, and firing it disables another of them.
    pub open spec fn in_conflict(self, m: Seq<u32>, t: usize, among: Seq<usize>) -> bool {
        &&& among.contains(t)
        &&& exists|o: usize| #[trigger]
            among.contains(o) && o != t && self.disables(m, t as int, o as int)
    }
}

// ---------------------------------------------------------------------
// Facts about the model
// ---------------------------------------------------------------------

/// A prefix of the arcs weighs no more than all of them.
proof fn lemma_weight_prefix(arcs: Seq<usize>, k: int, p: int)
    requires
        0 <= k <= arcs.len(),
    ensures
        weight(arcs.take(k), p) <= weight(arcs, p),
    decreases arcs.len() - k,
{
    if k == arcs.len() {
        assert(arcs.take(k) =~= arcs);
    } else {
        lemma_weight_prefix(arcs, k + 1, p);
        lemma_weight_step(arcs, k, p);
    }
}

/// No place occurs more often than there are arcs.
proof fn lemma_weight_len(arcs: Seq<usize>, p: int)
    ensures
        weight(arcs, p) <= arcs.len(),
    decreases arcs.len(),
{
    if arcs.len() > 0 {
        lemma_weight_len(arcs.drop_last(), p);
    }
}

/// One more arc adds one to the weight of its own place.
proof fn lemma_weight_step(arcs: Seq<usize>, k: int, p: int)
    requires
        0 <= k < arcs.len(),
    ensures
        weight(arcs.take(k + 1), p) == weight(arcs.take(k), p) + (if arcs[k] == p {
            1nat
        } else {
            0nat
        }),
{
    assert(arcs.take(k + 1).drop_last() =~= arcs.take(k));
}

/// `left` holds for each place what `t` leaves there, as far as 64 bits count.
spec fn leaves(net: NetModel, m: Seq<u32>, t: int, left: Seq<u64>) -> bool {
    &&& left.len() == m.len()
    &&& forall|p: int|
        0 <= p < m.len() ==> #[trigger] left[p] == at_most_64_bits(
            m[p] - net.taken(t, p) + net.put(t, p),
        )
}

/// What 64 bits count is enough to see whether `t` disables `o`.
proof fn lemma_leaves(net: NetModel, m: Seq<u32>, t: int, o: int, left: Seq<u64>)
    requires
        leaves(net, m, t, left),
        net.trans[o].ins.len() <= u64::MAX,
    ensures
        net.disables(m, t, o) <==> !(forall|p: int|
            0 <= p < left.len() ==> #[trigger] net.taken(o, p) <= left[p]),
{
    if net.disables(m, t, o) {
        let p = choose|p: int|
            0 <= p < m.len() && m[p] - #[trigger] net.taken(t, p) + net.put(t, p) < net.taken(o, p);
        assert(left[p] == at_most_64_bits(m[p] - net.taken(t, p) + net.put(t, p)));
        assert(!(net.taken(o, p) <= left[p]));
    } else {
        assert forall|p: int| 0 <= p < left.len() implies #[trigger] net.taken(o, p) <= left[p] by {
            lemma_weight_len(net.trans[o].ins, p);
            assert(!(m[p] - net.taken(t, p) + net.put(t, p) < net.taken(o, p)));
            assert(left[p] == at_most_64_bits(m[p] - net.taken(t, p) + net.put(t, p)));
        }
    }
}

/// The list of enabled transitions holds exactly the enabled transitions, in
/// increasing order.
pub proof fn lemma_enabled_below(net: NetModel, m: Seq<u32>, k: nat)
    requires
        k <= usize::MAX,
    ensures
        forall|t: usize|
            #[trigger] net.enabled_below(m, k).contains(t) <==> t < k && net.enabled(m, t as int),
        forall|i: int, j: int|
            0 <= i < j < net.enabled_below(m, k).len() ==> net.enabled_below(m, k)[i]
                < net.enabled_below(m, k)[j],
        forall|i: int|
            0 <= i < net.enabled_below(m, k).len() ==> net.enabled_below(m, k)[i] < k
                && net.enabled(m, #[trigger] net.enabled_below(m, k)[i] as int),
    decreases k,
{
    if k > 0 {
        let l = net.enabled_below(m, k);
        let prev = net.enabled_below(m, (k - 1) as nat);
        lemma_enabled_below(net, m, (k - 1) as nat);
        assert forall|t: usize| #[trigger] l.contains(t) <==> t < k && net.enabled(m, t as int) by {
            if l.contains(t) {
                let i = choose|i: int| 0 <= i < l.len() && l[i] == t;
                if i < prev.len() {
                    assert(prev[i] == t);
                    assert(prev.contains(t));
                }
            }
            if t < k && net.enabled(m, t as int) {
                if t < k - 1 {
                    assert(prev.contains(t));
                    let i = choose|i: int| 0 <= i < prev.len() && prev[i] == t;
                    assert(l[i] == t);
                } else {
                    assert(l[l.len() - 1] == t);
                }
            }
        }
        assert forall|i: int| 0 <= i < l.len() implies l[i] < k && net.enabled(
            m,
            #[trigger] l[i] as int,
        ) by {
            assert(l.contains(l[i]));
        }
        assert forall|i: int, j: int| 0 <= i < j < l.len() implies l[i] < l[j] by {
            if j < prev.len() {
                assert(prev[i] < prev[j]);
            } else {
                assert(prev[i] < k - 1);
            }
        }
    }
}

/// A marking is dead exactly if its list of enabled transitions is empty.
pub proof fn lemma_dead_iff_no_enabled(net: NetModel, m: Seq<u32>)
    requires
        net.trans.len() <= usize::MAX,
    ensures
        net.dead(m) <==> net.enabled_list(m).len() == 0,
{
    lemma_enabled_below(net, m, net.trans.len());
    let l = net.enabled_list(m);
    if l.len() > 0 {
        assert(net.enabled(m, l[0] as int));
    }
    if !net.dead(m) {
        let t = choose|t: int| 0 <= t < net.trans.len() && net.enabled(m, t);
        assert(l.contains(t as usize));
    }
}

// ---------------------------------------------------------------------
// The executable net
// ---------------------------------------------------------------------

/// The counts of `m`, in 64 bits each.
fn widened(m: &[u32]) -> (r: Vec<u64>)
    ensures
        r@.len() == m@.len(),
        forall|p: int| 0 <= p < m@.len() ==> #[trigger] r@[p] == m@[p],
{
    let mut r: Vec<u64> = Vec::new();
    let mut i: usize = 0;
    while i < m.len()
        invariant
            i <= m@.len(),
            r@.len() == i,
            forall|p: int| 0 <= p < i ==> #[trigger] r@[p] == m@[p],
        decreases m@.len() - i,
    {
        r.push(m[i] as u64);
        i = i + 1;
    }
    r
}

impl Net {
    /// The marking that the file gives.
    pub fn initial_marking(&self) -> (m: Vec<u32>)
        ensures
            m@ == self@.initial(),
    {
        let mut m: Vec<u32> = Vec::new();
        let mut i: usize = 0;
        while i < self.places.len()
            invariant
                i <= self.places.len(),
                m@ =~= self@.initial().take(i as int),
            decreases self.places.len() - i,
        {
            m.push(self.places[i].init);
            i = i + 1;
        }
        assert(m@ =~= self@.initial());
        m
    }

    /// Are there enough tokens in `left` for what `t` takes?
    fn covered(&self, left: Vec<u64>, t: usize) -> (r: bool)
        requires
            self@.arcs_valid(),
            self@.places.len() <= left@.len(),
            t < self.trans@.len(),
        ensures
            r <==> forall|p: int|
                0 <= p < left@.len() ==> #[trigger] self@.taken(t as int, p) <= left@[p],
    {
        let ghost net = self@;
        let ghost ins = net.trans[t as int].ins;
        let ghost start = left@;
        let mut tmp: Vec<u64> = left;
        let mut i: usize = 0;
        while i < self.trans[t].ins.len()
            invariant
                t < self.trans@.len(),
                net == self@,
                net.arcs_valid(),
                net.places.len() <= start.len(),
                ins == net.trans[t as int].ins,
                i <= ins.len(),
                start == left@,
                tmp@.len() == start.len(),
                forall|p: int|
                    0 <= p < start.len() ==> #[trigger] tmp@[p] == start[p] - weight(
                        ins.take(i as int),
                        p,
                    ),
            decreases ins.len() - i,
        {
            let p = self.trans[t].ins[i];
            assert(p == ins[i as int]);
            assert(p < tmp@.len());
            if tmp[p] == 0 {
                proof {
                    assert(tmp@[p as int] == start[p as int] - weight(
                        ins.take(i as int),
                        p as int,
                    ));
                    lemma_weight_step(ins, i as int, p as int);
                    lemma_weight_prefix(ins, i + 1, p as int);
                    assert(net.taken(t as int, p as int) > start[p as int]);
                }
                return false;
            }
            let ghost prev = tmp@;
            let rest: u64 = tmp[p] - 1;
            tmp.set(p, rest);
            proof {
                assert forall|q: int| 0 <= q < start.len() implies #[trigger] tmp@[q] == start[q]
                    - weight(ins.take(i + 1), q) by {
                    lemma_weight_step(ins, i as int, q);
                    assert(prev[q] == start[q] - weight(ins.take(i as int), q));
                }
            }
            i = i + 1;
        }
        proof {
            assert(ins.take(i as int) =~= ins);
            assert forall|p: int| 0 <= p < start.len() implies #[trigger] net.taken(t as int, p)
                <= start[p] by {
                assert(tmp@[p] == start[p] - weight(ins, p));
            }
        }
        true
    }

    /// Is transition `t` enabled under the marking `m`? Weights count.
    pub fn enabled(&self, m: &[u32], t: usize) -> (r: bool)
        requires
            self@.arcs_valid(),
            self@.marks(m@),
            t < self.trans@.len(),
        ensures
            r == self@.enabled(m@, t as int),
    {
        let left = widened(m);
        let r = self.covered(left, t);
        proof {
            if r {
                assert forall|p: int| 0 <= p < m@.len() implies #[trigger] self@.taken(t as int, p)
                    <= m@[p] by {
                    assert(left@[p] == m@[p]);
                }
            } else if self@.enabled(m@, t as int) {
                assert forall|p: int| 0 <= p < left@.len() implies #[trigger] self@.taken(
                    t as int,
                    p,
                ) <= left@[p] by {
                    assert(left@[p] == m@[p]);
                }
            }
        }
        r
    }

    /// All transitions that are enabled under `m`, in order.
    pub fn enabled_set(&self, m: &[u32]) -> (r: Vec<usize>)
        requires
            self@.arcs_valid(),
            self@.marks(m@),
        ensures
            r@ == self@.enabled_list(m@),
    {
        let mut r: Vec<usize> = Vec::new();
        let mut t: usize = 0;
        while t < self.trans.len()
            invariant
                self@.arcs_valid(),
                self@.marks(m@),
                t <= self.trans.len(),
                r@ == self@.enabled_below(m@, t as nat),
            decreases self.trans.len() - t,
        {
            if self.enabled(m, t) {
                r.push(t);
            }
            t = t + 1;
        }
        r
    }

    /// Takes the input tokens of `t` off the marking `m`.
    fn take_inputs(&self, m: &[u32], t: usize) -> (r: Vec<u32>)
        requires
            self@.arcs_valid(),
            self@.marks(m@),
            t < self.trans@.len(),
            self@.enabled(m@, t as int),
        ensures
            r@.len() == m@.len(),
            forall|p: int|
                0 <= p < m@.len() ==> #[trigger] r@[p] == m@[p] - self@.taken(t as int, p),
    {
        let ghost net = self@;
        let ghost ins = net.trans[t as int].ins;
        let mut r: Vec<u32> = slice_to_vec(m);
        let mut i: usize = 0;
        while i < self.trans[t].ins.len()
            invariant
                t < self.trans@.len(),
                net == self@,
                net.arcs_valid(),
                net.marks(m@),
                net.enabled(m@, t as int),
                ins == net.trans[t as int].ins,
                i <= ins.len(),
                r@.len() == m@.len(),
                forall|p: int|
                    0 <= p < m@.len() ==> #[trigger] r@[p] == m@[p] - weight(
                        ins.take(i as int),
                        p,
                    ),
            decreases ins.len() - i,
        {
            let p = self.trans[t].ins[i];
            let ghost prev = r@;
            proof {
                assert(p == ins[i as int]);
                assert(r@[p as int] == m@[p as int] - weight(ins.take(i as int), p as int));
                lemma_weight_step(ins, i as int, p as int);
                lemma_weight_prefix(ins, i + 1, p as int);
                assert(net.taken(t as int, p as int) <= m@[p as int]);
            }
            let left: u32 = r[p] - 1;
            r.set(p, left);
            proof {
                assert forall|q: int| 0 <= q < m@.len() implies #[trigger] r@[q] == m@[q] - weight(
                    ins.take(i + 1),
                    q,
                ) by {
                    lemma_weight_step(ins, i as int, q);
                    assert(prev[q] == m@[q] - weight(ins.take(i as int), q));
                }
            }
            i = i + 1;
        }
        assert(ins.take(i as int) =~= ins);
        r
    }

    /// Fires transition `t` where no place overflows: the new marking, or
    /// nothing where some place would hold more tokens than can be counted.
    pub fn fire_checked(&self, m: &[u32], t: usize) -> (r: Option<Vec<u32>>)
        requires
            self@.arcs_valid(),
            self@.marks(m@),
            t < self.trans@.len(),
            self@.enabled(m@, t as int),
        ensures
            r is Some <==> self@.has_room(m@, t as int),
            r is Some ==> r->0@ == self@.fired(m@, t as int),
    {
        let ghost net = self@;
        let ghost outs = net.trans[t as int].outs;
        let mut r: Vec<u32> = self.take_inputs(m, t);
        let mut i: usize = 0;
        while i < self.trans[t].outs.len()
            invariant
                t < self.trans@.len(),
                net == self@,
                net.arcs_valid(),
                net.marks(m@),
                outs == net.trans[t as int].outs,
                i <= outs.len(),
                r@.len() == m@.len(),
                forall|p: int|
                    0 <= p < m@.len() ==> #[trigger] r@[p] == m@[p] - net.taken(t as int, p)
                        + weight(outs.take(i as int), p),
            decreases outs.len() - i,
        {
            let p = self.trans[t].outs[i];
            let ghost prev = r@;
            assert(p == outs[i as int]);
            if r[p] == u32::MAX {
                proof {
                    assert(r@[p as int] == m@[p as int] - net.taken(t as int, p as int) + weight(
                        outs.take(i as int),
                        p as int,
                    ));
                    lemma_weight_step(outs, i as int, p as int);
                    lemma_weight_prefix(outs, i + 1, p as int);
                    assert(net.put(t as int, p as int) >= weight(outs.take(i + 1), p as int));
                }
                return None;
            }
            let more: u32 = r[p] + 1;
            r.set(p, more);
            proof {
                assert forall|q: int| 0 <= q < m@.len() implies #[trigger] r@[q] == m@[q]
                    - net.taken(t as int, q) + weight(outs.take(i + 1), q) by {
                    lemma_weight_step(outs, i as int, q);
                    assert(prev[q] == m@[q] - net.taken(t as int, q) + weight(
                        outs.take(i as int),
                        q,
                    ));
                }
            }
            i = i + 1;
        }
        proof {
            assert(outs.take(i as int) =~= outs);
            assert forall|p: int| 0 <= p < m@.len() implies m@[p] - #[trigger] net.taken(
                t as int,
                p,
            ) + net.put(t as int, p) <= u32::MAX by {
                assert(r@[p] == m@[p] - net.taken(t as int, p) + net.put(t as int, p));
            }
            assert(r@ =~= net.fired(m@, t as int));
        }
        Some(r)
    }

    /// Fires transition `t`; the caller ensures that it is enabled.
    pub fn fire(&self, m: &[u32], t: usize) -> (r: Vec<u32>)
        requires
            self@.arcs_valid(),
            self@.marks(m@),
            t < self.trans@.len(),
            self@.enabled(m@, t as int),
            self@.has_room(m@, t as int),
        ensures
            r@ == self@.fired(m@, t as int),
            r@.len() == m@.len(),
            forall|p: int|
                0 <= p < m@.len() ==> #[trigger] r@[p] == m@[p] - self@.taken(t as int, p)
                    + self@.put(t as int, p),
    {
        let r = self.fire_checked(m, t).unwrap();
        assert forall|p: int| 0 <= p < m@.len() implies #[trigger] r@[p] == m@[p] - self@.taken(
            t as int,
            p,
        ) + self@.put(t as int, p) by {}
        r
    }

    /// What `t` leaves behind when it fires under `m`. A count stops at the
    /// largest that 64 bits hold, more than any transition takes.
    fn left_behind(&self, m: &[u32], t: usize) -> (r: Vec<u64>)
        requires
            self@.arcs_valid(),
            self@.marks(m@),
            t < self.trans@.len(),
            self@.enabled(m@, t as int),
        ensures
            leaves(self@, m@, t as int, r@),
    {
        let ghost net = self@;
        let ghost outs = net.trans[t as int].outs;
        let taken = self.take_inputs(m, t);
        let mut r: Vec<u64> = widened(&taken);
        let mut i: usize = 0;
        assert forall|p: int| 0 <= p < m@.len() implies #[trigger] r@[p] == at_most_64_bits(
            m@[p] - net.taken(t as int, p) + weight(outs.take(0), p),
        ) by {
            assert(r@[p] == taken@[p]);
        }
        while i < self.trans[t].outs.len()
            invariant
                t < self.trans@.len(),
                net == self@,
                net.arcs_valid(),
                net.marks(m@),
                outs == net.trans[t as int].outs,
                i <= outs.len(),
                r@.len() == m@.len(),
                forall|p: int|
                    0 <= p < m@.len() ==> #[trigger] r@[p] == at_most_64_bits(
                        m@[p] - net.taken(t as int, p) + weight(outs.take(i as int), p),
                    ),
            decreases outs.len() - i,
        {
            let p = self.trans[t].outs[i];
            let ghost prev = r@;
            assert(p == outs[i as int]);
            let more: u64 = r[p].saturating_add(1);
            r.set(p, more);
            proof {
                assert forall|q: int| 0 <= q < m@.len() implies #[trigger] r@[q]
                    == at_most_64_bits(
                    m@[q] - net.taken(t as int, q) + weight(outs.take(i + 1), q),
                ) by {
                    lemma_weight_step(outs, i as int, q);
                    assert(prev[q] == at_most_64_bits(
                        m@[q] - net.taken(t as int, q) + weight(outs.take(i as int), q),
                    ));
                }
            }
            i = i + 1;
        }
        assert(outs.take(i as int) =~= outs);
        r
    }

    /// Is `t` in conflict under `m`? It is if another of the `enabled`
    /// transitions is disabled once `t` fires: the net cannot decide between
    /// the two.
    pub fn conflicts(&self, m: &[u32], t: usize, enabled: &[usize]) -> (r: bool)
        requires
            self@.arcs_valid(),
            self@.marks(m@),
            forall|i: int| 0 <= i < enabled@.len() ==> #[trigger] enabled@[i] < self.trans@.len(),
            enabled@.contains(t) ==> self@.enabled(m@, t as int),
        ensures
            r == self@.in_conflict(m@, t, enabled@),
    {
        let ghost net = self@;
        let mut found = false;
        let mut i: usize = 0;
        while i < enabled.len()
            invariant
                i <= enabled.len(),
                found <==> exists|j: int| 0 <= j < i && enabled@[j] == t,
            decreases enabled.len() - i,
        {
            if enabled[i] == t {
                found = true;
            }
            i = i + 1;
        }
        if !found {
            return false;
        }
        let left = self.left_behind(m, t);
        let mut k: usize = 0;
        while k < enabled.len()
            invariant
                k <= enabled.len(),
                net == self@,
                net.arcs_valid(),
                net.marks(m@),
                enabled@.contains(t),
                forall|i: int|
                    0 <= i < enabled@.len() ==> #[trigger] enabled@[i] < self.trans@.len(),
                leaves(net, m@, t as int, left@),
                forall|j: int|
                    0 <= j < k ==> enabled@[j] == t || !net.disables(
                        m@,
                        t as int,
                        #[trigger] enabled@[j] as int,
                    ),
            decreases enabled.len() - k,
        {
            let o = enabled[k];
            proof {
                assert(net.trans[o as int].ins.len() == self.trans[o as int].ins.len());
                lemma_leaves(net, m@, t as int, o as int, left@);
            }
            if o != t && !self.covered(slice_to_vec(&left), o) {
                assert(enabled@.contains(o));
                return true;
            }
            k = k + 1;
        }
        proof {
            if net.in_conflict(m@, t, enabled@) {
                let o = choose|o: usize| #[trigger]
                    enabled@.contains(o) && o != t && net.disables(m@, t as int, o as int);
                let j = choose|j: int| 0 <= j < enabled@.len() && enabled@[j] == o;
                assert(!net.disables(m@, t as int, enabled@[j] as int));
            }
        }
        false
    }
}

} // verus!

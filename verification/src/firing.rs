//! Laws of the firing rule: what a marking enables, how firings combine, and
//! what it means that transitions are in conflict.
use crate::net::NetModel;
use vstd::prelude::*;

verus! {

/// The weight of the arcs to a place is how often the place occurs among
/// them.
pub proof fn law_weight_counts(arcs: Seq<usize>, p: usize)
    ensures
        crate::net::weight(arcs, p as int) == arcs.to_multiset().count(p),
    decreases arcs.len(),
{
    arcs.to_multiset_ensures();
    if arcs.len() > 0 {
        let d = arcs.drop_last();
        law_weight_counts(d, p);
        d.to_multiset_ensures();
        assert(d.push(arcs.last()) =~= arcs);
    } else {
        assert(!arcs.contains(p));
    }
}

/// What a transition takes from a place and puts there is how often the place
/// occurs among its inputs and among its outputs.
pub proof fn law_taken_and_put_count(net: NetModel, t: int, p: usize)
    ensures
        net.taken(t, p as int) == net.trans[t].ins.to_multiset().count(p),
        net.put(t, p as int) == net.trans[t].outs.to_multiset().count(p),
{
    law_weight_counts(net.trans[t].ins, p);
    law_weight_counts(net.trans[t].outs, p);
}

/// A transition is enabled exactly if every place holds as many tokens as it
/// occurs among the inputs.
pub proof fn law_enabled_counts(net: NetModel, m: Seq<u32>, t: int)
    requires
        m.len() <= usize::MAX,
    ensures
        net.enabled(m, t) <==> forall|p: usize|
            p < m.len() ==> #[trigger] net.trans[t].ins.to_multiset().count(p) <= m[p as int],
{
    if net.enabled(m, t) {
        assert forall|p: usize| p < m.len() implies #[trigger] net.trans[t].ins.to_multiset().count(
            p,
        ) <= m[p as int] by {
            law_taken_and_put_count(net, t, p);
            assert(net.taken(t, p as int) <= m[p as int]);
        }
    }
    if forall|p: usize|
        p < m.len() ==> #[trigger] net.trans[t].ins.to_multiset().count(p) <= m[p as int] {
        assert forall|p: int| 0 <= p < m.len() implies #[trigger] net.taken(t, p) <= m[p] by {
            law_taken_and_put_count(net, t, p as usize);
        }
    }
}

/// There is room for a firing exactly if no place exceeds what 32 bits count
/// once the inputs are taken and the outputs are put.
pub proof fn law_room_counts(net: NetModel, m: Seq<u32>, t: int)
    requires
        m.len() <= usize::MAX,
    ensures
        net.has_room(m, t) <==> forall|p: usize|
            p < m.len() ==> m[p as int] - #[trigger] net.trans[t].ins.to_multiset().count(p)
                + net.trans[t].outs.to_multiset().count(p) <= u32::MAX,
{
    if net.has_room(m, t) {
        assert forall|p: usize| p < m.len() implies m[p as int]
            - #[trigger] net.trans[t].ins.to_multiset().count(p)
            + net.trans[t].outs.to_multiset().count(p) <= u32::MAX by {
            law_taken_and_put_count(net, t, p);
            assert(m[p as int] - net.taken(t, p as int) + net.put(t, p as int) <= u32::MAX);
        }
    }
    if forall|p: usize|
        p < m.len() ==> m[p as int] - #[trigger] net.trans[t].ins.to_multiset().count(p)
            + net.trans[t].outs.to_multiset().count(p) <= u32::MAX {
        assert forall|p: int| 0 <= p < m.len() implies m[p] - #[trigger] net.taken(t, p) + net.put(
            t,
            p,
        ) <= u32::MAX by {
            law_taken_and_put_count(net, t, p as usize);
        }
    }
}

/// A firing takes one token from a place for each time that the place occurs
/// among the inputs, and puts one there for each time that it occurs among
/// the outputs; it keeps the number of places.
pub proof fn law_firing_moves_tokens(net: NetModel, m: Seq<u32>, t: int)
    requires
        m.len() <= usize::MAX,
        net.enabled(m, t),
        net.has_room(m, t),
    ensures
        net.fired(m, t).len() == m.len(),
        forall|p: usize|
            p < m.len() ==> #[trigger] net.fired(m, t)[p as int] == m[p as int]
                - net.trans[t].ins.to_multiset().count(p) + net.trans[t].outs.to_multiset().count(
                p,
            ),
{
    assert forall|p: usize| p < m.len() implies #[trigger] net.fired(m, t)[p as int] == m[p as int]
        - net.trans[t].ins.to_multiset().count(p) + net.trans[t].outs.to_multiset().count(p) by {
        law_taken_and_put_count(net, t, p);
        law_fired_tokens(net, m, t, p as int);
    }
}

/// A marking is dead exactly if no transition is enabled under it.
pub proof fn law_dead_markings(net: NetModel, m: Seq<u32>)
    ensures
        net.dead(m) <==> !(exists|t: int| 0 <= t < net.trans.len() && net.enabled(m, t)),
{
}

/// The initial marking gives each place the tokens of its definition.
pub proof fn law_initial_marking(net: NetModel)
    ensures
        net.initial().len() == net.places.len(),
        forall|p: int|
            0 <= p < net.places.len() ==> #[trigger] net.initial()[p] == net.places[p].init,
{
}

/// A well-formed net has a transition; each of its transitions has an arc, and
/// all arcs lead to its places, of which no two have the same name. Nothing
/// more is asked of it.
pub proof fn law_well_formed(net: NetModel)
    ensures
        net.well_formed() <==> {
            &&& net.trans.len() > 0
            &&& forall|t: int|
                0 <= t < net.trans.len() ==> (#[trigger] net.trans[t]).ins.len()
                    + net.trans[t].outs.len() > 0
            &&& forall|t: int, i: int|
                0 <= t < net.trans.len() && 0 <= i < net.trans[t].ins.len()
                    ==> #[trigger] net.trans[t].ins[i] < net.places.len()
            &&& forall|t: int, i: int|
                0 <= t < net.trans.len() && 0 <= i < net.trans[t].outs.len()
                    ==> #[trigger] net.trans[t].outs[i] < net.places.len()
            &&& forall|i: int, j: int|
                0 <= i < net.places.len() && 0 <= j < net.places.len() && i != j ==> (
                #[trigger] net.places[i]).name != (#[trigger] net.places[j]).name
        },
{
}

/// More tokens never disable a transition.
pub proof fn law_enabled_monotone(net: NetModel, m: Seq<u32>, more: Seq<u32>, t: int)
    requires
        more.len() == m.len(),
        forall|p: int| 0 <= p < m.len() ==> m[p] <= #[trigger] more[p],
        net.enabled(m, t),
    ensures
        net.enabled(more, t),
{
    assert forall|p: int| 0 <= p < more.len() implies #[trigger] net.taken(t, p) <= more[p] by {
        assert(m[p] <= more[p]);
    }
}

/// A firing changes every place by what the transition puts there, less what
/// it takes.
pub proof fn law_fired_tokens(net: NetModel, m: Seq<u32>, t: int, p: int)
    requires
        net.enabled(m, t),
        net.has_room(m, t),
        0 <= p < m.len(),
    ensures
        net.fired(m, t).len() == m.len(),
        net.fired(m, t)[p] == m[p] - net.taken(t, p) + net.put(t, p),
{
    assert(net.taken(t, p) <= m[p]);
}

/// A transition without input places is enabled under every marking: its net
/// never deadlocks.
pub proof fn law_source_always_enabled(net: NetModel, m: Seq<u32>, t: int)
    requires
        0 <= t < net.trans.len(),
        net.trans[t].ins.len() == 0,
    ensures
        net.enabled(m, t),
        !net.dead(m),
{
    assert(net.enabled(m, t));
}

/// Firing `t` disables `o` exactly if `o` is not enabled afterwards.
pub proof fn law_disabling(net: NetModel, m: Seq<u32>, t: int, o: int)
    requires
        net.enabled(m, t),
        net.has_room(m, t),
    ensures
        net.disables(m, t, o) <==> !net.enabled(net.fired(m, t), o),
{
    let f = net.fired(m, t);
    if net.disables(m, t, o) {
        let p = choose|p: int|
            0 <= p < m.len() && m[p] - #[trigger] net.taken(t, p) + net.put(t, p) < net.taken(o, p);
        law_fired_tokens(net, m, t, p);
        assert(!(net.taken(o, p) <= f[p]));
    }
    if !net.enabled(f, o) {
        let p = choose|p: int| 0 <= p < f.len() && !(#[trigger] net.taken(o, p) <= f[p]);
        law_fired_tokens(net, m, t, p);
        assert(m[p] - net.taken(t, p) + net.put(t, p) < net.taken(o, p));
    }
}

/// An enabled transition is in conflict exactly if another one is enabled
/// now, but no longer once it has fired.
pub proof fn law_conflict_is_disabling(net: NetModel, m: Seq<u32>, t: usize)
    requires
        net.trans.len() <= usize::MAX,
        t < net.trans.len(),
        net.enabled(m, t as int),
        net.has_room(m, t as int),
    ensures
        net.in_conflict(m, t, net.enabled_list(m)) <==> exists|o: int|
            0 <= o < net.trans.len() && o != t && #[trigger] net.enabled(m, o) && !net.enabled(
                net.fired(m, t as int),
                o,
            ),
{
    let among = net.enabled_list(m);
    law_enabled_list(net, m);
    assert(among.contains(t));
    if net.in_conflict(m, t, among) {
        let o = choose|o: usize| #[trigger]
            among.contains(o) && o != t && net.disables(m, t as int, o as int);
        law_disabling(net, m, t as int, o as int);
        assert(net.enabled(m, o as int));
    }
    if exists|o: int|
        0 <= o < net.trans.len() && o != t && #[trigger] net.enabled(m, o) && !net.enabled(
            net.fired(m, t as int),
            o,
        ) {
        let o = choose|o: int|
            0 <= o < net.trans.len() && o != t && #[trigger] net.enabled(m, o) && !net.enabled(
                net.fired(m, t as int),
                o,
            );
        law_disabling(net, m, t as int, o);
        assert(among.contains(o as usize));
    }
}

/// Whether `t` is in conflict with others, whatever list of them is given: it
/// is on the list, and so is another that lacks tokens on some place once the
/// tokens of `t` have been taken and put. Room for the firing is not asked.
pub proof fn law_conflict_counts(net: NetModel, m: Seq<u32>, t: usize, among: Seq<usize>)
    requires
        m.len() <= usize::MAX,
    ensures
        net.in_conflict(m, t, among) <==> among.contains(t) && exists|o: usize, p: usize|
            {
                &&& #[trigger] among.contains(o)
                &&& o != t
                &&& p < m.len()
                &&& m[p as int] - net.trans[t as int].ins.to_multiset().count(p)
                    + net.trans[t as int].outs.to_multiset().count(p)
                    < #[trigger] net.trans[o as int].ins.to_multiset().count(p)
            },
{
    if net.in_conflict(m, t, among) {
        let o = choose|o: usize| #[trigger]
            among.contains(o) && o != t && net.disables(m, t as int, o as int);
        let p = choose|p: int|
            0 <= p < m.len() && m[p] - #[trigger] net.taken(t as int, p) + net.put(t as int, p)
                < net.taken(o as int, p);
        let q = p as usize;
        law_taken_and_put_count(net, t as int, q);
        law_taken_and_put_count(net, o as int, q);
        assert(among.contains(o) && m[q as int] - net.trans[t as int].ins.to_multiset().count(q)
            + net.trans[t as int].outs.to_multiset().count(q)
            < net.trans[o as int].ins.to_multiset().count(q));
    }
    if among.contains(t) && exists|o: usize, p: usize|
        {
            &&& #[trigger] among.contains(o)
            &&& o != t
            &&& p < m.len()
            &&& m[p as int] - net.trans[t as int].ins.to_multiset().count(p)
                + net.trans[t as int].outs.to_multiset().count(p)
                < #[trigger] net.trans[o as int].ins.to_multiset().count(p)
        } {
        let (o, p) = choose|o: usize, p: usize|
            {
                &&& #[trigger] among.contains(o)
                &&& o != t
                &&& p < m.len()
                &&& m[p as int] - net.trans[t as int].ins.to_multiset().count(p)
                    + net.trans[t as int].outs.to_multiset().count(p)
                    < #[trigger] net.trans[o as int].ins.to_multiset().count(p)
            };
        law_taken_and_put_count(net, t as int, p);
        law_taken_and_put_count(net, o as int, p);
        assert(m[p as int] - net.taken(t as int, p as int) + net.put(t as int, p as int)
            < net.taken(o as int, p as int));
        assert(net.disables(m, t as int, o as int));
    }
}

/// `t` and `o` compete for the same tokens under `m`: some place that both
/// take from holds less than what they take together.
pub open spec fn competing(net: NetModel, m: Seq<u32>, t: int, o: int) -> bool {
    exists|p: int|
        {
            &&& 0 <= p < m.len()
            &&& #[trigger] net.taken(t, p) > 0
            &&& net.taken(o, p) > 0
            &&& m[p] < net.taken(t, p) + net.taken(o, p)
        }
}

/// A transition in conflict competes with another enabled transition for the
/// same tokens.
pub proof fn law_conflict_is_competition(net: NetModel, m: Seq<u32>, t: usize, among: Seq<usize>)
    requires
        forall|o: usize| #[trigger] among.contains(o) ==> net.enabled(m, o as int),
        net.in_conflict(m, t, among),
    ensures
        exists|o: usize| #[trigger]
            among.contains(o) && o != t && competing(net, m, t as int, o as int),
{
    let o = choose|o: usize| #[trigger]
        among.contains(o) && o != t && net.disables(m, t as int, o as int);
    let p = choose|p: int|
        0 <= p < m.len() && m[p] - #[trigger] net.taken(t as int, p) + net.put(t as int, p)
            < net.taken(o as int, p);
    assert(net.taken(o as int, p) <= m[p]);
    assert(net.taken(t as int, p) > 0);
    assert(competing(net, m, t as int, o as int));
}

/// Where no transition gives back to a place that it takes from, conflicts
/// come in pairs: firing either of the two disables the other.
pub proof fn law_conflict_has_partner(net: NetModel, m: Seq<u32>, t: usize, among: Seq<usize>)
    requires
        forall|o: usize| #[trigger] among.contains(o) ==> net.enabled(m, o as int),
        forall|o: usize, p: int|
            #![trigger among.contains(o), net.taken(o as int, p)]
            among.contains(o) && 0 <= p < m.len() ==> net.taken(o as int, p) == 0 || net.put(
                o as int,
                p,
            ) == 0,
        net.in_conflict(m, t, among),
    ensures
        exists|o: usize|
            o != t && net.disables(m, t as int, o as int) && net.disables(m, o as int, t as int)
                && #[trigger] net.in_conflict(m, o, among),
{
    let o = choose|o: usize| #[trigger]
        among.contains(o) && o != t && net.disables(m, t as int, o as int);
    let p = choose|p: int|
        0 <= p < m.len() && m[p] - #[trigger] net.taken(t as int, p) + net.put(t as int, p)
            < net.taken(o as int, p);
    assert(net.taken(o as int, p) <= m[p]);
    assert(among.contains(t) && net.taken(t as int, p) > 0);
    assert(m[p] - net.taken(o as int, p) + net.put(o as int, p) < net.taken(t as int, p));
    assert(net.disables(m, o as int, t as int));
    assert(among.contains(t) && t != o && net.disables(m, o as int, t as int));
    assert(net.in_conflict(m, o, among));
}

/// Enabled transitions of which neither disables the other can fire in either
/// order, with the same result: there is nothing to decide between them.
pub proof fn law_independent_firings_commute(net: NetModel, m: Seq<u32>, t: int, o: int)
    requires
        net.enabled(m, t),
        net.enabled(m, o),
        !net.disables(m, t, o),
        !net.disables(m, o, t),
        net.has_room(m, t),
        net.has_room(m, o),
        net.has_room(net.fired(m, t), o),
    ensures
        net.enabled(net.fired(m, t), o),
        net.enabled(net.fired(m, o), t),
        net.has_room(net.fired(m, o), t),
        net.fired(net.fired(m, t), o) == net.fired(net.fired(m, o), t),
{
    let a = net.fired(m, t);
    let b = net.fired(m, o);
    law_disabling(net, m, t, o);
    law_disabling(net, m, o, t);
    assert forall|p: int| 0 <= p < m.len() implies b[p] - #[trigger] net.taken(t, p) + net.put(
        t,
        p,
    ) <= u32::MAX by {
        law_fired_tokens(net, m, t, p);
        law_fired_tokens(net, m, o, p);
        assert(a[p] - net.taken(o, p) + net.put(o, p) <= u32::MAX);
    }
    assert forall|p: int| 0 <= p < m.len() implies net.fired(a, o)[p] == net.fired(b, t)[p] by {
        law_fired_tokens(net, m, t, p);
        law_fired_tokens(net, m, o, p);
        law_fired_tokens(net, a, o, p);
        law_fired_tokens(net, b, t, p);
    }
    assert(net.fired(a, o) =~= net.fired(b, t));
}

/// The list of enabled transitions holds each enabled transition once, in
/// order, and nothing else; it is empty exactly in a dead marking.
pub proof fn law_enabled_list(net: NetModel, m: Seq<u32>)
    requires
        net.trans.len() <= usize::MAX,
    ensures
        forall|t: usize| #[trigger]
            net.enabled_list(m).contains(t) <==> t < net.trans.len() && net.enabled(m, t as int),
        forall|i: int, j: int|
            0 <= i < j < net.enabled_list(m).len() ==> net.enabled_list(m)[i]
                < net.enabled_list(m)[j],
        net.dead(m) <==> net.enabled_list(m).len() == 0,
{
    crate::net::lemma_enabled_below(net, m, net.trans.len());
    crate::net::lemma_dead_iff_no_enabled(net, m);
}

/// The model of a net has its places and its transitions, in order, with the
/// values of their fields.
pub proof fn law_net_model(n: crate::net::Net)
    ensures
        n@.places.len() == n.places@.len(),
        forall|i: int|
            0 <= i < n.places@.len() ==> (#[trigger] n@.places[i]).name == n.places@[i].name@
                && n@.places[i].init == n.places@[i].init,
        n@.trans.len() == n.trans@.len(),
        forall|t: int|
            0 <= t < n.trans@.len() ==> (#[trigger] n@.trans[t]).name == n.trans@[t].name@
                && n@.trans[t].ins == n.trans@[t].ins@ && n@.trans[t].outs == n.trans@[t].outs@,
{
}

/// A marking fits a net if it has a count for each place, and arcs are valid if
/// they lead to places.
pub proof fn law_fitting(net: NetModel, m: Seq<u32>)
    ensures
        net.marks(m) <==> m.len() >= net.places.len(),
        net.arcs_valid() <==> !(exists|t: int, i: int|
            0 <= t < net.trans.len() && 0 <= i < net.trans[t].ins.len()
                && #[trigger] net.trans[t].ins[i] >= net.places.len()) && !(exists|t: int, i: int|
            0 <= t < net.trans.len() && 0 <= i < net.trans[t].outs.len()
                && #[trigger] net.trans[t].outs[i] >= net.places.len()),
{
}

} // verus!

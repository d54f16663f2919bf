//! Nets, markings and analyses as text.
use crate::analysis;
use crate::analysis::Analysis;
use crate::net::{Net, NetModel};
use crate::text;
use crate::text::{push_decimal, push_padded_right};
use vstd::prelude::*;

verus! {

// ---------------------------------------------------------------------
// Arcs
// ---------------------------------------------------------------------

/// The names of the places that the arcs lead to.
pub open spec fn arc_names(net: NetModel, arcs: Seq<usize>) -> Seq<Seq<char>> {
    Seq::new(arcs.len(), |i: int| net.places[arcs[i] as int].name)
}

/// One side of a transition: the names of its places, or the empty set.
pub open spec fn side_text(net: NetModel, arcs: Seq<usize>) -> Seq<char> {
    if arcs.len() == 0 {
        "\u{2205}"@
    } else {
        text::joined(arc_names(net, arcs), " "@)
    }
}

/// The arcs of the transition `t`: what it takes, an arrow, what it puts.
pub open spec fn arcs_text(net: NetModel, t: int) -> Seq<char> {
    side_text(net, net.trans[t].ins) + " \u{2192} "@ + side_text(net, net.trans[t].outs)
}

/// One more part goes to the end, behind a separator unless it is the first.
pub proof fn lemma_joined_push(parts: Seq<Seq<char>>, sep: Seq<char>, x: Seq<char>)
    ensures
        text::joined(parts.push(x), sep) == (if parts.len() == 0 {
            x
        } else {
            text::joined(parts, sep) + sep + x
        }),
{
    assert(parts.push(x).drop_last() =~= parts);
}

impl Net {
    fn push_side(&self, out: &mut String, arcs: &Vec<usize>)
        requires
            forall|i: int| 0 <= i < arcs@.len() ==> #[trigger] arcs@[i] < self.places@.len(),
        ensures
            final(out)@ == old(out)@ + side_text(self@, arcs@),
    {
        if arcs.len() == 0 {
            out.append("\u{2205}");
            return;
        }
        let ghost names = arc_names(self@, arcs@);
        let mut i: usize = 0;
        assert(out@ =~= old(out)@ + text::joined(names.take(0), " "@));
        while i < arcs.len()
            invariant
                i <= arcs.len(),
                names == arc_names(self@, arcs@),
                forall|i: int| 0 <= i < arcs@.len() ==> #[trigger] arcs@[i] < self.places@.len(),
                out@ == old(out)@ + text::joined(names.take(i as int), " "@),
            decreases arcs.len() - i,
        {
            proof {
                assert(names.take(i + 1) =~= names.take(i as int).push(names[i as int]));
                lemma_joined_push(names.take(i as int), " "@, names[i as int]);
            }
            if i > 0 {
                out.append(" ");
            }
            out.append(self.places[arcs[i]].name.as_str());
            assert(out@ =~= old(out)@ + text::joined(names.take(i + 1), " "@));
            i = i + 1;
        }
        assert(names.take(i as int) =~= names);
    }

    /// The arcs of transition `t` as text.
    pub fn arcs_str(&self, t: usize) -> (r: String)
        requires
            self@.arcs_valid(),
            t < self.trans@.len(),
        ensures
            r@ == arcs_text(self@, t as int),
    {
        let mut r = String::new();
        proof {
            let tr = self@.trans[t as int];
            assert(tr == self.trans@[t as int]@);
            assert(forall|i: int| 0 <= i < tr.ins.len() ==> tr.ins[i] < self@.places.len());
            assert(forall|i: int| 0 <= i < tr.outs.len() ==> tr.outs[i] < self@.places.len());
        }
        self.push_side(&mut r, &self.trans[t].ins);
        r.append(" \u{2192} ");
        self.push_side(&mut r, &self.trans[t].outs);
        assert(r@ =~= arcs_text(self@, t as int));
        r
    }
}

// ---------------------------------------------------------------------
// Markings
// ---------------------------------------------------------------------

/// A place with its tokens: the bare name for one token, otherwise the name,
/// a times sign and the number.
pub open spec fn tokens_text(name: Seq<char>, n: u32) -> Seq<char> {
    if n == 1 {
        name
    } else {
        name + "\u{d7}"@ + text::decimal(n as nat)
    }
}

/// The marked ones of the first `k` places, with their tokens.
pub open spec fn marked_places(net: NetModel, m: Seq<u32>, k: nat) -> Seq<Seq<char>>
    decreases k,
{
    if k == 0 {
        Seq::empty()
    } else if m[k - 1] > 0 {
        marked_places(net, m, (k - 1) as nat).push(tokens_text(net.places[k - 1].name, m[k - 1]))
    } else {
        marked_places(net, m, (k - 1) as nat)
    }
}

/// A marking: its marked places, in the order of the net.
pub open spec fn marking_text(net: NetModel, m: Seq<u32>) -> Seq<char> {
    let parts = marked_places(net, m, net.places.len());
    if parts.len() == 0 {
        "(empty)"@
    } else {
        text::joined(parts, " "@)
    }
}

/// A marking as text.
pub fn marking_str(net: &Net, m: &[u32]) -> (r: String)
    requires
        net@.marks(m@),
    ensures
        r@ == marking_text(net@, m@),
{
    let ghost nm = net@;
    let mut r = String::new();
    let mut empty = true;
    let mut i: usize = 0;
    assert(r@ =~= text::joined(marked_places(nm, m@, 0), " "@));
    while i < net.places.len()
        invariant
            i <= net.places.len(),
            nm == net@,
            nm.marks(m@),
            r@ == text::joined(marked_places(nm, m@, i as nat), " "@),
            empty == (marked_places(nm, m@, i as nat).len() == 0),
        decreases net.places.len() - i,
    {
        let n: u32 = m[i];
        if n > 0 {
            let ghost parts = marked_places(nm, m@, i as nat);
            let ghost x = tokens_text(nm.places[i as int].name, n);
            proof {
                lemma_joined_push(parts, " "@, x);
            }
            if !empty {
                r.append(" ");
            }
            r.append(net.places[i].name.as_str());
            if n != 1 {
                r.append("\u{d7}");
                push_decimal(&mut r, n as u64);
            }
            empty = false;
            assert(r@ =~= text::joined(parts.push(x), " "@));
        }
        i = i + 1;
    }
    if empty {
        r.append("(empty)");
        assert(r@ =~= "(empty)"@);
    }
    r
}

// ---------------------------------------------------------------------
// Analyses
// ---------------------------------------------------------------------

/// The largest of the counts, zero where there are none.
pub open spec fn largest(counts: Seq<u32>) -> u32
    decreases counts.len(),
{
    if counts.len() == 0 {
        0
    } else {
        let l = largest(counts.drop_last());
        if counts.last() > l {
            counts.last()
        } else {
            l
        }
    }
}

/// No count is larger than the largest, which is one of them.
pub proof fn lemma_largest(counts: Seq<u32>)
    ensures
        forall|i: int| 0 <= i < counts.len() ==> #[trigger] counts[i] <= largest(counts),
        counts.len() > 0 ==> counts.contains(largest(counts)),
        counts.len() == 0 ==> largest(counts) == 0,
    decreases counts.len(),
{
    if counts.len() > 0 {
        let d = counts.drop_last();
        lemma_largest(d);
        assert forall|i: int| 0 <= i < counts.len() implies #[trigger] counts[i] <= largest(
            counts,
        ) by {
            if i < d.len() {
                assert(counts[i] == d[i]);
            }
        }
        if counts.last() > largest(d) {
            assert(counts[counts.len() - 1] == largest(counts));
        } else if d.len() > 0 {
            let i = choose|i: int| 0 <= i < d.len() && d[i] == largest(d);
            assert(counts[i] == largest(counts));
        } else {
            assert(counts[0] == largest(counts));
        }
    }
}

fn largest_of(counts: &Vec<u32>) -> (r: u32)
    ensures
        r == largest(counts@),
{
    let mut r: u32 = 0;
    let mut i: usize = 0;
    while i < counts.len()
        invariant
            i <= counts.len(),
            r == largest(counts@.take(i as int)),
        decreases counts.len() - i,
    {
        assert(counts@.take(i + 1).drop_last() =~= counts@.take(i as int));
        if counts[i] > r {
            r = counts[i];
        }
        i = i + 1;
    }
    assert(counts@.take(i as int) =~= counts@);
    r
}

/// How many markings were reached.
pub open spec fn states_text(a: Analysis) -> Seq<char> {
    " Reachable markings: "@ + text::decimal(a.states as nat) + (if a.truncated {
        "+ (truncated \u{2014} possibly unbounded)"@
    } else {
        Seq::empty()
    }) + "\n"@
}

/// Whether the net is bounded, and by how many tokens.
pub open spec fn bounded_text(a: Analysis) -> Seq<char> {
    let most = largest(a.max_tokens@);
    if a.truncated {
        " Bounded: unknown (exploration capped)\n"@
    } else {
        " Bounded: yes ("@ + text::decimal(most as nat) + "-bounded"@ + (if most <= 1 {
            " \u{2014} safe"@
        } else {
            Seq::empty()
        }) + ")\n"@
    }
}

/// The first `k` example markings, one to a line.
pub open spec fn examples_text(net: NetModel, ms: Seq<Seq<u32>>, k: nat) -> Seq<char>
    decreases k,
{
    if k == 0 {
        Seq::empty()
    } else {
        examples_text(net, ms, (k - 1) as nat) + ("   dead: "@ + marking_text(net, ms[k - 1])
            + "\n"@)
    }
}

/// Which dead markings were reached.
pub open spec fn deadlocks_text(net: NetModel, a: Analysis) -> Seq<char> {
    if a.deadlock_count == 0 {
        " Deadlocks: none"@ + (if a.truncated {
            " found (within cap)"@
        } else {
            " \u{2014} deadlock-free"@
        }) + "\n"@
    } else {
        " Deadlocks: "@ + text::decimal(a.deadlock_count as nat)
            + " dead marking(s) reachable!\n"@ + examples_text(
            net,
            analysis::marking_views(a.deadlocks@),
            a.deadlocks@.len(),
        )
    }
}

/// The bounds of the first `k` places, one to a line.
pub open spec fn bounds_text(net: NetModel, counts: Seq<u32>, k: nat) -> Seq<char>
    decreases k,
{
    if k == 0 {
        Seq::empty()
    } else {
        bounds_text(net, counts, (k - 1) as nat) + ("   "@ + text::padded_right(
            net.places[k - 1].name,
            16,
        ) + " "@ + text::decimal(counts[k - 1] as nat) + "\n"@)
    }
}

/// The whole report.
pub open spec fn report_text(net: NetModel, a: Analysis) -> Seq<char> {
    states_text(a) + bounded_text(a) + deadlocks_text(net, a)
        + "\n Place bounds (max tokens seen):\n"@ + bounds_text(
        net,
        a.max_tokens@,
        net.places.len(),
    )
}

fn push_states(out: &mut String, a: &Analysis)
    ensures
        final(out)@ == old(out)@ + states_text(*a),
{
    out.append(" Reachable markings: ");
    push_decimal(out, a.states as u64);
    if a.truncated {
        out.append("+ (truncated \u{2014} possibly unbounded)");
    }
    out.append("\n");
    assert(out@ =~= old(out)@ + states_text(*a));
}

fn push_bounded(out: &mut String, a: &Analysis)
    ensures
        final(out)@ == old(out)@ + bounded_text(*a),
{
    let most = largest_of(&a.max_tokens);
    if !a.truncated {
        out.append(" Bounded: yes (");
        push_decimal(out, most as u64);
        out.append("-bounded");
        if most <= 1 {
            out.append(" \u{2014} safe");
        }
        out.append(")\n");
    } else {
        out.append(" Bounded: unknown (exploration capped)\n");
    }
    assert(out@ =~= old(out)@ + bounded_text(*a));
}

fn push_deadlocks(out: &mut String, net: &Net, a: &Analysis)
    requires
        a.fits(net@),
    ensures
        final(out)@ == old(out)@ + deadlocks_text(net@, *a),
{
    if a.deadlock_count == 0 {
        out.append(" Deadlocks: none");
        if a.truncated {
            out.append(" found (within cap)");
        } else {
            out.append(" \u{2014} deadlock-free");
        }
        out.append("\n");
        assert(out@ =~= old(out)@ + deadlocks_text(net@, *a));
    } else {
        out.append(" Deadlocks: ");
        push_decimal(out, a.deadlock_count as u64);
        out.append(" dead marking(s) reachable!\n");
        let ghost head = out@;
        let ghost ms = analysis::marking_views(a.deadlocks@);
        let mut i: usize = 0;
        assert(out@ =~= head + examples_text(net@, ms, 0));
        while i < a.deadlocks.len()
            invariant
                i <= a.deadlocks.len(),
                a.fits(net@),
                ms == analysis::marking_views(a.deadlocks@),
                out@ == head + examples_text(net@, ms, i as nat),
            decreases a.deadlocks.len() - i,
        {
            out.append("   dead: ");
            out.append(marking_str(net, a.deadlocks[i].as_slice()).as_str());
            out.append("\n");
            i = i + 1;
            assert(ms[i - 1] == a.deadlocks@[i - 1]@);
            assert(out@ =~= head + examples_text(net@, ms, i as nat));
        }
        assert(out@ =~= old(out)@ + deadlocks_text(net@, *a));
    }
}

fn push_bounds(out: &mut String, net: &Net, a: &Analysis)
    requires
        a.fits(net@),
    ensures
        final(out)@ == old(out)@ + bounds_text(net@, a.max_tokens@, net@.places.len()),
{
    let mut i: usize = 0;
    assert(out@ =~= old(out)@ + bounds_text(net@, a.max_tokens@, 0));
    while i < net.places.len()
        invariant
            i <= net.places.len(),
            a.fits(net@),
            out@ == old(out)@ + bounds_text(net@, a.max_tokens@, i as nat),
        decreases net.places.len() - i,
    {
        out.append("   ");
        push_padded_right(out, net.places[i].name.as_str(), 16);
        out.append(" ");
        push_decimal(out, a.max_tokens[i] as u64);
        out.append("\n");
        i = i + 1;
        assert(out@ =~= old(out)@ + bounds_text(net@, a.max_tokens@, i as nat));
    }
}

/// The report on an analysis, without the hint that closes the popup: what
/// the command line prints.
pub fn analysis_report(net: &Net, a: &Analysis) -> (r: String)
    requires
        a.fits(net@),
    ensures
        r@ == report_text(net@, *a),
{
    let mut s = String::new();
    push_states(&mut s, a);
    push_bounded(&mut s, a);
    push_deadlocks(&mut s, net, a);
    s.append("\n Place bounds (max tokens seen):\n");
    push_bounds(&mut s, net, a);
    assert(s@ =~= report_text(net@, *a));
    s
}

/// The report on an analysis, with the hint how to close the popup.
pub fn analysis_text(net: &Net, a: &Analysis) -> (r: String)
    requires
        a.fits(net@),
    ensures
        r@ == report_text(net@, *a) + "\n (Esc/q to close)"@,
{
    let mut s = analysis_report(net, a);
    s.append("\n (Esc/q to close)");
    s
}

/// The exit code of the command line: 2 where a dead marking was reached,
/// otherwise 0.
pub open spec fn exit_code_of(a: Analysis) -> i32 {
    if a.deadlock_count > 0 {
        2
    } else {
        0
    }
}

/// The exit code of the command line: 2 where a dead marking was reached,
/// otherwise 0.
pub fn exit_code(a: &Analysis) -> (r: i32)
    ensures
        r == exit_code_of(*a),
{
    if a.deadlock_count > 0 {
        2
    } else {
        0
    }
}

} // verus!

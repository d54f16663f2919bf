//! Reading a net from its plain text format.
//!
//! Two line shapes matter:
//!   `name = N`                  initial marking for a place
//!   `[name:] in in -> out out`  a transition (repeat a place = weight)
//! Everything else (headings, indentation, comments after `#`) is ignored.
use crate::net::{Net, NetModel, PlaceDef, PlaceModel, Trans, TransModel};
use crate::text;
use crate::text::{
    chars_of, find_arrow_in, find_char, push_decimal, read_u32, split_words, string_of, trim,
};
use vstd::prelude::*;
use vstd::slice::slice_subrange;

verus! {

// ---------------------------------------------------------------------
// The format
// ---------------------------------------------------------------------

/// One line of a net file, as far as it matters.
#[verifier::ext_equal]
pub enum Line {
    /// A blank line, a heading, prose.
    Ignored,
    /// `name = count`
    Place { name: Seq<char>, count: Seq<char> },
    /// `name: ins -> outs`, the name empty where none is given
    Transition { name: Seq<char>, ins: Seq<Seq<char>>, outs: Seq<Seq<char>> },
}

/// What a line holds besides indentation and comment. A carriage return at
/// the end of a line is white space, and goes with it.
pub open spec fn content(raw: Seq<char>) -> Seq<char> {
    text::trimmed(text::before(raw, '#'))
}

/// The shape of a line: an arrow makes it a transition; otherwise, an equals
/// sign with a single word before it makes it a place.
pub open spec fn shape(l: Seq<char>) -> Line {
    let a = text::find_arrow(l);
    if a < l.len() {
        let lhs = l.take(a as int);
        let named = text::find(lhs, ':') < lhs.len();
        Line::Transition {
            name: if named {
                text::trimmed(text::before(lhs, ':'))
            } else {
                Seq::empty()
            },
            ins: text::words(
                if named {
                    text::after(lhs, ':')
                } else {
                    lhs
                },
            ),
            outs: text::words(l.skip(a as int + 2)),
        }
    } else if text::find(l, '=') < l.len() && text::words(
        text::before(l, '='),
    ).len() == 1 {
        Line::Place {
            name: text::words(text::before(l, '='))[0],
            count: text::trimmed(text::after(l, '=')),
        }
    } else {
        Line::Ignored
    }
}

/// The index of the first place with the given name, or the number of places.
pub open spec fn place_index(places: Seq<PlaceModel>, name: Seq<char>) -> nat
    decreases places.len(),
{
    if places.len() == 0 || places[0].name == name {
        0
    } else {
        1 + place_index(places.drop_first(), name)
    }
}

/// The places, with a new empty one at the end if the name is new.
pub open spec fn with_place(places: Seq<PlaceModel>, name: Seq<char>) -> Seq<PlaceModel> {
    if place_index(places, name) < places.len() {
        places
    } else {
        places.push(PlaceModel { name, init: 0 })
    }
}

/// The places once all `names` have been met, in order.
pub open spec fn with_places(places: Seq<PlaceModel>, names: Seq<Seq<char>>) -> Seq<PlaceModel>
    decreases names.len(),
{
    if names.len() == 0 {
        places
    } else {
        with_place(with_places(places, names.drop_last()), names.last())
    }
}

/// The indices of the places called `names`.
pub open spec fn place_indices(places: Seq<PlaceModel>, names: Seq<Seq<char>>) -> Seq<usize> {
    Seq::new(names.len(), |i: int| place_index(places, names[i]) as usize)
}

/// The name of a transition: the given one, or `t` and its number.
pub open spec fn transition_name(given: Seq<char>, earlier: nat) -> Seq<char> {
    if given.len() == 0 {
        "t"@ + text::decimal(earlier + 1)
    } else {
        given
    }
}

/// The net once the line with number `lno` has been read, or the message
/// that says what is wrong with the line.
pub open spec fn line_read(net: NetModel, lno: nat, raw: Seq<char>) -> Result<
    NetModel,
    Seq<char>,
> {
    match shape(content(raw)) {
        Line::Ignored => Ok(net),
        Line::Place { name, count } => match text::u32_value(count) {
            None => Err(
                "line "@ + text::decimal(lno) + ": bad token count '"@ + count + "'"@,
            ),
            Some(tokens) => {
                let places = with_place(net.places, name);
                let i = place_index(net.places, name) as int;
                Ok(
                    NetModel {
                        places: places.update(i, PlaceModel { name, init: tokens }),
                        trans: net.trans,
                    },
                )
            },
        },
        Line::Transition { name, ins, outs } => if ins.len() == 0 && outs.len() == 0 {
            Err("line "@ + text::decimal(lno) + ": transition with no places"@)
        } else {
            let places = with_places(with_places(net.places, ins), outs);
            Ok(
                NetModel {
                    places,
                    trans: net.trans.push(
                        TransModel {
                            name: transition_name(name, net.trans.len()),
                            ins: place_indices(places, ins),
                            outs: place_indices(places, outs),
                        },
                    ),
                },
            )
        },
    }
}

/// The net once the first `k` lines have been read, or the first message.
pub open spec fn lines_read(ls: Seq<Seq<char>>, k: nat) -> Result<NetModel, Seq<char>>
    decreases k,
{
    if k == 0 {
        Ok(NetModel { places: Seq::empty(), trans: Seq::empty() })
    } else {
        match lines_read(ls, (k - 1) as nat) {
            Err(e) => Err(e),
            Ok(net) => line_read(net, k, ls[k - 1]),
        }
    }
}

/// What a text denotes: a net, or the message that says why it is none.
pub open spec fn parsed(text: Seq<char>) -> Result<NetModel, Seq<char>> {
    lines_parsed(text::lines(text))
}

/// What a text with the given lines denotes.
pub open spec fn lines_parsed(ls: Seq<Seq<char>>) -> Result<NetModel, Seq<char>> {
    match lines_read(ls, ls.len()) {
        Err(e) => Err(e),
        Ok(net) => if net.trans.len() == 0 {
            Err("no transitions found (need lines like  name: a b -> c)"@)
        } else {
            Ok(net)
        },
    }
}

// ---------------------------------------------------------------------
// Facts about the format
// ---------------------------------------------------------------------

/// No two places share a name.
pub open spec fn names_distinct(places: Seq<PlaceModel>) -> bool {
    forall|i: int, j: int|
        0 <= i < j < places.len() ==> (#[trigger] places[i]).name != (#[trigger] places[j]).name
}

/// The places of `a` stand, in order, at the beginning of `b`.
pub open spec fn names_extend(a: Seq<PlaceModel>, b: Seq<PlaceModel>) -> bool {
    &&& a.len() <= b.len()
    &&& forall|i: int| 0 <= i < a.len() ==> (#[trigger] a[i]).name == b[i].name
}

/// `place_index` gives the first place of that name.
pub proof fn lemma_place_index(places: Seq<PlaceModel>, name: Seq<char>)
    ensures
        place_index(places, name) <= places.len(),
        place_index(places, name) < places.len() ==> places[place_index(
            places,
            name,
        ) as int].name == name,
        forall|i: int| 0 <= i < place_index(places, name) ==> (#[trigger] places[i]).name != name,
    decreases places.len(),
{
    if places.len() > 0 && places[0].name != name {
        let d = places.drop_first();
        lemma_place_index(d, name);
        assert forall|i: int| 0 <= i < place_index(places, name) implies (
        #[trigger] places[i]).name != name by {
            if i > 0 {
                assert(places[i] == d[i - 1]);
            }
        }
    }
}

/// A position with the name, and none before it, is the index of the name.
proof fn lemma_place_index_is(places: Seq<PlaceModel>, name: Seq<char>, k: int)
    requires
        0 <= k < places.len(),
        places[k].name == name,
        forall|i: int| 0 <= i < k ==> (#[trigger] places[i]).name != name,
    ensures
        place_index(places, name) == k,
{
    lemma_place_index(places, name);
}

/// Meeting a name keeps the names met before, and gives the name an index.
pub proof fn lemma_with_place(places: Seq<PlaceModel>, name: Seq<char>)
    requires
        names_distinct(places),
    ensures
        names_distinct(with_place(places, name)),
        names_extend(places, with_place(places, name)),
        place_index(places, name) < with_place(places, name).len(),
        with_place(places, name)[place_index(places, name) as int].name == name,
        place_index(with_place(places, name), name) == place_index(places, name),
        with_place(places, name).len() <= places.len() + 1,
{
    lemma_place_index(places, name);
    let b = with_place(places, name);
    let k = place_index(places, name) as int;
    assert forall|i: int| 0 <= i < k implies (#[trigger] b[i]).name != name by {
        assert(b[i] == places[i]);
    }
    lemma_place_index_is(b, name, k);
}

/// A name keeps its index while other names are added.
pub proof fn lemma_index_stable(a: Seq<PlaceModel>, b: Seq<PlaceModel>, name: Seq<char>)
    requires
        names_extend(a, b),
        place_index(a, name) < a.len(),
    ensures
        place_index(b, name) == place_index(a, name),
{
    lemma_place_index(a, name);
    let k = place_index(a, name) as int;
    assert(a[k].name == b[k].name);
    assert forall|i: int| 0 <= i < k implies (#[trigger] b[i]).name != name by {
        assert(a[i].name == b[i].name);
    }
    lemma_place_index_is(b, name, k);
}

/// What stands at the beginning of a beginning stands at the beginning.
pub proof fn lemma_extend_trans(a: Seq<PlaceModel>, b: Seq<PlaceModel>, c: Seq<PlaceModel>)
    requires
        names_extend(a, b),
        names_extend(b, c),
    ensures
        names_extend(a, c),
{
    assert forall|i: int| 0 <= i < a.len() implies (#[trigger] a[i]).name == c[i].name by {
        assert(b[i].name == c[i].name);
    }
}

/// Meeting several names keeps the names met before, and gives each an index.
pub proof fn lemma_with_places(places: Seq<PlaceModel>, names: Seq<Seq<char>>)
    requires
        names_distinct(places),
    ensures
        names_distinct(with_places(places, names)),
        names_extend(places, with_places(places, names)),
        forall|i: int|
            0 <= i < names.len() ==> place_index(
                with_places(places, names),
                #[trigger] names[i],
            ) < with_places(places, names).len(),
    decreases names.len(),
{
    if names.len() > 0 {
        let a = with_places(places, names.drop_last());
        let b = with_places(places, names);
        lemma_with_places(places, names.drop_last());
        lemma_with_place(a, names.last());
        lemma_extend_trans(places, a, b);
        assert forall|i: int| 0 <= i < names.len() implies place_index(b, #[trigger] names[i])
            < b.len() by {
            if i < names.len() - 1 {
                assert(names.drop_last()[i] == names[i]);
                lemma_index_stable(a, b, names[i]);
            }
        }
    }
}

/// What holds of a net while it is being read.
pub open spec fn partial(net: NetModel) -> bool {
    &&& net.arcs_valid()
    &&& names_distinct(net.places)
    &&& forall|t: int|
        0 <= t < net.trans.len() ==> (#[trigger] net.trans[t]).ins.len() > 0
            || net.trans[t].outs.len() > 0
}

/// A line keeps the net in order.
proof fn lemma_line_read(net: NetModel, lno: nat, raw: Seq<char>)
    requires
        partial(net),
        line_read(net, lno, raw) is Ok,
        line_read(net, lno, raw)->Ok_0.places.len() <= usize::MAX,
    ensures
        partial(line_read(net, lno, raw)->Ok_0),
{
    let r = line_read(net, lno, raw)->Ok_0;
    match shape(content(raw)) {
        Line::Ignored => {},
        Line::Place { name, count } => {
            lemma_with_place(net.places, name);
            let b = with_place(net.places, name);
            assert forall|i: int, j: int| 0 <= i < j < r.places.len() implies (
            #[trigger] r.places[i]).name != (#[trigger] r.places[j]).name by {
                assert(r.places[i].name == b[i].name);
                assert(r.places[j].name == b[j].name);
            }
        },
        Line::Transition { name, ins, outs } => {
            let a = with_places(net.places, ins);
            let b = with_places(a, outs);
            lemma_with_places(net.places, ins);
            lemma_with_places(a, outs);
            assert(b == r.places);
            let n = net.trans.len() as int;
            assert forall|t: int| 0 <= t < r.trans.len() implies ({
                &&& forall|i: int|
                    0 <= i < (#[trigger] r.trans[t]).ins.len() ==> r.trans[t].ins[i]
                        < r.places.len()
                &&& forall|i: int|
                    0 <= i < r.trans[t].outs.len() ==> r.trans[t].outs[i] < r.places.len()
            }) by {
                if t < n {
                    assert(r.trans[t] == net.trans[t]);
                } else {
                    assert forall|i: int| 0 <= i < ins.len() implies r.trans[t].ins[i]
                        < r.places.len() by {
                        lemma_index_stable(a, b, ins[i]);
                    }
                }
            }
            assert forall|t: int| 0 <= t < r.trans.len() implies (
            #[trigger] r.trans[t]).ins.len() > 0 || r.trans[t].outs.len() > 0 by {
                if t < n {
                    assert(r.trans[t] == net.trans[t]);
                }
            }
        },
    }
}

/// A blank line is ignored.
pub proof fn lemma_blank_ignored(raw: Seq<char>)
    requires
        forall|i: int| 0 <= i < raw.len() ==> text::white_space(#[trigger] raw[i]),
    ensures
        shape(content(raw)) is Ignored,
{
    text::lemma_find(raw, '#');
    let b = text::before(raw, '#');
    text::lemma_blank_trimmed(b);
}

/// A message stays the result, whatever lines follow.
pub proof fn lemma_error_stays(ls: Seq<Seq<char>>, k: nat, n: nat)
    requires
        k <= n,
        lines_read(ls, k) is Err,
    ensures
        lines_read(ls, n) == lines_read(ls, k),
    decreases n,
{
    if k < n {
        lemma_error_stays(ls, k, (n - 1) as nat);
    }
}

// ---------------------------------------------------------------------
// The reader
// ---------------------------------------------------------------------

/// The index of the place called `name`, which is added if it is new.
fn place_idx(places: &mut Vec<PlaceDef>, name: String) -> (r: usize)
    requires
        names_distinct(place_views(old(places)@)),
    ensures
        r == place_index(place_views(old(places)@), name@),
        place_views(final(places)@) == with_place(place_views(old(places)@), name@),
        r < final(places)@.len(),
{
    let ghost ps = place_views(places@);
    let mut i: usize = 0;
    while i < places.len()
        invariant
            i <= places.len(),
            places@ == old(places)@,
            ps == place_views(places@),
            forall|j: int| 0 <= j < i ==> (#[trigger] ps[j]).name != name@,
        decreases places.len() - i,
    {
        if places[i].name == name {
            proof {
                assert(ps[i as int].name == name@);
                lemma_place_index_is(ps, name@, i as int);
            }
            return i;
        }
        assert(ps[i as int].name != name@);
        i = i + 1;
    }
    proof {
        lemma_place_index(ps, name@);
    }
    places.push(PlaceDef { name, init: 0 });
    assert(place_views(places@) =~= with_place(ps, name@));
    places.len() - 1
}

/// The views of a sequence of places.
pub open spec fn place_views(places: Seq<PlaceDef>) -> Seq<PlaceModel> {
    Seq::new(places.len(), |i: int| places[i]@)
}

/// The indices of the places called `names`; new ones are added.
fn place_idxs(places: &mut Vec<PlaceDef>, names: &Vec<String>) -> (r: Vec<usize>)
    requires
        names_distinct(place_views(old(places)@)),
    ensures
        place_views(final(places)@) == with_places(
            place_views(old(places)@),
            text::views(names@),
        ),
        r@ == place_indices(place_views(final(places)@), text::views(names@)),
        names_distinct(place_views(final(places)@)),
        names_extend(place_views(old(places)@), place_views(final(places)@)),
{
    let ghost ps = place_views(places@);
    let ghost ws = text::views(names@);
    let mut r: Vec<usize> = Vec::new();
    let mut k: usize = 0;
    assert(ws.take(0) =~= Seq::<Seq<char>>::empty());
    while k < names.len()
        invariant
            k <= names.len(),
            ws == text::views(names@),
            names_distinct(ps),
            place_views(places@) == with_places(ps, ws.take(k as int)),
            r@ == place_indices(place_views(places@), ws.take(k as int)),
        decreases names.len() - k,
    {
        let ghost a = place_views(places@);
        let ghost prev = r@;
        let ghost done = ws.take(k as int);
        proof {
            lemma_with_places(ps, done);
            lemma_with_place(a, ws[k as int]);
            assert(ws.take(k + 1).drop_last() =~= done);
        }
        let i = place_idx(places, names[k].clone());
        r.push(i);
        k = k + 1;
        proof {
            let b = place_views(places@);
            assert forall|j: int| 0 <= j < done.len() implies #[trigger] prev[j] == place_index(
                b,
                done[j],
            ) as usize by {
                lemma_index_stable(a, b, done[j]);
            }
            assert(r@ =~= place_indices(b, ws.take(k as int)));
        }
    }
    proof {
        assert(ws.take(k as int) =~= ws);
        lemma_with_places(ps, ws);
    }
    r
}

/// Reads one line into the net.
fn read_line(net: &mut Net, lno: usize, raw: &[char]) -> (r: Result<(), String>)
    requires
        partial(old(net)@),
        old(net)@.trans.len() < lno,
    ensures
        match r {
            Ok(_) => line_read(old(net)@, lno as nat, raw@) == Ok::<NetModel, Seq<char>>(
                final(net)@,
            ) && partial(final(net)@) && final(net)@.trans.len() <= lno,
            Err(e) => line_read(old(net)@, lno as nat, raw@) == Err::<NetModel, Seq<char>>(e@),
        },
{
    let ghost before = net@;
    let line = trim(slice_subrange(raw, 0, find_char(raw, '#')));
    assert(line@ == content(raw@));
    let arrow = find_arrow_in(line);
    if arrow < line.len() {
        proof {
            text::lemma_find_arrow(line@);
        }
        let lhs = slice_subrange(line, 0, arrow);
        let rhs = slice_subrange(line, arrow + 2, line.len());
        assert(lhs@ =~= line@.take(arrow as int));
        assert(rhs@ =~= line@.skip(arrow as int + 2));
        let colon = find_char(lhs, ':');
        let mut name = String::new();
        let mut ins_str = lhs;
        assert(name@ =~= Seq::<char>::empty());
        if colon < lhs.len() {
            name = string_of(trim(slice_subrange(lhs, 0, colon)));
            ins_str = slice_subrange(lhs, colon + 1, lhs.len());
            assert(ins_str@ =~= lhs@.skip(colon as int + 1));
        }
        let ins_words = split_words(ins_str);
        let outs_words = split_words(rhs);
        let ghost ins = text::views(ins_words@);
        let ghost outs = text::views(outs_words@);
        assert(shape(line@) == Line::Transition { name: name@, ins, outs });
        if ins_words.len() == 0 && outs_words.len() == 0 {
            let mut e = String::new();
            e.append("line ");
            push_decimal(&mut e, lno as u64);
            e.append(": transition with no places");
            assert(e@ =~= "line "@ + text::decimal(lno as nat)
                + ": transition with no places"@);
            return Err(e);
        }
        if name.as_str().is_empty() {
            name = String::new();
            name.append("t");
            push_decimal(&mut name, net.trans.len() as u64 + 1);
        }
        let ghost given = shape(line@)->Transition_name;
        assert(name@ =~= transition_name(given, before.trans.len()));
        assert(place_views(net.places@) =~= before.places);
        let mut places: Vec<PlaceDef> = Vec::new();
        std::mem::swap(&mut places, &mut net.places);
        let first = place_idxs(&mut places, &ins_words);
        let ghost a = place_views(places@);
        let second = place_idxs(&mut places, &outs_words);
        let ghost b = place_views(places@);
        proof {
            lemma_with_places(before.places, ins);
            assert forall|i: int| 0 <= i < ins.len() implies #[trigger] first@[i] == place_index(
                b,
                ins[i],
            ) as usize by {
                lemma_index_stable(a, b, ins[i]);
            }
            assert(first@ =~= place_indices(b, ins));
        }
        std::mem::swap(&mut places, &mut net.places);
        net.trans.push(Trans { name, ins: first, outs: second });
        proof {
            assert(net@.places =~= b);
            assert(b.len() == net.places.len());
            assert(net@.trans =~= line_read(before, lno as nat, raw@)->Ok_0.trans);
            lemma_line_read(before, lno as nat, raw@);
        }
        return Ok(());
    }
    let eq = find_char(line, '=');
    if eq < line.len() {
        let lhs = slice_subrange(line, 0, eq);
        let rhs = slice_subrange(line, eq + 1, line.len());
        assert(lhs@ =~= line@.take(eq as int));
        assert(rhs@ =~= line@.skip(eq as int + 1));
        let mut ws = split_words(lhs);
        if ws.len() != 1 {
            assert(shape(line@) is Ignored);
            return Ok(());
        }
        assert(text::views(ws@)[0] == ws@[0]@);
        let name = ws.remove(0);
        let count = trim(rhs);
        assert(shape(line@) == Line::Place { name: name@, count: count@ });
        let tokens = match read_u32(count) {
            None => {
                let mut e = String::new();
                e.append("line ");
                push_decimal(&mut e, lno as u64);
                e.append(": bad token count '");
                e.append(string_of(count).as_str());
                e.append("'");
                assert(e@ =~= "line "@ + text::decimal(lno as nat) + ": bad token count '"@
                    + count@ + "'"@);
                return Err(e);
            },
            Some(v) => v,
        };
        let ghost name_view = name@;
        assert(place_views(net.places@) =~= before.places);
        let mut places: Vec<PlaceDef> = Vec::new();
        std::mem::swap(&mut places, &mut net.places);
        proof {
            lemma_with_place(before.places, name_view);
        }
        let i = place_idx(&mut places, name);
        let ghost b = place_views(places@);
        assert(b[i as int].name == name_view);
        let same_name = places[i].name.clone();
        places.set(i, PlaceDef { name: same_name, init: tokens });
        std::mem::swap(&mut places, &mut net.places);
        proof {
            assert(net@.places =~= line_read(before, lno as nat, raw@)->Ok_0.places);
            assert(net@.places.len() == net.places.len());
            assert(net@.trans =~= before.trans);
            lemma_line_read(before, lno as nat, raw@);
        }
    }
    Ok(())
}

impl Net {
    /// Parses the net format.
    pub fn parse(text: &str) -> (r: Result<Net, String>)
        ensures
            match r {
                Ok(net) => parsed(text@) == Ok::<NetModel, Seq<char>>(net@) && net@.well_formed(),
                Err(e) => parsed(text@) == Err::<NetModel, Seq<char>>(e@),
            },
    {
        let chars = chars_of(text);
        let ghost ls = text::lines(text@);
        let mut net = Net { places: Vec::new(), trans: Vec::new() };
        assert(net@ =~= NetModel { places: Seq::empty(), trans: Seq::empty() });
        let mut start: usize = 0;
        let mut lno: usize = 0;
        let mut done = false;
        assert(chars@.skip(0) =~= text@);
        assert(ls.skip(0) =~= ls);
        while !done
            invariant
                chars@ == text@,
                ls == text::lines(text@),
                start <= chars@.len(),
                !done ==> lno <= start,
                lno <= ls.len(),
                !done ==> text::lines(chars@.skip(start as int)) == ls.skip(lno as int),
                partial(net@),
                net@.trans.len() <= lno,
                !done ==> lines_read(ls, lno as nat) == Ok::<NetModel, Seq<char>>(net@),
                done ==> lines_read(ls, ls.len()) == Ok::<NetModel, Seq<char>>(net@),
            decreases
                (if done {
                    0
                } else {
                    chars@.len() - start + 1
                }),
        {
            let rest = slice_subrange(chars.as_slice(), start, chars.len());
            assert(rest@ =~= chars@.skip(start as int));
            let n = find_char(rest, '\n');
            let raw = slice_subrange(rest, 0, n);
            let last = n == rest.len();
            assert(raw@ =~= rest@.take(n as int));
            assert(text::lines(rest@)[0] == raw@);
            assert(ls.skip(lno as int).len() >= 1);
            assert(ls[lno as int] == ls.skip(lno as int)[0]);
            if rest.len() == 0 {
                // Nothing follows the last line feed.
                proof {
                    lemma_blank_ignored(raw@);
                    assert(text::lines(rest@).len() == 1);
                    assert(ls.len() == lno + 1);
                }
                done = true;
                continue;
            }
            lno = lno + 1;
            match read_line(&mut net, lno, raw) {
                Err(e) => {
                    proof {
                        lemma_error_stays(ls, lno as nat, ls.len());
                    }
                    return Err(e);
                },
                Ok(_) => {},
            }
            if last {
                assert(text::lines(rest@).len() == 1);
                done = true;
            } else {
                assert(rest@.skip(n + 1) =~= chars@.skip(start + n + 1));
                assert(text::lines(rest@).skip(1) =~= text::lines(rest@.skip(n + 1)));
                assert(ls.skip(lno - 1).skip(1) =~= ls.skip(lno as int));
                start = start + n + 1;
            }
        }
        if net.trans.len() == 0 {
            let mut e = String::new();
            e.append("no transitions found (need lines like  name: a b -> c)");
            assert(e@ =~= "no transitions found (need lines like  name: a b -> c)"@);
            return Err(e);
        }
        Ok(net)
    }
}

} // verus!

//! Laws of the net format: what does not matter in a file, and what a
//! repeated place means.
use crate::net::{PlaceModel, TransModel};
use crate::parse;
use crate::parse::Line;
use crate::text;
use vstd::prelude::*;

verus! {

// ---------------------------------------------------------------------
// Lines
// ---------------------------------------------------------------------

/// The lines of two texts with a line feed between them are the lines of the
/// one and the lines of the other.
pub proof fn law_lines_concat(a: Seq<char>, b: Seq<char>)
    ensures
        text::lines(a + seq!['\n'] + b) == text::lines(a) + text::lines(b),
    decreases a.len(),
{
    let s = a + seq!['\n'] + b;
    let tail = seq!['\n'] + b;
    assert(s =~= a + tail);
    text::lemma_find_first_part(a, tail, '\n');
    text::lemma_find(a, '\n');
    let n = text::find(a, '\n') as int;
    if n < a.len() {
        let rest = text::after(a, '\n');
        law_lines_concat(rest, b);
        assert(text::before(s, '\n') =~= text::before(a, '\n'));
        assert(text::after(s, '\n') =~= rest + seq!['\n'] + b);
        assert(text::lines(s) =~= text::lines(a) + text::lines(b));
    } else {
        assert(tail[0] == '\n');
        assert(text::before(s, '\n') =~= a);
        assert(text::after(s, '\n') =~= b);
        assert(text::lines(s) =~= text::lines(a) + text::lines(b));
    }
}

/// Two texts whose lines agree in what they hold besides indentation and
/// comments denote the same.
pub proof fn law_only_contents_matter(a: Seq<char>, b: Seq<char>)
    requires
        text::lines(a).len() == text::lines(b).len(),
        forall|i: int|
            0 <= i < text::lines(a).len() ==> parse::content(#[trigger] text::lines(a)[i])
                == parse::content(text::lines(b)[i]),
    ensures
        parse::parsed(a) == parse::parsed(b),
{
    lemma_same_contents(text::lines(a), text::lines(b), text::lines(a).len());
}

proof fn lemma_same_contents(a: Seq<Seq<char>>, b: Seq<Seq<char>>, k: nat)
    requires
        k <= a.len() == b.len(),
        forall|i: int|
            0 <= i < a.len() ==> parse::content(#[trigger] a[i]) == parse::content(b[i]),
    ensures
        parse::lines_read(a, k) == parse::lines_read(b, k),
    decreases k,
{
    if k > 0 {
        lemma_same_contents(a, b, (k - 1) as nat);
        assert(parse::content(a[k - 1]) == parse::content(b[k - 1]));
    }
}

/// Leading white space goes.
pub proof fn lemma_trimmed_indent(indent: Seq<char>, l: Seq<char>)
    requires
        forall|i: int| 0 <= i < indent.len() ==> text::white_space(#[trigger] indent[i]),
    ensures
        text::trimmed(indent + l) == text::trimmed(l),
    decreases indent.len(),
{
    if indent.len() == 0 {
        assert(indent + l =~= l);
    } else {
        assert((indent + l).drop_first() =~= indent.drop_first() + l);
        assert((indent + l)[0] == indent[0]);
        lemma_trimmed_indent(indent.drop_first(), l);
    }
}

proof fn lemma_trimmed_end_trail(l: Seq<char>, trail: Seq<char>)
    requires
        forall|i: int| 0 <= i < trail.len() ==> text::white_space(#[trigger] trail[i]),
    ensures
        text::trimmed_end(l + trail) == text::trimmed_end(l),
    decreases trail.len(),
{
    if trail.len() == 0 {
        assert(l + trail =~= l);
    } else {
        assert((l + trail).drop_last() =~= l + trail.drop_last());
        assert((l + trail).last() == trail.last());
        lemma_trimmed_end_trail(l, trail.drop_last());
    }
}

proof fn lemma_trimmed_trail(l: Seq<char>, trail: Seq<char>)
    requires
        forall|i: int| 0 <= i < trail.len() ==> text::white_space(#[trigger] trail[i]),
    ensures
        text::trimmed(l + trail) == text::trimmed(l),
    decreases l.len(),
{
    if l.len() == 0 {
        assert(l + trail =~= trail);
        text::lemma_blank_trimmed(trail);
        assert(text::trimmed(trail) =~= text::trimmed(l));
    } else if text::white_space(l[0]) {
        assert((l + trail).drop_first() =~= l.drop_first() + trail);
        lemma_trimmed_trail(l.drop_first(), trail);
    } else {
        lemma_trimmed_end_trail(l, trail);
    }
}

/// Indentation before a line, white space behind it, and a comment after it
/// do not change what the line holds.
pub proof fn law_indentation_and_comments_ignored(
    indent: Seq<char>,
    l: Seq<char>,
    trail: Seq<char>,
    comment: Seq<char>,
)
    requires
        forall|i: int| 0 <= i < indent.len() ==> text::white_space(#[trigger] indent[i]),
        forall|i: int| 0 <= i < trail.len() ==> text::white_space(#[trigger] trail[i]),
    ensures
        parse::content(indent + l + trail) == parse::content(l),
        parse::content(indent + l + trail + seq!['#'] + comment) == parse::content(l),
{
    lemma_content_framed(indent, l, trail, Seq::empty());
    assert(indent + (l + (trail + Seq::<char>::empty())) =~= indent + l + trail);
    lemma_content_framed(indent, l, trail, seq!['#'] + comment);
    assert(indent + (l + (trail + (seq!['#'] + comment))) =~= indent + l + trail + seq!['#']
        + comment);
}

/// What stands behind a line is nothing, or begins with the mark of a comment.
proof fn lemma_content_framed(
    indent: Seq<char>,
    l: Seq<char>,
    trail: Seq<char>,
    comment: Seq<char>,
)
    requires
        forall|i: int| 0 <= i < indent.len() ==> text::white_space(#[trigger] indent[i]),
        forall|i: int| 0 <= i < trail.len() ==> text::white_space(#[trigger] trail[i]),
        comment.len() > 0 ==> comment[0] == '#',
    ensures
        parse::content(indent + (l + (trail + comment))) == parse::content(l),
{
    let tail = trail + comment;
    let body = l + tail;
    let s = indent + body;
    text::lemma_find(indent, '#');
    text::lemma_find(trail, '#');
    text::lemma_find(l, '#');
    if text::find(indent, '#') < indent.len() {
        assert(text::white_space(indent[text::find(indent, '#') as int]));
    }
    if text::find(trail, '#') < trail.len() {
        assert(text::white_space(trail[text::find(trail, '#') as int]));
    }
    text::lemma_find_first_part(indent, body, '#');
    text::lemma_find_first_part(l, tail, '#');
    text::lemma_find_first_part(trail, comment, '#');
    let kept = text::before(body, '#');
    assert(text::before(s, '#') =~= indent + kept);
    lemma_trimmed_indent(indent, kept);
    if text::find(l, '#') < l.len() {
        assert(kept =~= text::before(l, '#'));
    } else {
        assert(text::before(l, '#') =~= l);
        assert(kept =~= l + trail);
        lemma_trimmed_trail(l, trail);
    }
}

// ---------------------------------------------------------------------
// Ignored lines
// ---------------------------------------------------------------------

/// A line that fits neither shape (a heading, prose, a blank line) can stand
/// anywhere in a file without changing the net: before the first line, between
/// two lines, and behind the last. Behind the last it does not change a
/// message either.
pub proof fn law_ignored_line(a: Seq<char>, l: Seq<char>, b: Seq<char>)
    requires
        parse::shape(parse::content(l)) is Ignored,
        !l.contains('\n'),
    ensures
        same_net(parse::parsed(l + seq!['\n'] + b), parse::parsed(b)),
        same_net(
            parse::parsed(a + seq!['\n'] + (l + seq!['\n'] + b)),
            parse::parsed(a + seq!['\n'] + b),
        ),
        parse::parsed(a + seq!['\n'] + l) == parse::parsed(a),
{
    law_lines_concat(a, b);
    law_lines_concat(a, l + seq!['\n'] + b);
    law_lines_concat(l, b);
    law_lines_concat(a, l);
    text::lemma_find(l, '\n');
    if text::find(l, '\n') < l.len() {
        assert(l.contains('\n'));
    }
    let x = text::lines(a);
    let y = text::lines(b);
    let none = Seq::<Seq<char>>::empty();
    assert(text::lines(l) == seq![l]);
    lemma_ignored_in_lines(none, l, y, y.len());
    assert(none + y =~= y);
    assert(none + seq![l] + y =~= seq![l] + y);
    lemma_ignored_in_lines(x, l, y, y.len());
    assert((x + y).len() == x.len() + y.len());
    assert(x + (seq![l] + y) =~= x + seq![l] + y);
    assert((x + seq![l] + y).len() == x.len() + 1 + y.len());
    lemma_prefix_read(x, seq![l], x.len());
    assert((x + seq![l])[x.len() as int] == l);
}

/// The two results are the same net, or both are messages.
pub open spec fn same_net(
    p: Result<crate::net::NetModel, Seq<char>>,
    q: Result<crate::net::NetModel, Seq<char>>,
) -> bool {
    match (p, q) {
        (Ok(m), Ok(n)) => m == n,
        (Err(_), Err(_)) => true,
        _ => false,
    }
}

/// The number of a line matters only to a message.
proof fn lemma_line_number(net: crate::net::NetModel, j: nat, k: nat, raw: Seq<char>)
    ensures
        same_net(parse::line_read(net, j, raw), parse::line_read(net, k, raw)),
{
}

proof fn lemma_prefix_read(x: Seq<Seq<char>>, y: Seq<Seq<char>>, k: nat)
    requires
        k <= x.len(),
    ensures
        parse::lines_read(x + y, k) == parse::lines_read(x, k),
    decreases k,
{
    if k > 0 {
        lemma_prefix_read(x, y, (k - 1) as nat);
        assert((x + y)[k - 1] == x[k - 1]);
    }
}

proof fn lemma_ignored_in_lines(x: Seq<Seq<char>>, l: Seq<char>, y: Seq<Seq<char>>, k: nat)
    requires
        parse::shape(parse::content(l)) is Ignored,
        k <= y.len(),
    ensures
        same_net(
            parse::lines_read(x + y, x.len() + k),
            parse::lines_read(x + seq![l] + y, x.len() + 1 + k),
        ),
    decreases k,
{
    let p = x + y;
    let q = x + seq![l] + y;
    if k == 0 {
        lemma_prefix_read(x, y, x.len());
        assert(q =~= x + (seq![l] + y));
        lemma_prefix_read(x, seq![l] + y, x.len());
        assert(q[x.len() as int] == l);
    } else {
        lemma_ignored_in_lines(x, l, y, (k - 1) as nat);
        assert(p[x.len() + k - 1] == y[k - 1]);
        assert(q[x.len() + 1 + k - 1] == y[k - 1]);
        let before = parse::lines_read(p, (x.len() + k - 1) as nat);
        if before is Ok {
            lemma_line_number(before->Ok_0, x.len() + k, x.len() + 1 + k, y[k - 1]);
        }
    }
}

/// The first line with a mistake decides: its message is the result, whatever
/// follows it.
pub proof fn law_first_mistake_decides(ls: Seq<Seq<char>>, k: nat)
    requires
        k <= ls.len(),
        parse::lines_read(ls, k) is Err,
    ensures
        parse::lines_parsed(ls) == parse::lines_read(ls, k),
{
    parse::lemma_error_stays(ls, k, ls.len());
}

/// There is nothing wrong with the line: a place has a count, a transition has
/// a place.
pub open spec fn acceptable(l: Line) -> bool {
    match l {
        Line::Ignored => true,
        Line::Place { name, count } => text::u32_value(count) is Some,
        Line::Transition { name, ins, outs } => ins.len() > 0 || outs.len() > 0,
    }
}

/// The shape of line `i`.
pub open spec fn shape_at(ls: Seq<Seq<char>>, i: int) -> Line {
    parse::shape(parse::content(ls[i]))
}

proof fn lemma_when_read(ls: Seq<Seq<char>>, k: nat)
    requires
        k <= ls.len(),
    ensures
        parse::lines_read(ls, k) is Ok <==> forall|i: int|
            0 <= i < k ==> acceptable(#[trigger] shape_at(ls, i)),
        parse::lines_read(ls, k) is Ok ==> (parse::lines_read(ls, k)->Ok_0.trans.len() > 0
            <==> exists|i: int| 0 <= i < k && #[trigger] shape_at(ls, i) is Transition),
    decreases k,
{
    if k > 0 {
        lemma_when_read(ls, (k - 1) as nat);
        let last = shape_at(ls, k - 1);
        if parse::lines_read(ls, k) is Ok {
            assert(acceptable(last));
            if last is Transition {
                assert(parse::lines_read(ls, k)->Ok_0.trans.len() > 0);
            }
        }
    }
}

/// A text is read as a net exactly if nothing is wrong with any of its lines,
/// and one of them is a transition.
pub proof fn law_when_read(s: Seq<char>)
    ensures
        parse::parsed(s) is Ok <==> {
            let ls = text::lines(s);
            &&& forall|i: int| 0 <= i < ls.len() ==> acceptable(#[trigger] shape_at(ls, i))
            &&& exists|i: int| 0 <= i < ls.len() && #[trigger] shape_at(ls, i) is Transition
        },
{
    lemma_when_read(text::lines(s), text::lines(s).len());
}

/// A line never takes anything back: the transitions read before stay as they
/// are, and the places keep their names and positions.
pub proof fn law_lines_only_add(net: crate::net::NetModel, lno: nat, raw: Seq<char>)
    requires
        parse::partial(net),
        parse::line_read(net, lno, raw) is Ok,
    ensures
        ({
            let r = parse::line_read(net, lno, raw)->Ok_0;
            &&& net.trans.len() <= r.trans.len() <= net.trans.len() + 1
            &&& r.trans.take(net.trans.len() as int) == net.trans
            &&& parse::names_extend(net.places, r.places)
        }),
{
    let r = parse::line_read(net, lno, raw)->Ok_0;
    assert(r.trans.take(net.trans.len() as int) =~= net.trans);
    match parse::shape(parse::content(raw)) {
        Line::Ignored => {},
        Line::Place { name, count } => {
            parse::lemma_with_place(net.places, name);
        },
        Line::Transition { name, ins, outs } => {
            let a = parse::with_places(net.places, ins);
            parse::lemma_with_places(net.places, ins);
            parse::lemma_with_places(a, outs);
            parse::lemma_extend_trans(net.places, a, r.places);
        },
    }
}

/// A line `name = N` gives that place `N` tokens, whether it is new or known,
/// and changes the tokens of no other place.
pub proof fn law_place_line_sets_tokens(
    net: crate::net::NetModel,
    lno: nat,
    raw: Seq<char>,
    tokens: u32,
)
    requires
        parse::partial(net),
        parse::shape(parse::content(raw)) is Place,
        text::u32_value(parse::shape(parse::content(raw))->count) == Some(tokens),
    ensures
        parse::line_read(net, lno, raw) is Ok,
        ({
            let name = parse::shape(parse::content(raw))->Place_name;
            let r = parse::line_read(net, lno, raw)->Ok_0;
            let i = parse::place_index(r.places, name) as int;
            &&& i < r.places.len()
            &&& r.places[i].init == tokens
            &&& forall|j: int|
                0 <= j < net.places.len() && j != i ==> #[trigger] r.places[j] == net.places[j]
            &&& r.trans == net.trans
        }),
{
    let name = parse::shape(parse::content(raw))->Place_name;
    let r = parse::line_read(net, lno, raw)->Ok_0;
    parse::lemma_with_place(net.places, name);
    let b = parse::with_place(net.places, name);
    assert forall|j: int| 0 <= j < b.len() implies (#[trigger] b[j]).name == r.places[j].name by {}
    assert(parse::names_extend(b, r.places));
    parse::lemma_index_stable(b, r.places, name);
}

// ---------------------------------------------------------------------
// Names
// ---------------------------------------------------------------------

/// A text without the mark of a comment.
pub open spec fn is_plain(s: Seq<char>) -> bool {
    forall|i: int| 0 <= i < s.len() ==> #[trigger] s[i] != '#'
}

/// What a name of a place looks like: a word without the mark of a comment.
pub open spec fn is_name(s: Seq<char>) -> bool {
    text::is_word(s) && is_plain(s)
}

/// Trimming takes characters off the ends only.
proof fn lemma_trimmed_plain(s: Seq<char>)
    requires
        is_plain(s),
    ensures
        is_plain(text::trimmed_start(s)),
        is_plain(text::trimmed_end(s)),
    decreases s.len(),
{
    if s.len() > 0 {
        assert forall|i: int| 0 <= i < s.len() - 1 implies #[trigger] s.drop_first()[i] != '#' by {
            assert(s[i + 1] != '#');
        }
        assert forall|i: int| 0 <= i < s.len() - 1 implies #[trigger] s.drop_last()[i] != '#' by {
            assert(s[i] != '#');
        }
        lemma_trimmed_plain(s.drop_first());
        lemma_trimmed_plain(s.drop_last());
    }
}

/// A part of a plain text is plain.
proof fn lemma_part_plain(s: Seq<char>, i: int, j: int)
    requires
        is_plain(s),
        0 <= i <= j <= s.len(),
    ensures
        is_plain(s.subrange(i, j)),
{
    assert forall|k: int| 0 <= k < j - i implies #[trigger] s.subrange(i, j)[k] != '#' by {
        assert(s[i + k] != '#');
    }
}

/// What a line holds is plain.
proof fn lemma_content_plain(raw: Seq<char>)
    ensures
        is_plain(parse::content(raw)),
{
    text::lemma_find(raw, '#');
    let kept = text::before(raw, '#');
    assert forall|i: int| 0 <= i < kept.len() implies #[trigger] kept[i] != '#' by {
        assert(raw[i] != '#');
    }
    lemma_trimmed_plain(kept);
    lemma_trimmed_plain(text::trimmed_start(kept));
}

/// What a plain text is split into are names.
proof fn lemma_words(s: Seq<char>)
    requires
        is_plain(s),
    ensures
        forall|i: int| 0 <= i < text::words(s).len() ==> is_name(#[trigger] text::words(s)[i]),
    decreases s.len(),
{
    let t = text::trimmed_start(s);
    text::lemma_trimmed_start_len(s);
    if t.len() > 0 {
        text::lemma_word_len(t);
        let n = text::word_len(t) as int;
        let first = t.take(n);
        let rest = t.skip(n);
        assert(n > 0);
        assert forall|i: int| 0 <= i < first.len() implies !text::white_space(
            #[trigger] first[i],
        ) by {
            assert(first[i] == t[i]);
        }
        lemma_trimmed_plain(s);
        lemma_part_plain(t, 0, n);
        lemma_part_plain(t, n, t.len() as int);
        assert(first =~= t.subrange(0, n));
        assert(rest =~= t.subrange(n, t.len() as int));
        lemma_words(rest);
        assert forall|i: int| 0 <= i < text::words(s).len() implies is_name(
            #[trigger] text::words(s)[i],
        ) by {
            if i > 0 {
                assert(text::words(s)[i] == text::words(rest)[i - 1]);
            }
        }
    }
}

/// All names of places are words without the mark of a comment.
pub open spec fn places_named(places: Seq<PlaceModel>) -> bool {
    forall|i: int| 0 <= i < places.len() ==> is_name((#[trigger] places[i]).name)
}

/// All names of transitions hold something, and no mark of a comment.
pub open spec fn transitions_named(trans: Seq<TransModel>) -> bool {
    forall|t: int|
        0 <= t < trans.len() ==> (#[trigger] trans[t]).name.len() > 0 && is_plain(trans[t].name)
}

proof fn lemma_with_places_named(places: Seq<PlaceModel>, names: Seq<Seq<char>>)
    requires
        places_named(places),
        forall|i: int| 0 <= i < names.len() ==> is_name(#[trigger] names[i]),
    ensures
        places_named(parse::with_places(places, names)),
    decreases names.len(),
{
    if names.len() > 0 {
        let shorter = names.drop_last();
        assert forall|i: int| 0 <= i < shorter.len() implies is_name(#[trigger] shorter[i]) by {
            assert(shorter[i] == names[i]);
        }
        lemma_with_places_named(places, shorter);
        assert(is_name(names[names.len() - 1]));
    }
}

proof fn lemma_decimal_plain(n: nat)
    ensures
        is_plain(text::decimal(n)),
{
    text::lemma_decimal(n);
    assert forall|i: int| 0 <= i < text::decimal(n).len() implies #[trigger] text::decimal(n)[i]
        != '#' by {
        assert(text::is_digit(text::decimal(n)[i]));
    }
}

proof fn lemma_transition_name(given: Seq<char>, earlier: nat)
    requires
        is_plain(given),
    ensures
        parse::transition_name(given, earlier).len() > 0,
        is_plain(parse::transition_name(given, earlier)),
{
    reveal_strlit("t");
    lemma_decimal_plain(earlier + 1);
    let made = "t"@ + text::decimal(earlier + 1);
    assert forall|i: int| 0 <= i < made.len() implies #[trigger] made[i] != '#' by {
        if i > 0 {
            assert(made[i] == text::decimal(earlier + 1)[i - 1]);
        }
    }
}

proof fn lemma_lines_named(ls: Seq<Seq<char>>, k: nat)
    requires
        k <= ls.len(),
    ensures
        parse::lines_read(ls, k) is Ok ==> places_named(parse::lines_read(ls, k)->Ok_0.places)
            && transitions_named(parse::lines_read(ls, k)->Ok_0.trans),
    decreases k,
{
    if k > 0 && parse::lines_read(ls, k) is Ok {
        lemma_lines_named(ls, (k - 1) as nat);
        let net = parse::lines_read(ls, (k - 1) as nat)->Ok_0;
        let l = parse::content(ls[k - 1]);
        lemma_content_plain(ls[k - 1]);
        match parse::shape(l) {
            Line::Ignored => {},
            Line::Place { name, count } => {
                text::lemma_find(l, '=');
                lemma_part_plain(l, 0, text::find(l, '=') as int);
                assert(text::before(l, '=') =~= l.subrange(0, text::find(l, '=') as int));
                lemma_words(text::before(l, '='));
                assert(is_name(name));
                parse::lemma_place_index(net.places, name);
                let b = parse::with_place(net.places, name);
                let r = parse::lines_read(ls, k)->Ok_0.places;
                assert forall|i: int| 0 <= i < r.len() implies is_name((#[trigger] r[i]).name) by {
                    if i != parse::place_index(net.places, name) {
                        assert(r[i] == b[i]);
                        assert(b[i] == net.places[i]);
                    }
                }
            },
            Line::Transition { name, ins, outs } => {
                let n = text::find_arrow(l) as int;
                let lhs = l.take(n);
                let rhs = l.skip(n + 2);
                text::lemma_find_arrow(l);
                lemma_part_plain(l, 0, n);
                lemma_part_plain(l, n + 2, l.len() as int);
                assert(lhs =~= l.subrange(0, n));
                assert(rhs =~= l.subrange(n + 2, l.len() as int));
                lemma_words(lhs);
                lemma_words(rhs);
                let c = text::find(lhs, ':') as int;
                text::lemma_find(lhs, ':');
                if c < lhs.len() {
                    lemma_part_plain(lhs, 0, c);
                    lemma_part_plain(lhs, c + 1, lhs.len() as int);
                    assert(text::before(lhs, ':') =~= lhs.subrange(0, c));
                    assert(text::after(lhs, ':') =~= lhs.subrange(c + 1, lhs.len() as int));
                    lemma_words(text::after(lhs, ':'));
                    lemma_trimmed_plain(text::before(lhs, ':'));
                    lemma_trimmed_plain(text::trimmed_start(text::before(lhs, ':')));
                }
                lemma_transition_name(name, net.trans.len());
                lemma_with_places_named(net.places, ins);
                lemma_with_places_named(parse::with_places(net.places, ins), outs);
            },
        }
    }
}

/// The places of every net that is read are named by words: no name is empty,
/// or holds white space or the mark of a comment. Its transitions have names
/// that are not empty and hold no mark of a comment.
pub proof fn law_names(s: Seq<char>)
    requires
        parse::parsed(s) is Ok,
    ensures
        places_named(parse::parsed(s)->Ok_0.places),
        transitions_named(parse::parsed(s)->Ok_0.trans),
{
    lemma_lines_named(text::lines(s), text::lines(s).len());
}

// ---------------------------------------------------------------------
// Repetition is weight
// ---------------------------------------------------------------------

/// How often `name` stands among `names`.
pub open spec fn occurrences(names: Seq<Seq<char>>, name: Seq<char>) -> nat
    decreases names.len(),
{
    if names.len() == 0 {
        0
    } else {
        occurrences(names.drop_last(), name) + (if names.last() == name {
            1nat
        } else {
            0nat
        })
    }
}

/// The weight of the arcs to a place is the number of times that the line
/// repeats its name.
pub proof fn law_repetition_is_weight(
    places: Seq<PlaceModel>,
    names: Seq<Seq<char>>,
    name: Seq<char>,
)
    requires
        places.len() <= usize::MAX,
        parse::place_index(places, name) < places.len(),
        forall|i: int|
            0 <= i < names.len() ==> parse::place_index(places, #[trigger] names[i])
                < places.len(),
    ensures
        crate::net::weight(
            parse::place_indices(places, names),
            parse::place_index(places, name) as int,
        ) == occurrences(names, name),
    decreases names.len(),
{
    let arcs = parse::place_indices(places, names);
    if names.len() > 0 {
        let shorter = names.drop_last();
        assert forall|i: int| 0 <= i < shorter.len() implies parse::place_index(
            places,
            #[trigger] shorter[i],
        ) < places.len() by {
            assert(shorter[i] == names[i]);
        }
        law_repetition_is_weight(places, shorter, name);
        assert(arcs.drop_last() =~= parse::place_indices(places, shorter));
        let last = names[names.len() - 1];
        parse::lemma_place_index(places, last);
        parse::lemma_place_index(places, name);
        assert(arcs.last() == parse::place_index(places, last) as usize);
    }
}

// ---------------------------------------------------------------------
// What a line means
// ---------------------------------------------------------------------

/// A line holds what stands before its comment, without the white space
/// around it.
pub proof fn law_content(l: Seq<char>)
    ensures
        !l.contains('#') ==> parse::content(l) == text::trimmed(l),
        l.contains('#') ==> parse::content(l) == text::trimmed(text::before(l, '#')),
{
    text::lemma_find(l, '#');
    if !l.contains('#') {
        if text::find(l, '#') < l.len() {
            assert(l.contains('#'));
        }
        assert(text::before(l, '#') =~= l);
    }
}

/// No arrow stands in the text.
spec fn arrowless(s: Seq<char>) -> bool {
    forall|i: int| 0 <= i < s.len() - 1 ==> !(#[trigger] s[i] == '-' && s[i + 1] == '>')
}

/// The first arrow stands behind what holds none.
proof fn lemma_arrow_at(a: Seq<char>, b: Seq<char>)
    requires
        arrowless(a),
    ensures
        text::find_arrow(a + seq!['-', '>'] + b) == a.len(),
{
    let s = a + seq!['-', '>'] + b;
    let n = text::find_arrow(s) as int;
    text::lemma_find_arrow(s);
    assert(s[a.len() as int] == '-' && s[a.len() as int + 1] == '>');
    if n < a.len() {
        assert(s[n] == a[n]);
        if n + 1 < a.len() {
            assert(s[n + 1] == a[n + 1]);
        }
    }
}

/// A line with an arrow is a transition. What stands before the arrow is split
/// at the first colon, if there is one: the name, trimmed, and the words of
/// the inputs; the words behind the first arrow are the outputs.
pub proof fn law_transition_shape(name: Seq<char>, ins: Seq<char>, outs: Seq<char>)
    requires
        forall|i: int|
            0 <= i < (name + seq![':'] + ins).len() - 1 ==> !(
            #[trigger] (name + seq![':'] + ins)[i] == '-' && (name + seq![':'] + ins)[i + 1]
                == '>'),
        !name.contains(':'),
    ensures
        parse::shape(name + seq![':'] + ins + seq!['-', '>'] + outs) == (Line::Transition {
            name: text::trimmed(name),
            ins: text::words(ins),
            outs: text::words(outs),
        }),
{
    let lhs = name + seq![':'] + ins;
    let l = lhs + seq!['-', '>'] + outs;
    lemma_arrow_at(lhs, outs);
    assert(l.take(lhs.len() as int) =~= lhs);
    assert(l.skip(lhs.len() as int + 2) =~= outs);
    text::lemma_find(name, ':');
    if text::find(name, ':') < name.len() {
        assert(name.contains(':'));
    }
    let tail = seq![':'] + ins;
    assert(lhs =~= name + tail);
    assert(tail[0] == ':');
    text::lemma_find_first_part(name, tail, ':');
    assert(text::before(lhs, ':') =~= name);
    assert(text::after(lhs, ':') =~= ins);
}

/// A line with an arrow, and no colon before it, is a transition without a
/// name of its own.
pub proof fn law_unnamed_transition_shape(ins: Seq<char>, outs: Seq<char>)
    requires
        forall|i: int|
            0 <= i < ins.len() - 1 ==> !(#[trigger] ins[i] == '-' && ins[i + 1] == '>'),
        !ins.contains(':'),
    ensures
        parse::shape(ins + seq!['-', '>'] + outs) == (Line::Transition {
            name: Seq::empty(),
            ins: text::words(ins),
            outs: text::words(outs),
        }),
{
    let l = ins + seq!['-', '>'] + outs;
    lemma_arrow_at(ins, outs);
    assert(l.take(ins.len() as int) =~= ins);
    assert(l.skip(ins.len() as int + 2) =~= outs);
    text::lemma_find(ins, ':');
    if text::find(ins, ':') < ins.len() {
        assert(ins.contains(':'));
    }
}

/// A line without an arrow, but with an equals sign, is a place if one word
/// stands before the first equals sign: its name; what follows, trimmed, is
/// its count. With no word or several words there, the line is ignored.
pub proof fn law_place_shape(left: Seq<char>, right: Seq<char>)
    requires
        forall|i: int|
            0 <= i < (left + seq!['='] + right).len() - 1 ==> !(
            #[trigger] (left + seq!['='] + right)[i] == '-' && (left + seq!['='] + right)[i + 1]
                == '>'),
        !left.contains('='),
    ensures
        text::words(left).len() == 1 ==> parse::shape(left + seq!['='] + right) == (Line::Place {
            name: text::words(left)[0],
            count: text::trimmed(right),
        }),
        text::words(left).len() != 1 ==> parse::shape(left + seq!['='] + right) is Ignored,
{
    let l = left + seq!['='] + right;
    text::lemma_find_arrow(l);
    text::lemma_find(left, '=');
    if text::find(left, '=') < left.len() {
        assert(left.contains('='));
    }
    let tail = seq!['='] + right;
    assert(l =~= left + tail);
    assert(tail[0] == '=');
    text::lemma_find_first_part(left, tail, '=');
    assert(text::before(l, '=') =~= left);
    assert(text::after(l, '=') =~= right);
}

/// A line with neither an arrow nor an equals sign is ignored.
pub proof fn law_prose_shape(l: Seq<char>)
    requires
        forall|i: int|
            0 <= i < l.len() - 1 ==> !(#[trigger] l[i] == '-' && l[i + 1] == '>'),
        !l.contains('='),
    ensures
        parse::shape(l) is Ignored,
{
    text::lemma_find_arrow(l);
    text::lemma_find(l, '=');
    if text::find(l, '=') < l.len() {
        assert(l.contains('='));
    }
}

// ---------------------------------------------------------------------
// What a line does
// ---------------------------------------------------------------------

/// An ignored line leaves the net as it is.
pub proof fn law_ignored_line_does_nothing(net: crate::net::NetModel, lno: nat, raw: Seq<char>)
    requires
        parse::shape(parse::content(raw)) is Ignored,
    ensures
        parse::line_read(net, lno, raw) == Ok::<crate::net::NetModel, Seq<char>>(net),
{
}

/// A place line gives the place of that name its count, whether it is new or
/// known; a new one comes last. Nothing else changes. A count that is none is
/// a mistake, and the message has the number of the line and the count.
pub proof fn law_place_line(
    net: crate::net::NetModel,
    lno: nat,
    raw: Seq<char>,
    name: Seq<char>,
    count: Seq<char>,
)
    requires
        parse::names_distinct(net.places),
        parse::shape(parse::content(raw)) == (Line::Place { name, count }),
    ensures
        text::u32_value(count) is None ==> parse::line_read(net, lno, raw) == Err::<
            crate::net::NetModel,
            Seq<char>,
        >("line "@ + text::decimal(lno) + ": bad token count '"@ + count + "'"@),
        text::u32_value(count) matches Some(n) ==> {
            &&& parse::line_read(net, lno, raw) is Ok
            &&& ({
                let r = parse::line_read(net, lno, raw)->Ok_0;
                &&& r.trans == net.trans
                &&& exists|i: int|
                    0 <= i < r.places.len() && #[trigger] r.places[i] == (PlaceModel {
                        name,
                        init: n,
                    })
                &&& forall|i: int|
                    0 <= i < net.places.len() && (#[trigger] net.places[i]).name != name
                        ==> r.places[i] == net.places[i]
                &&& (exists|i: int|
                    0 <= i < net.places.len() && (#[trigger] net.places[i]).name == name)
                    ==> r.places.len() == net.places.len()
                &&& !(exists|i: int|
                    0 <= i < net.places.len() && (#[trigger] net.places[i]).name == name)
                    ==> r.places.len() == net.places.len() + 1 && r.places.last().name == name
                &&& parse::names_distinct(r.places)
            })
        },
{
    parse::lemma_place_index(net.places, name);
    parse::lemma_with_place(net.places, name);
    let b = parse::with_place(net.places, name);
    let k = parse::place_index(net.places, name) as int;
    if text::u32_value(count) is Some {
        let n = text::u32_value(count)->0;
        let r = parse::line_read(net, lno, raw)->Ok_0;
        assert(r.places[k] == (PlaceModel { name, init: n }));
        if exists|i: int| 0 <= i < net.places.len() && (#[trigger] net.places[i]).name == name {
            let i = choose|i: int|
                0 <= i < net.places.len() && (#[trigger] net.places[i]).name == name;
            if k == net.places.len() {
                assert(net.places[i].name != name);
            }
        } else if k < net.places.len() {
            assert(net.places[k].name == name);
        }
        assert forall|i: int, j: int| 0 <= i < j < r.places.len() implies (
        #[trigger] r.places[i]).name != (#[trigger] r.places[j]).name by {
            assert(r.places[i].name == b[i].name);
            assert(r.places[j].name == b[j].name);
        }
    }
}

/// Names are distinct where no two places have the same.
pub proof fn law_names_distinct(places: Seq<PlaceModel>)
    ensures
        parse::names_distinct(places) <==> !(exists|i: int, j: int|
            0 <= i < places.len() && 0 <= j < places.len() && i != j && (
            #[trigger] places[i]).name == (#[trigger] places[j]).name),
{
    if exists|i: int, j: int|
        0 <= i < places.len() && 0 <= j < places.len() && i != j && (#[trigger] places[i]).name == (
        #[trigger] places[j]).name {
        let (i, j) = choose|i: int, j: int|
            0 <= i < places.len() && 0 <= j < places.len() && i != j && (
            #[trigger] places[i]).name == (#[trigger] places[j]).name;
        if i < j {
            assert(places[i].name == places[j].name);
        } else {
            assert(places[j].name == places[i].name);
        }
    }
}

/// What meeting a list of names does to the places: those that were there
/// stay; each new one is empty, stands for a name of the list, and comes in
/// the order in which the names are met; and every name of the list has its
/// place.
proof fn lemma_met_names(places: Seq<PlaceModel>, names: Seq<Seq<char>>)
    requires
        parse::names_distinct(places),
    ensures
        ({
            let r = parse::with_places(places, names);
            &&& places.len() <= r.len()
            &&& forall|i: int| 0 <= i < places.len() ==> #[trigger] r[i] == places[i]
            &&& forall|q: int|
                places.len() <= q < r.len() ==> (#[trigger] r[q]).init == 0 && exists|k: int|
                    first_meets(r, names, q, k)
        }),
    decreases names.len(),
{
    if names.len() > 0 {
        let d = names.drop_last();
        let w = names.last();
        let a = parse::with_places(places, d);
        let r = parse::with_places(places, names);
        lemma_met_names(places, d);
        parse::lemma_with_places(places, d);
        parse::lemma_place_index(a, w);
        assert forall|i: int| 0 <= i < places.len() implies #[trigger] r[i] == places[i] by {
            assert(r[i] == a[i]);
        }
        assert forall|q: int| places.len() <= q < r.len() implies (#[trigger] r[q]).init == 0
            && exists|k: int| first_meets(r, names, q, k) by {
            if q < a.len() {
                assert(r[q] == a[q]);
                let k = choose|k: int| first_meets(a, d, q, k);
                assert(names[k] == d[k]);
                assert forall|j: int| 0 <= j < k implies exists|p: int|
                    0 <= p < q && (#[trigger] r[p]).name == #[trigger] names[j] by {
                    assert(names[j] == d[j]);
                    let p = choose|p: int| 0 <= p < q && (#[trigger] a[p]).name == d[j];
                    assert(r[p] == a[p]);
                }
                assert(first_meets(r, names, q, k));
            } else {
                let k = d.len() as int;
                assert(r[q].name == w);
                assert forall|j: int| 0 <= j < k implies exists|p: int|
                    0 <= p < q && (#[trigger] r[p]).name == #[trigger] names[j] by {
                    assert(names[j] == d[j]);
                    parse::lemma_place_index(a, d[j]);
                    let p = parse::place_index(a, d[j]) as int;
                    assert(p < a.len());
                    assert(r[p] == a[p]);
                }
                assert(first_meets(r, names, q, k));
            }
        }
    }
}

/// Place `q` has the name that stands at position `k` of the list, and the
/// names before that belong to places before `q`.
spec fn first_meets(r: Seq<PlaceModel>, names: Seq<Seq<char>>, q: int, k: int) -> bool {
    &&& 0 <= k < names.len()
    &&& r[q].name == names[k]
    &&& forall|j: int|
        0 <= j < k ==> exists|p: int| 0 <= p < q && (#[trigger] r[p]).name == #[trigger] names[j]
}

/// A transition line adds one transition at the end, and changes none of the
/// others. It has the name of the line, or `t` and its number where the line
/// gives none; its arcs lead to the places that the line names, in order and as
/// often. Places that were there stay as they are; each new one is empty, and
/// they come in the order in which the line names them. A line without places
/// is a mistake, and the message has the number of the line. New place number
/// `q` is the one that word number `ks[q]` of the line names first.
pub proof fn law_transition_line(
    net: crate::net::NetModel,
    lno: nat,
    raw: Seq<char>,
    name: Seq<char>,
    ins: Seq<Seq<char>>,
    outs: Seq<Seq<char>>,
) -> (ks: Seq<int>)
    requires
        parse::names_distinct(net.places),
        parse::shape(parse::content(raw)) == (Line::Transition { name, ins, outs }),
        net.places.len() + ins.len() + outs.len() <= usize::MAX,
    ensures
        ins.len() + outs.len() == 0 ==> parse::line_read(net, lno, raw) == Err::<
            crate::net::NetModel,
            Seq<char>,
        >("line "@ + text::decimal(lno) + ": transition with no places"@),
        ins.len() + outs.len() > 0 ==> {
            &&& parse::line_read(net, lno, raw) is Ok
            &&& ({
                let r = parse::line_read(net, lno, raw)->Ok_0;
                let t = r.trans.last();
                &&& r.trans.len() == net.trans.len() + 1
                &&& r.trans.drop_last() == net.trans
                &&& name.len() > 0 ==> t.name == name
                &&& name.len() == 0 ==> t.name == "t"@ + text::decimal(net.trans.len() + 1)
                &&& t.ins.len() == ins.len()
                &&& forall|i: int|
                    0 <= i < ins.len() ==> (#[trigger] t.ins[i]) < r.places.len()
                        && r.places[t.ins[i] as int].name == ins[i]
                &&& t.outs.len() == outs.len()
                &&& forall|i: int|
                    0 <= i < outs.len() ==> (#[trigger] t.outs[i]) < r.places.len()
                        && r.places[t.outs[i] as int].name == outs[i]
                &&& net.places.len() <= r.places.len()
                &&& forall|i: int|
                    0 <= i < net.places.len() ==> #[trigger] r.places[i] == net.places[i]
                &&& forall|q: int|
                    net.places.len() <= q < r.places.len() ==> {
                        &&& (#[trigger] r.places[q]).init == 0
                        &&& 0 <= ks[q] < ins.len() + outs.len()
                        &&& r.places[q].name == (ins + outs)[ks[q]]
                    }
                &&& forall|q: int, j: int|
                    #![trigger r.places[q], (ins + outs)[j]]
                    net.places.len() <= q < r.places.len() && 0 <= j < ks[q] ==> exists|p: int|
                        0 <= p < q && (#[trigger] r.places[p]).name == (ins + outs)[j]
                &&& parse::names_distinct(r.places)
            })
        },
{
    if ins.len() + outs.len() > 0 {
        let r = parse::line_read(net, lno, raw)->Ok_0;
        let t = r.trans.last();
        let a = parse::with_places(net.places, ins);
        let b = parse::with_places(a, outs);
        parse::lemma_with_places(net.places, ins);
        parse::lemma_with_places(a, outs);
        lemma_met_names(net.places, ins + outs);
        lemma_with_places_add(net.places, ins, outs);
        lemma_with_places_len(net.places, ins);
        lemma_with_places_len(a, outs);
        assert(r.trans.drop_last() =~= net.trans);
        assert forall|i: int| 0 <= i < ins.len() implies (#[trigger] t.ins[i]) < r.places.len()
            && r.places[t.ins[i] as int].name == ins[i] by {
            parse::lemma_index_stable(a, b, ins[i]);
            parse::lemma_place_index(b, ins[i]);
        }
        assert forall|i: int| 0 <= i < outs.len() implies (#[trigger] t.outs[i]) < r.places.len()
            && r.places[t.outs[i] as int].name == outs[i] by {
            parse::lemma_place_index(b, outs[i]);
        }
        let ks = Seq::new(
            r.places.len(),
            |q: int| choose|k: int| first_meets(r.places, ins + outs, q, k),
        );
        assert forall|q: int| net.places.len() <= q < r.places.len() implies first_meets(
            r.places,
            ins + outs,
            q,
            #[trigger] ks[q],
        ) by {
            assert(r.places[q].init == 0);
        }
        assert forall|q: int, j: int|
            #![trigger r.places[q], (ins + outs)[j]]
            net.places.len() <= q < r.places.len() && 0 <= j < ks[q] implies exists|p: int|
            0 <= p < q && (#[trigger] r.places[p]).name == (ins + outs)[j] by {
            assert(first_meets(r.places, ins + outs, q, ks[q]));
        }
        ks
    } else {
        Seq::empty()
    }
}

/// Meeting two lists one after the other is meeting their concatenation.
proof fn lemma_with_places_add(places: Seq<PlaceModel>, a: Seq<Seq<char>>, b: Seq<Seq<char>>)
    ensures
        parse::with_places(places, a + b) == parse::with_places(parse::with_places(places, a), b),
    decreases b.len(),
{
    if b.len() == 0 {
        assert(a + b =~= a);
    } else {
        assert((a + b).drop_last() =~= a + b.drop_last());
        lemma_with_places_add(places, a, b.drop_last());
    }
}

/// Each name adds one place at most.
proof fn lemma_with_places_len(places: Seq<PlaceModel>, names: Seq<Seq<char>>)
    ensures
        parse::with_places(places, names).len() <= places.len() + names.len(),
    decreases names.len(),
{
    if names.len() > 0 {
        lemma_with_places_len(places, names.drop_last());
    }
}

/// The lines are read one after the other, from a net without places and
/// transitions on, and numbered from 1.
pub proof fn law_reading_line_by_line(ls: Seq<Seq<char>>, k: nat)
    ensures
        parse::lines_read(ls, 0) is Ok,
        parse::lines_read(ls, 0)->Ok_0.places.len() == 0,
        parse::lines_read(ls, 0)->Ok_0.trans.len() == 0,
        parse::lines_read(ls, k) matches Ok(net) ==> parse::lines_read(ls, k + 1)
            == parse::line_read(net, k + 1, ls[k as int]),
        parse::lines_read(ls, k) is Err ==> parse::lines_read(ls, k + 1) == parse::lines_read(
            ls,
            k,
        ),
{
}

/// What a text denotes is what its lines have built up in the end, provided
/// that there is a transition; otherwise it is a mistake.
pub proof fn law_text_denotes(s: Seq<char>)
    ensures
        ({
            let r = parse::lines_read(text::lines(s), text::lines(s).len());
            &&& r is Err ==> parse::parsed(s) == r
            &&& r is Ok && r->Ok_0.trans.len() > 0 ==> parse::parsed(s) == r
            &&& r is Ok && r->Ok_0.trans.len() == 0 ==> parse::parsed(s) == Err::<
                crate::net::NetModel,
                Seq<char>,
            >("no transitions found (need lines like  name: a b -> c)"@)
        }),
{
}

} // verus!

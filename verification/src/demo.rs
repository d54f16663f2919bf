//! The built-in net, and the proof that it is one.
use crate::parse;
use crate::text;
use vstd::prelude::*;

verus! {

/// The net that is played when no file is given: two processes that share a
/// lock.
pub const DEMO: &'static str = "Mutual exclusion: two processes, one lock

Places
  lock = 1      # free
  idle1 = 1
  idle2 = 1

Transitions
  enter1: idle1 lock -> crit1
  leave1: crit1 -> idle1 lock
  enter2: idle2 lock -> crit2
  leave2: crit2 -> idle2 lock
";

// ---------------------------------------------------------------------
// Parts of a text
// ---------------------------------------------------------------------

/// No `c` stands from position `i` up to position `j`.
spec fn free(s: Seq<char>, i: int, j: int, c: char) -> bool
    decreases j - i,
{
    j <= i || (s[j - 1] != c && free(s, i, j - 1, c))
}

/// White space stands from position `i` up to position `j`.
spec fn blank(s: Seq<char>, i: int, j: int) -> bool
    decreases j - i,
{
    j <= i || (text::white_space(s[j - 1]) && blank(s, i, j - 1))
}

/// The first `k` characters of `l` stand from position `i` on.
spec fn agrees(s: Seq<char>, i: int, l: Seq<char>, k: int) -> bool
    decreases k,
{
    k <= 0 || (s[i + k - 1] == l[k - 1] && agrees(s, i, l, k - 1))
}

proof fn lemma_free(s: Seq<char>, i: int, j: int, c: char)
    requires
        free(s, i, j, c),
    ensures
        forall|k: int| i <= k < j ==> #[trigger] s[k] != c,
    decreases j - i,
{
    if i < j {
        lemma_free(s, i, j - 1, c);
    }
}

proof fn lemma_blank(s: Seq<char>, i: int, j: int)
    requires
        blank(s, i, j),
    ensures
        forall|k: int| i <= k < j ==> text::white_space(#[trigger] s[k]),
    decreases j - i,
{
    if i < j {
        lemma_blank(s, i, j - 1);
    }
}

proof fn lemma_agrees(s: Seq<char>, i: int, l: Seq<char>, k: int)
    requires
        agrees(s, i, l, k),
    ensures
        forall|j: int| 0 <= j < k ==> s[i + j] == #[trigger] l[j],
    decreases k,
{
    if k > 0 {
        lemma_agrees(s, i, l, k - 1);
    }
}

/// A line that stands at position `i` is the first of what begins there; the
/// next one begins at position `j`.
proof fn lemma_first_line(s: Seq<char>, i: int, l: Seq<char>) -> (j: int)
    requires
        0 <= i,
        i + l.len() < s.len(),
        agrees(s, i, l, l.len() as int),
        s[i + l.len()] == '\n',
        free(l, 0, l.len() as int, '\n'),
    ensures
        j == i + l.len() + 1,
        text::lines(s.skip(i)) == seq![l] + text::lines(s.skip(j)),
{
    lemma_agrees(s, i, l, l.len() as int);
    lemma_free(l, 0, l.len() as int, '\n');
    let r = s.skip(i);
    let n = text::find(r, '\n') as int;
    text::lemma_find(r, '\n');
    assert(r[l.len() as int] == '\n');
    if n < l.len() {
        assert(r[n] == l[n]);
    }
    assert(n == l.len());
    assert(text::before(r, '\n') =~= l);
    assert(text::after(r, '\n') =~= s.skip(i + l.len() + 1));
    i + l.len() + 1
}

// ---------------------------------------------------------------------
// Lines
// ---------------------------------------------------------------------

/// What a line holds stands between its indentation and the white space
/// before its end or its comment.
proof fn lemma_content(l: Seq<char>, x: int, y: int, z: int)
    requires
        0 <= x < y <= z <= l.len(),
        blank(l, 0, x),
        blank(l, y, z),
        free(l, x, y, '#'),
        !text::white_space(l[x]),
        !text::white_space(l[y - 1]),
        z < l.len() ==> l[z] == '#',
    ensures
        parse::content(l) == l.subrange(x, y),
{
    let kept = l.subrange(x, y);
    lemma_blank(l, 0, x);
    lemma_blank(l, y, z);
    lemma_free(l, x, y, '#');
    text::lemma_find(kept, '#');
    if text::find(kept, '#') < kept.len() {
        assert(l[x + text::find(kept, '#')] == '#');
    }
    assert(text::before(kept, '#') =~= kept);
    assert(kept[0] == l[x]);
    assert(kept.last() == l[y - 1]);
    assert(parse::content(kept) == kept);
    let trail = l.subrange(y, z);
    if z < l.len() {
        crate::format::law_indentation_and_comments_ignored(
            l.take(x),
            kept,
            trail,
            l.skip(z + 1),
        );
        assert(l.take(x) + kept + trail + seq!['#'] + l.skip(z + 1) =~= l);
    } else {
        crate::format::law_indentation_and_comments_ignored(l.take(x), kept, trail, Seq::empty());
        assert(l.take(x) + kept + trail =~= l);
    }
}

/// A line without an arrow and an equals sign is ignored.
proof fn lemma_prose(l: Seq<char>)
    requires
        l.len() > 0,
        !text::white_space(l[0]),
        !text::white_space(l.last()),
        free(l, 0, l.len() as int, '#'),
        free(l, 0, l.len() as int, '-'),
        free(l, 0, l.len() as int, '='),
    ensures
        parse::shape(parse::content(l)) is Ignored,
{
    lemma_content(l, 0, l.len() as int, l.len() as int);
    assert(l.subrange(0, l.len() as int) =~= l);
    lemma_free(l, 0, l.len() as int, '-');
    lemma_free(l, 0, l.len() as int, '=');
    text::lemma_find_arrow(l);
    text::lemma_find(l, '=');
}

/// A line that gives a place, with an equals sign at `e`, as many tokens as
/// the digit at `d` says has nothing wrong.
proof fn lemma_place_line(l: Seq<char>, x: int, e: int, d: int, z: int)
    requires
        0 <= x < e < d < z <= l.len(),
        blank(l, 0, x),
        !text::white_space(l[x]),
        free(l, x, d + 1, '#'),
        free(l, x, d + 1, '-'),
        free(l, x, e, '='),
        l[e] == '=',
        blank(l, e + 1, d),
        text::is_digit(l[d]),
        blank(l, d + 1, z),
        z < l.len() ==> l[z] == '#',
    ensures
        crate::format::acceptable(parse::shape(parse::content(l))),
{
    lemma_content(l, x, d + 1, z);
    let c = l.subrange(x, d + 1);
    lemma_free(l, x, d + 1, '-');
    lemma_free(l, x, e, '=');
    lemma_blank(l, e + 1, d);
    text::lemma_find_arrow(c);
    if text::find_arrow(c) < c.len() {
        assert(l[x + text::find_arrow(c)] == '-');
    }
    text::lemma_find(c, '=');
    let f = text::find(c, '=') as int;
    assert(c[e - x] == '=');
    if f < e - x {
        assert(l[x + f] == '=');
    }
    assert(f == e - x);
    let right = text::after(c, '=');
    let digit = seq![l[d]];
    assert(right =~= l.subrange(e + 1, d) + digit);
    crate::format::lemma_trimmed_indent(l.subrange(e + 1, d), digit);
    assert(text::trimmed(digit) == digit);
    assert(text::unsigned_part(digit) == digit);
    assert(digit.drop_last() =~= Seq::empty());
    assert(text::numeral_value(Seq::<char>::empty()) == 0);
    assert(text::numeral_value(digit) <= 9);
    assert(text::u32_value(digit) is Some);
}

/// What is not all white space holds a word.
proof fn lemma_has_word(s: Seq<char>, i: int)
    requires
        0 <= i < s.len(),
        !text::white_space(s[i]),
    ensures
        text::words(s).len() > 0,
    decreases s.len(),
{
    if text::white_space(s[0]) {
        assert(s.drop_first()[i - 1] == s[i]);
        lemma_has_word(s.drop_first(), i - 1);
        assert(text::words(s) == text::words(s.drop_first()));
    }
}

/// A line with an arrow at `k`, and a place behind it, is a transition with
/// nothing wrong.
proof fn lemma_transition_line(l: Seq<char>, x: int, k: int)
    requires
        0 <= x < k,
        k + 2 < l.len(),
        blank(l, 0, x),
        !text::white_space(l[x]),
        !text::white_space(l.last()),
        free(l, x, l.len() as int, '#'),
        free(l, x, k, '-'),
        l[k] == '-',
        l[k + 1] == '>',
    ensures
        parse::shape(parse::content(l)) is Transition,
        crate::format::acceptable(parse::shape(parse::content(l))),
{
    let n = l.len() as int;
    lemma_content(l, x, n, n);
    let c = l.subrange(x, n);
    lemma_free(l, x, k, '-');
    text::lemma_find_arrow(c);
    let f = text::find_arrow(c) as int;
    assert(c[k - x] == '-' && c[k - x + 1] == '>');
    if f < k - x {
        assert(l[x + f] == '-');
    }
    assert(f == k - x);
    let right = c.skip(f + 2);
    assert(right[right.len() - 1] == l.last());
    lemma_has_word(right, right.len() - 1);
}

// ---------------------------------------------------------------------
// The lines of the built-in net
// ---------------------------------------------------------------------

/// The lines of the built-in net.
spec fn demo_lines() -> Seq<Seq<char>> {
    seq![
        "Mutual exclusion: two processes, one lock"@,
        ""@,
        "Places"@,
        "  lock = 1      # free"@,
        "  idle1 = 1"@,
        "  idle2 = 1"@,
        ""@,
        "Transitions"@,
        "  enter1: idle1 lock -> crit1"@,
        "  leave1: crit1 -> idle1 lock"@,
        "  enter2: idle2 lock -> crit2"@,
        "  leave2: crit2 -> idle2 lock"@,
        ""@,
    ]
}

/// The built-in net has these lines.
proof fn lemma_demo_lines()
    ensures
        text::lines(DEMO@) == demo_lines(),
{
    reveal_strlit(
        "Mutual exclusion: two processes, one lock

Places
  lock = 1      # free
  idle1 = 1
  idle2 = 1

Transitions
  enter1: idle1 lock -> crit1
  leave1: crit1 -> idle1 lock
  enter2: idle2 lock -> crit2
  leave2: crit2 -> idle2 lock
",
    );
    reveal_strlit("Mutual exclusion: two processes, one lock");
    reveal_strlit("");
    reveal_strlit("Places");
    reveal_strlit("  lock = 1      # free");
    reveal_strlit("  idle1 = 1");
    reveal_strlit("  idle2 = 1");
    reveal_strlit("Transitions");
    reveal_strlit("  enter1: idle1 lock -> crit1");
    reveal_strlit("  leave1: crit1 -> idle1 lock");
    reveal_strlit("  enter2: idle2 lock -> crit2");
    reveal_strlit("  leave2: crit2 -> idle2 lock");
    reveal_with_fuel(free, 50);
    reveal_with_fuel(agrees, 50);
    let s = DEMO@;
    assert(s.skip(0) =~= s);
    let i = lemma_first_line(s, 0, "Mutual exclusion: two processes, one lock"@);
    let i = lemma_first_line(s, i, ""@);
    let i = lemma_first_line(s, i, "Places"@);
    let i = lemma_first_line(s, i, "  lock = 1      # free"@);
    let i = lemma_first_line(s, i, "  idle1 = 1"@);
    let i = lemma_first_line(s, i, "  idle2 = 1"@);
    let i = lemma_first_line(s, i, ""@);
    let i = lemma_first_line(s, i, "Transitions"@);
    let i = lemma_first_line(s, i, "  enter1: idle1 lock -> crit1"@);
    let i = lemma_first_line(s, i, "  leave1: crit1 -> idle1 lock"@);
    let i = lemma_first_line(s, i, "  enter2: idle2 lock -> crit2"@);
    let i = lemma_first_line(s, i, "  leave2: crit2 -> idle2 lock"@);
    assert(s.skip(i) =~= ""@);
    assert(text::lines(s) =~= demo_lines());
}

/// Its headings and blank lines are ignored.
proof fn lemma_demo_prose()
    ensures
        parse::shape(parse::content(demo_lines()[0])) is Ignored,
        parse::shape(parse::content(demo_lines()[1])) is Ignored,
        parse::shape(parse::content(demo_lines()[2])) is Ignored,
        parse::shape(parse::content(demo_lines()[6])) is Ignored,
        parse::shape(parse::content(demo_lines()[7])) is Ignored,
        parse::shape(parse::content(demo_lines()[12])) is Ignored,
{
    reveal_strlit("Mutual exclusion: two processes, one lock");
    reveal_strlit("");
    reveal_strlit("Places");
    reveal_strlit("Transitions");
    reveal_with_fuel(free, 50);
    lemma_prose("Mutual exclusion: two processes, one lock"@);
    parse::lemma_blank_ignored(""@);
    lemma_prose("Places"@);
    lemma_prose("Transitions"@);
}

/// Its places have counts.
proof fn lemma_demo_places()
    ensures
        forall|i: int|
            3 <= i < 6 ==> crate::format::acceptable(
                #[trigger] crate::format::shape_at(demo_lines(), i),
            ),
{
    reveal_with_fuel(free, 20);
    reveal_with_fuel(blank, 20);
    reveal_strlit("  lock = 1      # free");
    reveal_strlit("  idle1 = 1");
    reveal_strlit("  idle2 = 1");
    lemma_place_line("  lock = 1      # free"@, 2, 7, 9, 16);
    lemma_place_line("  idle1 = 1"@, 2, 8, 10, 11);
    lemma_place_line("  idle2 = 1"@, 2, 8, 10, 11);
}

/// Its transitions have places.
proof fn lemma_demo_transitions()
    ensures
        forall|i: int|
            8 <= i < 12 ==> {
                let l = #[trigger] crate::format::shape_at(demo_lines(), i);
                l is Transition && crate::format::acceptable(l)
            },
{
    reveal_with_fuel(free, 40);
    reveal_with_fuel(blank, 5);
    reveal_strlit("  enter1: idle1 lock -> crit1");
    reveal_strlit("  leave1: crit1 -> idle1 lock");
    reveal_strlit("  enter2: idle2 lock -> crit2");
    reveal_strlit("  leave2: crit2 -> idle2 lock");
    lemma_transition_line("  enter1: idle1 lock -> crit1"@, 2, 21);
    lemma_transition_line("  leave1: crit1 -> idle1 lock"@, 2, 16);
    lemma_transition_line("  enter2: idle2 lock -> crit2"@, 2, 21);
    lemma_transition_line("  leave2: crit2 -> idle2 lock"@, 2, 16);
}

/// The built-in net is read without a message.
pub proof fn law_demo_is_read()
    ensures
        parse::parsed(DEMO@) is Ok,
{
    lemma_demo_lines();
    lemma_demo_prose();
    lemma_demo_places();
    lemma_demo_transitions();
    let ls = demo_lines();
    assert forall|i: int| 0 <= i < ls.len() implies crate::format::acceptable(
        #[trigger] crate::format::shape_at(ls, i),
    ) by {
        if i < 3 || i == 6 || i == 7 || i == 12 {
            assert(crate::format::shape_at(ls, i) is Ignored);
        }
    }
    assert(crate::format::shape_at(ls, 8) is Transition);
    crate::format::law_when_read(DEMO@);
}

} // verus!

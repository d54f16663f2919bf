//! What the panes of a session show.
use crate::app::{App, AppModel, Focus};
use crate::layout;
use crate::layout::{longest_place_name, trans_name_column};
use crate::report;
use crate::style;
use crate::text;
use crate::text::{chars_of, push_decimal, push_padded_right, push_repeated, string_of};
use vstd::prelude::*;
use vstd::slice::slice_subrange;

verus! {

// Colours of the 256-colour palette.

/// Token dots.
pub const C_TOKEN: u8 = 220;

/// Place names.
pub const C_PLACE: u8 = 250;

/// The mark of an enabled transition.
pub const C_ENABLED: u8 = 46;

/// What is not enabled, or empty.
pub const C_DISABLED: u8 = 243;

/// The mark of a conflict.
pub const C_CONFLICT: u8 = 208;

/// The text of the selected row.
pub const C_SEL_FG: u8 = 231;

/// The background of the selected row.
pub const C_SEL_BG: u8 = 24;

/// The names and arcs of enabled transitions.
pub const C_TEXT: u8 = 250;

/// The background of the deadlock banner.
pub const C_DEAD_BG: u8 = 52;

/// The border of the pane that has the focus.
pub const C_BORDER_FOCUS: u16 = 75;

/// The border of the other panes.
pub const C_BORDER_DIM: u16 = 238;

/// The most tokens that are drawn as single dots.
pub const DOTS: u32 = 12;

/// The help popup.
pub const HELP: &'static str = "petri \u{2014} keys

  Tab                switch focus (places / transitions)
  j k / arrows       move selection
  Enter / f          fire the selected transition
  Space              auto-run: fire random enabled transitions
  + / -              add / remove a token (places pane)
  u                  undo last firing
  R                  reset to the file's initial marking
  a                  analyze reachable markings
                     (deadlocks, boundedness, place bounds)
  e                  edit the net file in $EDITOR, reload
  ? h                this help
  q                  quit

 Net file format \u{2014} two line shapes, all else ignored:
   lock = 1                    place with initial tokens
   enter: idle lock -> crit    transition (repeat = weight)

 \u{203c} marks a conflict: enabled transitions competing for
 the same tokens. The net cannot decide. You do.

 (Esc / q / Enter to close)";

// ---------------------------------------------------------------------
// The header
// ---------------------------------------------------------------------

/// The part of a path after its last slash.
pub open spec fn base_name(path: Seq<char>) -> Seq<char>
    decreases path.len(),
{
    if text::find(path, '/') < path.len() {
        base_name(text::after(path, '/'))
    } else {
        path
    }
}

/// The header line.
pub open spec fn header(s: AppModel) -> Seq<char> {
    " petri  "@ + (match s.file {
        Some(f) => base_name(f),
        None => "(builtin demo)"@,
    }) + "  \u{b7}  "@ + text::decimal(s.net.places.len()) + " places  "@ + text::decimal(
        s.net.trans.len(),
    ) + " transitions  \u{b7}  step "@ + text::decimal(s.steps as nat) + "  "@ + (if s.running {
        style::bold_text("\u{25b6} RUNNING"@)
    } else {
        Seq::empty()
    })
}

fn push_base_name(out: &mut String, path: &str)
    ensures
        final(out)@ == old(out)@ + base_name(path@),
{
    let cs = chars_of(path);
    let mut rest: &[char] = cs.as_slice();
    let mut n = text::find_char(rest, '/');
    while n < rest.len()
        invariant
            n == text::find(rest@, '/'),
            n <= rest@.len(),
            base_name(rest@) == base_name(path@),
        decreases rest@.len(),
    {
        let next = slice_subrange(rest, n + 1, rest.len());
        assert(next@ =~= text::after(rest@, '/'));
        rest = next;
        n = text::find_char(rest, '/');
    }
    out.append(string_of(rest).as_str());
}

// ---------------------------------------------------------------------
// The panes
// ---------------------------------------------------------------------

/// The tokens of a place: a middle dot, a row of dots, or a dot and a number.
pub open spec fn dots_text(n: u32) -> Seq<char> {
    if n == 0 {
        "\u{b7}"@
    } else if n <= DOTS {
        text::repeated('\u{25cf}', n as nat)
    } else {
        "\u{25cf}\u{d7}"@ + text::decimal(n as nat)
    }
}

/// The width of the column of place names.
pub open spec fn place_column(s: AppModel) -> int {
    layout::larger(layout::longest_place(s.net, s.net.places.len()), 6)
}

/// The row of the place `i`.
pub open spec fn place_row(s: AppModel, i: int) -> Seq<char> {
    let n = s.marking[i];
    " "@ + (if s.focus == Focus::Places && i == s.pidx {
        style::bg_text(C_SEL_BG) + style::fg_text(C_SEL_FG)
    } else {
        style::fg_text(C_PLACE)
    }) + text::padded_right(s.net.places[i].name, place_column(s) as nat) + "  "@
        + style::fg_text(if n == 0 {
        C_DISABLED
    } else {
        C_TOKEN
    }) + dots_text(n) + "\x1b[0m"@ + "\n"@
}

/// The rows of the first `k` places.
pub open spec fn place_rows(s: AppModel, k: nat) -> Seq<char>
    decreases k,
{
    if k == 0 {
        Seq::empty()
    } else {
        place_rows(s, (k - 1) as nat) + place_row(s, k - 1)
    }
}

/// The places pane.
pub open spec fn places_pane(s: AppModel) -> Seq<char> {
    " "@ + style::bold_text("PLACES"@) + "\n"@ + place_rows(s, s.net.places.len())
}

/// The beginning of a transition's row: the background of the selected row,
/// and the mark of a conflict, of an enabled or of a disabled transition.
pub open spec fn mark_text(sel: bool, is_en: bool, confl: bool) -> Seq<char> {
    " "@ + (if sel {
        style::bg_text(C_SEL_BG)
    } else {
        Seq::empty()
    }) + (if confl {
        style::fg_text(C_CONFLICT) + "\u{203c}"@
    } else if is_en {
        style::fg_text(C_ENABLED) + "\u{25b6}"@
    } else {
        style::fg_text(C_DISABLED) + "\u{b7}"@
    }) + " "@
}

/// The rest of a transition's row: the name, the arcs, and the width of the
/// name column.
pub open spec fn name_text(
    sel: bool,
    is_en: bool,
    name: Seq<char>,
    arcs: Seq<char>,
    width: nat,
) -> Seq<char> {
    style::fg_text(if sel {
        C_SEL_FG
    } else if is_en {
        C_TEXT
    } else {
        C_DISABLED
    }) + text::padded_right(name, width) + " "@ + style::fg_text(if is_en {
        C_TEXT
    } else {
        C_DISABLED
    }) + arcs + text::decimal(width) + "\n"@
}

/// The row of the transition `t`.
pub open spec fn trans_row(s: AppModel, t: int) -> Seq<char> {
    let en = s.net.enabled_list(s.marking);
    let is_en = en.contains(t as usize);
    let confl = s.net.in_conflict(s.marking, t as usize, en);
    let sel = s.focus == Focus::Trans && t == s.tidx;
    mark_text(sel, is_en, confl) + name_text(
        sel,
        is_en,
        s.net.trans[t].name,
        report::arcs_text(s.net, t),
        layout::trans_name_width(s.net) as nat,
    )
}

/// The rows of the first `k` transitions.
pub open spec fn trans_rows(s: AppModel, k: nat) -> Seq<char>
    decreases k,
{
    if k == 0 {
        Seq::empty()
    } else {
        trans_rows(s, (k - 1) as nat) + trans_row(s, k - 1)
    }
}

/// The transitions pane.
pub open spec fn trans_pane(s: AppModel) -> Seq<char> {
    " "@ + style::bold_text("TRANSITIONS"@) + "\n"@ + trans_rows(s, s.net.trans.len())
}

/// The number of log lines that a trace pane of height `h` shows.
pub open spec fn trace_lines(h: int) -> nat {
    if h <= 2 {
        1
    } else {
        (h - 1) as nat
    }
}

/// The trace pane of height `h`: the latest lines of the log.
pub open spec fn trace_pane(s: AppModel, h: int) -> Seq<char> {
    " "@ + style::bold_text("TRACE"@)
        + "  (the run so far \u{2014} one path through the branching tree)\n"@ + text::joined(
        crate::app::last_items(s.log, trace_lines(h)),
        "\n"@,
    )
}

/// The status line: the message, the deadlock banner, or the keys.
pub open spec fn status_line(s: AppModel) -> Seq<char> {
    match s.msg {
        Some(m) => m,
        None => if s.deadlocked() {
            style::two_colours_text(
                " DEADLOCK \u{2014} no enabled transitions "@,
                C_SEL_FG,
                C_DEAD_BG,
            ) + "  u undo \u{b7} R reset \u{b7} a analyze"@
        } else {
            " Tab focus \u{b7} Enter fire \u{b7} Spc run \u{b7} +/- tokens \u{b7} u undo \u{b7} R reset \u{b7} a analyze \u{b7} e edit \u{b7} ? help \u{b7} q quit"@
        },
    }
}

/// The border colours of the places pane and of the transitions pane.
pub open spec fn borders(s: AppModel) -> (u16, u16) {
    if s.focus == Focus::Places {
        (C_BORDER_FOCUS, C_BORDER_DIM)
    } else {
        (C_BORDER_DIM, C_BORDER_FOCUS)
    }
}

fn push_dots(out: &mut String, n: u32)
    ensures
        final(out)@ == old(out)@ + dots_text(n),
{
    if n == 0 {
        out.append("\u{b7}");
    } else if n <= DOTS {
        push_repeated(out, '\u{25cf}', n as usize);
    } else {
        out.append("\u{25cf}\u{d7}");
        push_decimal(out, n as u64);
    }
    assert(out@ =~= old(out)@ + dots_text(n));
}

fn push_mark(out: &mut String, sel: bool, is_en: bool, confl: bool)
    ensures
        final(out)@ == old(out)@ + mark_text(sel, is_en, confl),
{
    out.append(" ");
    if sel {
        out.append(style::set_bg(C_SEL_BG).as_str());
    }
    if confl {
        out.append(style::set_fg(C_CONFLICT).as_str());
        out.append("\u{203c}");
    } else if is_en {
        out.append(style::set_fg(C_ENABLED).as_str());
        out.append("\u{25b6}");
    } else {
        out.append(style::set_fg(C_DISABLED).as_str());
        out.append("\u{b7}");
    }
    out.append(" ");
    assert(out@ =~= old(out)@ + mark_text(sel, is_en, confl));
}

fn push_name(out: &mut String, sel: bool, is_en: bool, name: &str, arcs: &str, width: usize)
    ensures
        final(out)@ == old(out)@ + name_text(sel, is_en, name@, arcs@, width as nat),
{
    let name_colour: u8 = if sel {
        C_SEL_FG
    } else if is_en {
        C_TEXT
    } else {
        C_DISABLED
    };
    let arc_colour: u8 = if is_en {
        C_TEXT
    } else {
        C_DISABLED
    };
    out.append(style::set_fg(name_colour).as_str());
    push_padded_right(out, name, width);
    out.append(" ");
    out.append(style::set_fg(arc_colour).as_str());
    out.append(arcs);
    push_decimal(out, width as u64);
    out.append("\n");
    assert(out@ =~= old(out)@ + name_text(sel, is_en, name@, arcs@, width as nat));
}

impl App {
    /// The header line.
    pub fn header_text(&self) -> (r: String)
        ensures
            r@ == header(self@),
    {
        let mut r = String::new();
        r.append(" petri  ");
        match &self.file {
            Some(f) => {
                push_base_name(&mut r, f.as_str());
            },
            None => {
                r.append("(builtin demo)");
            },
        }
        r.append("  \u{b7}  ");
        push_decimal(&mut r, self.net.places.len() as u64);
        r.append(" places  ");
        push_decimal(&mut r, self.net.trans.len() as u64);
        r.append(" transitions  \u{b7}  step ");
        push_decimal(&mut r, self.steps);
        r.append("  ");
        if self.running {
            r.append(style::bold("\u{25b6} RUNNING").as_str());
        }
        assert(r@ =~= header(self@));
        r
    }

    fn push_place_row(&self, out: &mut String, i: usize, width: usize)
        requires
            self@.valid(),
            i < self@.net.places.len(),
            width == place_column(self@),
        ensures
            final(out)@ == old(out)@ + place_row(self@, i as int),
    {
        let n: u32 = self.marking[i];
        let selected = match self.focus {
            Focus::Places => i == self.pidx,
            Focus::Trans => false,
        };
        out.append(" ");
        if selected {
            out.append(style::set_bg(C_SEL_BG).as_str());
            out.append(style::set_fg(C_SEL_FG).as_str());
        } else {
            out.append(style::set_fg(C_PLACE).as_str());
        }
        push_padded_right(out, self.net.places[i].name.as_str(), width);
        out.append("  ");
        let colour: u8 = if n == 0 {
            C_DISABLED
        } else {
            C_TOKEN
        };
        out.append(style::set_fg(colour).as_str());
        push_dots(out, n);
        out.append(style::reset());
        out.append("\n");
        assert(out@ =~= old(out)@ + place_row(self@, i as int));
    }

    /// The places pane.
    pub fn places_text(&self) -> (r: String)
        requires
            self@.valid(),
        ensures
            r@ == places_pane(self@),
    {
        let longest = longest_place_name(&self.net);
        let width: usize = if longest > 6 {
            longest
        } else {
            6
        };
        let mut r = String::new();
        r.append(" ");
        r.append(style::bold("PLACES").as_str());
        r.append("\n");
        let ghost head = " "@ + style::bold_text("PLACES"@) + "\n"@;
        assert(r@ =~= head + place_rows(self@, 0));
        let mut i: usize = 0;
        while i < self.net.places.len()
            invariant
                i <= self.net.places.len(),
                self@.valid(),
                width == place_column(self@),
                r@ == head + place_rows(self@, i as nat),
            decreases self.net.places.len() - i,
        {
            self.push_place_row(&mut r, i, width);
            i = i + 1;
            assert(r@ =~= head + place_rows(self@, i as nat));
        }
        r
    }

    fn push_trans_row(&self, out: &mut String, t: usize, en: &Vec<usize>, width: usize)
        requires
            self@.valid(),
            t < self@.net.trans.len(),
            en@ == self@.net.enabled_list(self@.marking),
            width == layout::trans_name_width(self@.net),
        ensures
            final(out)@ == old(out)@ + trans_row(self@, t as int),
    {
        proof {
            assert(self@.net.trans.len() == self.net.trans.len());
            crate::net::lemma_enabled_below(
                self@.net,
                self@.marking,
                self@.net.trans.len(),
            );
            assert(self@.net.trans[t as int].name == self.net.trans@[t as int].name@);
        }
        let is_en = self.net.enabled(self.marking.as_slice(), t);
        let confl = is_en && self.net.conflicts(self.marking.as_slice(), t, en.as_slice());
        let sel = match self.focus {
            Focus::Trans => t == self.tidx,
            Focus::Places => false,
        };
        assert(is_en == en@.contains(t));
        assert(confl == self@.net.in_conflict(self@.marking, t, en@));
        push_mark(out, sel, is_en, confl);
        let arcs = self.net.arcs_str(t);
        push_name(out, sel, is_en, self.net.trans[t].name.as_str(), arcs.as_str(), width);
        assert(out@ =~= old(out)@ + trans_row(self@, t as int));
    }

    /// The transitions pane.
    pub fn trans_text(&self) -> (r: String)
        requires
            self@.valid(),
        ensures
            r@ == trans_pane(self@),
    {
        let en = self.net.enabled_set(self.marking.as_slice());
        let width = trans_name_column(&self.net);
        let mut r = String::new();
        r.append(" ");
        r.append(style::bold("TRANSITIONS").as_str());
        r.append("\n");
        let ghost head = " "@ + style::bold_text("TRANSITIONS"@) + "\n"@;
        assert(r@ =~= head + trans_rows(self@, 0));
        let mut t: usize = 0;
        while t < self.net.trans.len()
            invariant
                t <= self.net.trans.len(),
                self@.valid(),
                en@ == self@.net.enabled_list(self@.marking),
                width == layout::trans_name_width(self@.net),
                r@ == head + trans_rows(self@, t as nat),
            decreases self.net.trans.len() - t,
        {
            self.push_trans_row(&mut r, t, &en, width);
            t = t + 1;
            assert(r@ =~= head + trans_rows(self@, t as nat));
        }
        r
    }

    /// The trace pane of height `h`.
    pub fn trace_text(&self, h: u16) -> (r: String)
        ensures
            r@ == trace_pane(self@, h as int),
    {
        let cap: usize = if h <= 2 {
            1
        } else {
            h as usize - 1
        };
        let mut r = String::new();
        r.append(" ");
        r.append(style::bold("TRACE").as_str());
        r.append("  (the run so far \u{2014} one path through the branching tree)\n");
        let ghost head = r@;
        let ghost shown = crate::app::last_items(self@.log, cap as nat);
        let n: usize = self.log.len();
        let start: usize = if n > cap {
            n - cap
        } else {
            0
        };
        let mut i: usize = start;
        assert(r@ =~= head + text::joined(shown.take(0), "\n"@));
        while i < n
            invariant
                start <= i <= n,
                n == self.log@.len(),
                shown.len() == n - start,
                forall|j: int| 0 <= j < n - start ==> #[trigger] shown[j] == self.log@[start + j]@,
                r@ == head + text::joined(shown.take(i - start), "\n"@),
            decreases n - i,
        {
            let ghost k = i - start;
            proof {
                assert(shown.take(k + 1) =~= shown.take(k).push(shown[k]));
                report::lemma_joined_push(shown.take(k), "\n"@, shown[k]);
            }
            if i > start {
                r.append("\n");
            }
            r.append(self.log[i].as_str());
            assert(r@ =~= head + text::joined(shown.take(k + 1), "\n"@));
            i = i + 1;
        }
        assert(shown.take(i - start) =~= shown);
        assert(r@ =~= trace_pane(self@, h as int));
        r
    }

    /// The status line; a message is shown once.
    pub fn status_text(&mut self) -> (r: String)
        requires
            old(self)@.valid(),
        ensures
            r@ == status_line(old(self)@),
            final(self)@ == (AppModel { msg: None, ..old(self)@ }),
    {
        match self.msg.take() {
            Some(m) => m,
            None => {
                let en = self.net.enabled_set(self.marking.as_slice());
                let mut r = String::new();
                if en.len() == 0 {
                    proof {
                        reveal_strlit("");
                    }
                    r.append(
                        style::styled(
                            " DEADLOCK \u{2014} no enabled transitions ",
                            Some(C_SEL_FG),
                            Some(C_DEAD_BG),
                            "",
                        ).as_str(),
                    );
                    r.append("  u undo \u{b7} R reset \u{b7} a analyze");
                } else {
                    r.append(
                        " Tab focus \u{b7} Enter fire \u{b7} Spc run \u{b7} +/- tokens \u{b7} u undo \u{b7} R reset \u{b7} a analyze \u{b7} e edit \u{b7} ? help \u{b7} q quit",
                    );
                }
                assert(r@ =~= status_line(old(self)@));
                r
            },
        }
    }

    /// The border colours of the places pane and of the transitions pane.
    pub fn border_colours(&self) -> (r: (u16, u16))
        ensures
            r == borders(self@),
    {
        match self.focus {
            Focus::Places => (C_BORDER_FOCUS, C_BORDER_DIM),
            Focus::Trans => (C_BORDER_DIM, C_BORDER_FOCUS),
        }
    }
}

// ---------------------------------------------------------------------
// Laws
// ---------------------------------------------------------------------

/// The tokens shown for a place tell their number: none is a middle dot, 1 to
/// 12 are that many dots, and more are a dot, a times sign and the number.
pub proof fn law_dots(n: u32)
    ensures
        n == 0 <==> dots_text(n) == "\u{b7}"@,
        1 <= n <= 12 ==> dots_text(n).len() == n && forall|i: int|
            0 <= i < n ==> #[trigger] dots_text(n)[i] == '\u{25cf}',
        n > 12 ==> dots_text(n) == "\u{25cf}\u{d7}"@ + text::decimal(n as nat),
{
    reveal_strlit("\u{b7}");
    reveal_strlit("\u{25cf}\u{d7}");
    assert("\u{b7}"@[0] == '\u{b7}');
    if n > 12 {
        assert(dots_text(n)[0] == '\u{25cf}');
    } else if n > 0 {
        assert(dots_text(n)[0] == '\u{25cf}');
    }
}

/// Different numbers of tokens look different.
pub proof fn law_dots_tell_apart(a: u32, b: u32)
    ensures
        dots_text(a) == dots_text(b) <==> a == b,
{
    law_dots(a);
    law_dots(b);
    reveal_strlit("\u{b7}");
    reveal_strlit("\u{25cf}\u{d7}");
    if dots_text(a) == dots_text(b) {
        if a > 12 && b > 12 {
            text::lemma_decimal(a as nat);
            text::lemma_decimal(b as nat);
            let h = "\u{25cf}\u{d7}"@;
            assert((h + text::decimal(a as nat)).skip(2) =~= text::decimal(a as nat));
            assert((h + text::decimal(b as nat)).skip(2) =~= text::decimal(b as nat));
        } else if a > 12 {
            assert(dots_text(a)[1] == '\u{d7}');
            assert(dots_text(a).len() >= 2);
            if b > 0 {
                assert(dots_text(b)[1] == '\u{25cf}');
            }
        } else if b > 12 {
            assert(dots_text(b)[1] == '\u{d7}');
            assert(dots_text(b).len() >= 2);
            if a > 0 {
                assert(dots_text(a)[1] == '\u{25cf}');
            }
        }
    }
}

/// The numbers of the colours, written out.
proof fn lemma_colour_numbers()
    ensures
        text::decimal(220) == seq!['2', '2', '0'],
        text::decimal(250) == seq!['2', '5', '0'],
        text::decimal(46) == seq!['4', '6'],
        text::decimal(243) == seq!['2', '4', '3'],
        text::decimal(208) == seq!['2', '0', '8'],
        text::decimal(231) == seq!['2', '3', '1'],
        text::decimal(24) == seq!['2', '4'],
        text::decimal(52) == seq!['5', '2'],
{
    reveal_with_fuel(text::decimal, 4);
    assert(text::decimal(220) =~= seq!['2', '2', '0']);
    assert(text::decimal(250) =~= seq!['2', '5', '0']);
    assert(text::decimal(46) =~= seq!['4', '6']);
    assert(text::decimal(243) =~= seq!['2', '4', '3']);
    assert(text::decimal(208) =~= seq!['2', '0', '8']);
    assert(text::decimal(231) =~= seq!['2', '3', '1']);
    assert(text::decimal(24) =~= seq!['2', '4']);
    assert(text::decimal(52) =~= seq!['5', '2']);
}

/// The codes of the colours, written out.
proof fn lemma_colour_codes()
    ensures
        style::fg_text(220) == "\x1b[38;5;220m"@,
        style::fg_text(250) == "\x1b[38;5;250m"@,
        style::fg_text(46) == "\x1b[38;5;46m"@,
        style::fg_text(243) == "\x1b[38;5;243m"@,
        style::fg_text(208) == "\x1b[38;5;208m"@,
        style::fg_text(231) == "\x1b[38;5;231m"@,
        style::bg_text(24) == "\x1b[48;5;24m"@,
{
    lemma_colour_numbers();
    reveal_strlit("\x1b[38;5;");
    reveal_strlit("\x1b[48;5;");
    reveal_strlit("m");
    reveal_strlit("\x1b[38;5;220m");
    reveal_strlit("\x1b[38;5;250m");
    reveal_strlit("\x1b[38;5;46m");
    reveal_strlit("\x1b[38;5;243m");
    reveal_strlit("\x1b[38;5;208m");
    reveal_strlit("\x1b[38;5;231m");
    reveal_strlit("\x1b[48;5;24m");
    assert(style::fg_text(220) =~= "\x1b[38;5;220m"@);
    assert(style::fg_text(250) =~= "\x1b[38;5;250m"@);
    assert(style::fg_text(46) =~= "\x1b[38;5;46m"@);
    assert(style::fg_text(243) =~= "\x1b[38;5;243m"@);
    assert(style::fg_text(208) =~= "\x1b[38;5;208m"@);
    assert(style::fg_text(231) =~= "\x1b[38;5;231m"@);
    assert(style::bg_text(24) =~= "\x1b[48;5;24m"@);
}

/// The places pane has a heading and then one row for each place, in order:
/// the name, filled up to the length of the longest, then the tokens. The
/// selected row stands out where the pane has the focus, and an empty place is
/// dimmed.
pub proof fn law_places_pane(s: AppModel) -> (r: (Seq<Seq<char>>, nat))
    ensures
        ({
            let (rows, width) = r;
            &&& width >= 6
            &&& forall|i: int|
                0 <= i < s.net.places.len() ==> text::utf8_len((#[trigger] s.net.places[i]).name)
                    <= width
            &&& width == 6 || exists|i: int|
                0 <= i < s.net.places.len() && text::utf8_len((#[trigger] s.net.places[i]).name)
                    == width
            &&& rows.len() == s.net.places.len()
            &&& forall|i: int|
                0 <= i < rows.len() ==> #[trigger] rows[i] == " "@ + (if s.focus == Focus::Places
                    && i == s.pidx {
                    "\x1b[48;5;24m"@ + "\x1b[38;5;231m"@
                } else {
                    "\x1b[38;5;250m"@
                }) + text::padded_right(s.net.places[i].name, width) + "  "@ + (if s.marking[i]
                    == 0 {
                    "\x1b[38;5;243m"@
                } else {
                    "\x1b[38;5;220m"@
                }) + dots_text(s.marking[i]) + "\x1b[0m"@ + "\n"@
            &&& places_pane(s) == " "@ + ("\x1b[1m"@ + "PLACES"@ + "\x1b[22m"@) + "\n"@
                + rows.flatten()
        }),
{
    let width = place_column(s) as nat;
    layout::lemma_longest_place(s.net, s.net.places.len());
    let rows = lemma_place_rows(s, s.net.places.len());
    (rows, width)
}

proof fn lemma_place_rows(s: AppModel, k: nat) -> (rows: Seq<Seq<char>>)
    ensures
        rows.len() == k,
        place_rows(s, k) == rows.flatten(),
        forall|i: int|
            0 <= i < k ==> #[trigger] rows[i] == " "@ + (if s.focus == Focus::Places && i
                == s.pidx {
                "\x1b[48;5;24m"@ + "\x1b[38;5;231m"@
            } else {
                "\x1b[38;5;250m"@
            }) + text::padded_right(s.net.places[i].name, place_column(s) as nat) + "  "@ + (
            if s.marking[i] == 0 {
                "\x1b[38;5;243m"@
            } else {
                "\x1b[38;5;220m"@
            }) + dots_text(s.marking[i]) + "\x1b[0m"@ + "\n"@,
    decreases k,
{
    if k == 0 {
        let rows = Seq::<Seq<char>>::empty();
        assert(rows.flatten() =~= Seq::empty());
        rows
    } else {
        let before = lemma_place_rows(s, (k - 1) as nat);
        lemma_colour_codes();
        crate::legible::lemma_flatten_push(before, place_row(s, k - 1));
        before.push(place_row(s, k - 1))
    }
}

/// The transitions pane has a heading and then one row for each transition, in
/// order: a mark that tells a conflict, an enabled and a disabled transition
/// apart, the name, filled up to the length of the longest, the arcs, and that
/// length. The selected row stands out where the pane has the focus, and what
/// is not enabled is dimmed.
pub proof fn law_trans_pane(s: AppModel) -> (r: (Seq<Seq<char>>, nat))
    requires
        s.net.trans.len() <= usize::MAX,
    ensures
        ({
            let (rows, width) = r;
            &&& width >= 8
            &&& forall|t: int|
                0 <= t < s.net.trans.len() ==> text::utf8_len((#[trigger] s.net.trans[t]).name)
                    <= width
            &&& width == 8 || exists|t: int|
                0 <= t < s.net.trans.len() && text::utf8_len((#[trigger] s.net.trans[t]).name)
                    == width
            &&& rows.len() == s.net.trans.len()
            &&& forall|t: int|
                0 <= t < rows.len() ==> #[trigger] rows[t] == " "@ + (if s.focus == Focus::Trans
                    && t == s.tidx {
                    "\x1b[48;5;24m"@
                } else {
                    Seq::empty()
                }) + (if s.net.in_conflict(
                    s.marking,
                    t as usize,
                    s.net.enabled_list(s.marking),
                ) {
                    "\x1b[38;5;208m"@ + "\u{203c}"@
                } else if s.net.enabled(s.marking, t) {
                    "\x1b[38;5;46m"@ + "\u{25b6}"@
                } else {
                    "\x1b[38;5;243m"@ + "\u{b7}"@
                }) + " "@ + ((if s.focus == Focus::Trans && t == s.tidx {
                    "\x1b[38;5;231m"@
                } else if s.net.enabled(s.marking, t) {
                    "\x1b[38;5;250m"@
                } else {
                    "\x1b[38;5;243m"@
                }) + text::padded_right(s.net.trans[t].name, width) + " "@ + (if s.net.enabled(
                    s.marking,
                    t,
                ) {
                    "\x1b[38;5;250m"@
                } else {
                    "\x1b[38;5;243m"@
                }) + report::arcs_text(s.net, t) + text::decimal(width) + "\n"@)
            &&& trans_pane(s) == " "@ + ("\x1b[1m"@ + "TRANSITIONS"@ + "\x1b[22m"@) + "\n"@
                + rows.flatten()
        }),
{
    let width = layout::trans_name_width(s.net) as nat;
    layout::lemma_longest_trans(s.net, s.net.trans.len());
    let rows = lemma_trans_rows(s, s.net.trans.len());
    (rows, width)
}

proof fn lemma_trans_rows(s: AppModel, k: nat) -> (rows: Seq<Seq<char>>)
    requires
        k <= s.net.trans.len() <= usize::MAX,
    ensures
        rows.len() == k,
        trans_rows(s, k) == rows.flatten(),
        forall|t: int|
            0 <= t < k ==> #[trigger] rows[t] == " "@ + (if s.focus == Focus::Trans && t
                == s.tidx {
                "\x1b[48;5;24m"@
            } else {
                Seq::empty()
            }) + (if s.net.in_conflict(s.marking, t as usize, s.net.enabled_list(s.marking)) {
                "\x1b[38;5;208m"@ + "\u{203c}"@
            } else if s.net.enabled(s.marking, t) {
                "\x1b[38;5;46m"@ + "\u{25b6}"@
            } else {
                "\x1b[38;5;243m"@ + "\u{b7}"@
            }) + " "@ + ((if s.focus == Focus::Trans && t == s.tidx {
                "\x1b[38;5;231m"@
            } else if s.net.enabled(s.marking, t) {
                "\x1b[38;5;250m"@
            } else {
                "\x1b[38;5;243m"@
            }) + text::padded_right(
                s.net.trans[t].name,
                layout::trans_name_width(s.net) as nat,
            ) + " "@ + (if s.net.enabled(s.marking, t) {
                "\x1b[38;5;250m"@
            } else {
                "\x1b[38;5;243m"@
            }) + report::arcs_text(s.net, t) + text::decimal(
                layout::trans_name_width(s.net) as nat,
            ) + "\n"@),
    decreases k,
{
    if k == 0 {
        let rows = Seq::<Seq<char>>::empty();
        assert(rows.flatten() =~= Seq::empty());
        rows
    } else {
        let before = lemma_trans_rows(s, (k - 1) as nat);
        lemma_colour_codes();
        crate::net::lemma_enabled_below(s.net, s.marking, s.net.trans.len());
        assert(s.net.enabled_list(s.marking).contains((k - 1) as usize) <==> s.net.enabled(
            s.marking,
            k - 1,
        ));
        crate::legible::lemma_flatten_push(before, trans_row(s, k - 1));
        before.push(trans_row(s, k - 1))
    }
}

/// The trace pane has a heading and then the latest lines of the log, as many
/// as its height leaves room for, but at least one if there is any.
pub proof fn law_trace_pane(s: AppModel, h: u16) -> (shown: Seq<Seq<char>>)
    ensures
        shown.len() <= s.log.len(),
        shown == s.log.skip(s.log.len() - shown.len()),
        h >= 2 ==> shown.len() <= h - 1,
        h < 2 ==> shown.len() <= 1,
        shown.len() < s.log.len() ==> (shown.len() == h - 1 || (h < 2 && shown.len() == 1)),
        trace_pane(s, h as int) == " "@ + ("\x1b[1m"@ + "TRACE"@ + "\x1b[22m"@)
            + "  (the run so far \u{2014} one path through the branching tree)\n"@ + text::joined(
            shown,
            "\n"@,
        ),
{
    let shown = crate::app::last_items(s.log, trace_lines(h as int));
    assert(shown =~= s.log.skip(s.log.len() - shown.len()));
    shown
}

/// The status line is the message where there is one; otherwise it says
/// whether the net is deadlocked, and which keys there are.
pub proof fn law_status_line(s: AppModel)
    requires
        s.net.trans.len() <= usize::MAX,
    ensures
        s.msg matches Some(m) ==> status_line(s) == m,
        s.msg is None && s.net.dead(s.marking) ==> status_line(s)
            == "\x1b[38;5;231;48;5;52m DEADLOCK \u{2014} no enabled transitions \x1b[0m"@
            + "  u undo \u{b7} R reset \u{b7} a analyze"@,
        s.msg is None && !s.net.dead(s.marking) ==> status_line(s)
            == " Tab focus \u{b7} Enter fire \u{b7} Spc run \u{b7} +/- tokens \u{b7} u undo \u{b7} R reset \u{b7} a analyze \u{b7} e edit \u{b7} ? help \u{b7} q quit"@,
{
    crate::net::lemma_dead_iff_no_enabled(s.net, s.marking);
    lemma_colour_numbers();
    reveal_strlit("\x1b[38;5;");
    reveal_strlit(";48;5;");
    reveal_strlit("m");
    reveal_strlit(" DEADLOCK \u{2014} no enabled transitions ");
    reveal_strlit("\x1b[0m");
    reveal_strlit("\x1b[38;5;231;48;5;52m DEADLOCK \u{2014} no enabled transitions \x1b[0m");
    assert(style::two_colours_text(" DEADLOCK \u{2014} no enabled transitions "@, 231, 52)
        =~= "\x1b[38;5;231;48;5;52m DEADLOCK \u{2014} no enabled transitions \x1b[0m"@);
}

/// The header names the file without its directories, or the built-in net; it
/// gives the sizes of the net and the step, and says whether a run is on.
pub proof fn law_header(s: AppModel)
    requires
        s.steps >= 0,
    ensures
        header(s) == " petri  "@ + (if s.file is Some {
            base_name(s.file->0)
        } else {
            "(builtin demo)"@
        }) + "  \u{b7}  "@ + text::decimal(s.net.places.len()) + " places  "@ + text::decimal(
            s.net.trans.len(),
        ) + " transitions  \u{b7}  step "@ + text::decimal(s.steps as nat) + "  "@ + (if s.running {
            "\x1b[1m"@ + "\u{25b6} RUNNING"@ + "\x1b[22m"@
        } else {
            Seq::empty()
        }),
{
}

/// The name of a file is what follows the last slash of its path.
pub proof fn law_base_name(path: Seq<char>)
    ensures
        !base_name(path).contains('/'),
        base_name(path).len() <= path.len(),
        path.skip(path.len() - base_name(path).len()) == base_name(path),
        base_name(path).len() < path.len() ==> path[path.len() - base_name(path).len() - 1] == '/',
    decreases path.len(),
{
    text::lemma_find(path, '/');
    let n = text::find(path, '/') as int;
    if n < path.len() {
        let rest = text::after(path, '/');
        law_base_name(rest);
        let b = base_name(path);
        assert(path.skip(path.len() - b.len()) =~= rest.skip(rest.len() - b.len()));
        if b.len() < rest.len() {
            assert(rest[rest.len() - b.len() - 1] == path[path.len() - b.len() - 1]);
        }
    } else {
        assert(path.skip(0) =~= path);
    }
}

/// The border of the pane that has the focus stands out.
pub proof fn law_borders(s: AppModel)
    ensures
        s.focus == Focus::Places ==> borders(s) == (75u16, 238u16),
        s.focus == Focus::Trans ==> borders(s) == (238u16, 75u16),
{
}

/// The help says what each key does.
pub proof fn law_help()
    ensures
        HELP@ == "petri \u{2014} keys

  Tab                switch focus (places / transitions)
  j k / arrows       move selection
  Enter / f          fire the selected transition
  Space              auto-run: fire random enabled transitions
  + / -              add / remove a token (places pane)
  u                  undo last firing
  R                  reset to the file's initial marking
  a                  analyze reachable markings
                     (deadlocks, boundedness, place bounds)
  e                  edit the net file in $EDITOR, reload
  ? h                this help
  q                  quit

 Net file format \u{2014} two line shapes, all else ignored:
   lock = 1                    place with initial tokens
   enter: idle lock -> crit    transition (repeat = weight)

 \u{203c} marks a conflict: enabled transitions competing for
 the same tokens. The net cannot decide. You do.

 (Esc / q / Enter to close)"@,
{
}

} // verus!

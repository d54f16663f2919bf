//! Where things go on the screen.
use crate::net::{Net, NetModel};
use crate::report;
use crate::text;
use crate::text::{byte_len, chars_of};
use vstd::prelude::*;

verus! {

/// The place of the panes on a terminal: everything is anchored top left, the
/// panes are as large as the net needs, and the trace takes what is left.
pub struct Layout {
    /// The width of the screen.
    pub cols: u16,
    /// The height of the screen.
    pub rows: u16,
    /// The width of the places pane.
    pub places_w: u16,
    /// The first column of the transitions pane.
    pub trans_x: u16,
    /// The width of the transitions pane.
    pub trans_w: u16,
    /// The height of both panes.
    pub main_h: u16,
    /// The first row of the trace.
    pub log_y: u16,
    /// The height of the trace.
    pub log_h: u16,
}

/// `x` modulo 2 to the 16.
pub open spec fn low16(x: int) -> int {
    x % 0x1_0000
}

/// The larger of two numbers.
pub open spec fn larger(a: int, b: int) -> int {
    if a >= b {
        a
    } else {
        b
    }
}

/// The smaller of two numbers.
pub open spec fn smaller(a: int, b: int) -> int {
    if a <= b {
        a
    } else {
        b
    }
}

/// The longest, in bytes, of the first `k` place names.
pub open spec fn longest_place(net: NetModel, k: nat) -> int
    decreases k,
{
    if k == 0 {
        0
    } else {
        larger(longest_place(net, (k - 1) as nat), text::utf8_len(net.places[k - 1].name) as int)
    }
}

/// The longest, in bytes, of the first `k` transition names.
pub open spec fn longest_trans(net: NetModel, k: nat) -> int
    decreases k,
{
    if k == 0 {
        0
    } else {
        larger(longest_trans(net, (k - 1) as nat), text::utf8_len(net.trans[k - 1].name) as int)
    }
}

/// The longest, in characters, of the first `k` texts of arcs.
pub open spec fn longest_arcs(net: NetModel, k: nat) -> int
    decreases k,
{
    if k == 0 {
        0
    } else {
        larger(longest_arcs(net, (k - 1) as nat), report::arcs_text(net, k - 1).len() as int)
    }
}

/// The longest place name, 6 where there is no place.
pub open spec fn place_name_width(net: NetModel) -> int {
    if net.places.len() == 0 {
        6
    } else {
        longest_place(net, net.places.len())
    }
}

/// The longest transition name, and at least 8.
pub open spec fn trans_name_width(net: NetModel) -> int {
    larger(longest_trans(net, net.trans.len()), 8)
}

/// The longest text of arcs, 10 where there is no transition.
pub open spec fn arcs_width(net: NetModel) -> int {
    if net.trans.len() == 0 {
        10
    } else {
        longest_arcs(net, net.trans.len())
    }
}

/// The number of rows that the longer of the two lists needs.
pub open spec fn items(net: NetModel) -> int {
    low16(larger(net.places.len() as int, net.trans.len() as int))
}

/// The layout of a net on a terminal of the given size.
pub open spec fn layout_of(net: NetModel, cols: u16, rows: u16) -> Layout {
    let rows = larger(rows as int, 14);
    let cols = larger(cols as int, 60);
    let places_w = smaller(larger(low16(place_name_width(net) + 20), 24), cols / 2 - 4);
    let trans_x = 2 + places_w + 3;
    let trans_w = larger(
        smaller(low16(trans_name_width(net) + arcs_width(net) + 8), cols - trans_x - 1),
        20,
    );
    let main_h = smaller(larger(items(net) + 1, 4), larger(rows - 12, 4));
    let log_y = 3 + main_h + 2;
    let log_h = larger(rows - (log_y + 2), 2);
    Layout {
        cols: cols as u16,
        rows: rows as u16,
        places_w: places_w as u16,
        trans_x: trans_x as u16,
        trans_w: trans_w as u16,
        main_h: main_h as u16,
        log_y: log_y as u16,
        log_h: log_h as u16,
    }
}

/// The low 16 bits of a number.
fn truncated(x: u128) -> (r: u16)
    ensures
        r == low16(x as int),
{
    (x % 0x1_0000) as u16
}

/// The longest place name in bytes.
pub fn longest_place_name(net: &Net) -> (r: usize)
    ensures
        r == longest_place(net@, net@.places.len()),
{
    let mut r: usize = 0;
    let mut i: usize = 0;
    while i < net.places.len()
        invariant
            i <= net.places.len(),
            r == longest_place(net@, i as nat),
        decreases net.places.len() - i,
    {
        let n = byte_len(net.places[i].name.as_str());
        if n > r {
            r = n;
        }
        i = i + 1;
    }
    r
}

/// The longest transition name in bytes, and at least 8.
pub fn trans_name_column(net: &Net) -> (r: usize)
    ensures
        r == trans_name_width(net@),
{
    let mut r: usize = 0;
    let mut i: usize = 0;
    while i < net.trans.len()
        invariant
            i <= net.trans.len(),
            r == longest_trans(net@, i as nat),
        decreases net.trans.len() - i,
    {
        let n = byte_len(net.trans[i].name.as_str());
        if n > r {
            r = n;
        }
        i = i + 1;
    }
    if r > 8 {
        r
    } else {
        8
    }
}

fn longest_arcs_of(net: &Net) -> (r: usize)
    requires
        net@.arcs_valid(),
    ensures
        r == longest_arcs(net@, net@.trans.len()),
{
    let mut r: usize = 0;
    let mut t: usize = 0;
    while t < net.trans.len()
        invariant
            t <= net.trans.len(),
            net@.arcs_valid(),
            r == longest_arcs(net@, t as nat),
        decreases net.trans.len() - t,
    {
        let n = net.arcs_str(t).as_str().unicode_len();
        if n > r {
            r = n;
        }
        t = t + 1;
    }
    r
}

/// Lays out a net on a terminal of the given size.
pub fn layout(net: &Net, cols: u16, rows: u16) -> (r: Layout)
    requires
        net@.arcs_valid(),
        items(net@) < 0xffff,
    ensures
        r == layout_of(net@, cols, rows),
{
    let rows: u16 = if rows > 14 {
        rows
    } else {
        14
    };
    let cols: u16 = if cols > 60 {
        cols
    } else {
        60
    };
    let pname: usize = if net.places.len() == 0 {
        6
    } else {
        longest_place_name(net)
    };
    let tname = trans_name_column(net);
    let arcs: usize = if net.trans.len() == 0 {
        10
    } else {
        longest_arcs_of(net)
    };
    let want_p = truncated(pname as u128 + 20);
    let max_p: u16 = cols / 2 - 4;
    let places_w: u16 = if want_p < 24 {
        24
    } else if want_p > max_p {
        max_p
    } else {
        want_p
    };
    let trans_x: u16 = 2 + places_w + 3;
    let want_t = truncated(tname as u128 + arcs as u128 + 8);
    let max_t: u16 = cols - trans_x - 1;
    let fit_t: u16 = if want_t < max_t {
        want_t
    } else {
        max_t
    };
    let trans_w: u16 = if fit_t > 20 {
        fit_t
    } else {
        20
    };
    let count: usize = if net.places.len() > net.trans.len() {
        net.places.len()
    } else {
        net.trans.len()
    };
    let items = truncated(count as u128);
    let max_h: u16 = if rows - 12 > 4 {
        rows - 12
    } else {
        4
    };
    let want_h: u16 = items + 1;
    let main_h: u16 = if want_h < 4 {
        4
    } else if want_h > max_h {
        max_h
    } else {
        want_h
    };
    let log_y: u16 = 3 + main_h + 2;
    let log_h: u16 = if rows >= log_y + 2 && rows - (log_y + 2) > 2 {
        rows - (log_y + 2)
    } else {
        2
    };
    Layout { cols, rows, places_w, trans_x, trans_w, main_h, log_y, log_h }
}

/// How far a list is scrolled so that the selected item shows in a pane of
/// height `h` with a heading.
pub open spec fn scrolled(index: int, h: int) -> int {
    larger(index + 2 - h, 0)
}

/// How far to scroll a list.
pub fn scroll(index: usize, h: u16) -> (r: usize)
    requires
        index + 2 <= usize::MAX,
    ensures
        r == scrolled(index as int, h as int),
{
    let end: usize = index + 2;
    if end > h as usize {
        end - h as usize
    } else {
        0
    }
}

/// The number of line feeds in `s`.
pub open spec fn line_feeds(s: Seq<char>) -> nat
    decreases s.len(),
{
    if s.len() == 0 {
        0
    } else {
        line_feeds(s.drop_last()) + (if s.last() == '\n' {
            1nat
        } else {
            0nat
        })
    }
}

/// The number of lines of `s`: each line feed ends one, and what follows the
/// last is one more.
pub open spec fn line_count(s: Seq<char>) -> nat {
    line_feeds(s) + (if s.len() > 0 && s.last() != '\n' {
        1nat
    } else {
        0nat
    })
}

/// The size of a popup: as wide as wanted and as high as its text needs, with
/// room for a last row, but within the screen.
pub open spec fn popup_of(lines: int, want_w: int, cols: int, rows: int) -> (int, int) {
    (
        larger(smaller(want_w, larger(cols - 2, 0)), 20),
        larger(smaller(low16(lines) + 1, larger(rows - 2, 0)), 3),
    )
}

/// Counts the lines of a text.
pub fn count_lines(content: &str) -> (n: u128)
    ensures
        n == line_count(content@),
        n <= 0x1_0000_0000_0000_0000,
{
    let cs = chars_of(content);
    let mut n: u128 = 0;
    let mut i: usize = 0;
    while i < cs.len()
        invariant
            i <= cs.len(),
            cs@ == content@,
            n == line_feeds(cs@.take(i as int)),
            n <= i,
        decreases cs.len() - i,
    {
        assert(cs@.take(i + 1).drop_last() =~= cs@.take(i as int));
        if cs[i] == '\n' {
            n = n + 1;
        }
        i = i + 1;
    }
    assert(cs@.take(i as int) =~= cs@);
    if cs.len() > 0 && cs[cs.len() - 1] != '\n' {
        n = n + 1;
    }
    n
}

/// The size of the popup that shows `content`, wanted `want_w` wide.
pub fn popup_size(content: &str, want_w: u16, cols: u16, rows: u16) -> (r: (u16, u16))
    requires
        low16(line_count(content@) as int) < 0xffff,
    ensures
        (r.0 as int, r.1 as int) == popup_of(
            line_count(content@) as int,
            want_w as int,
            cols as int,
            rows as int,
        ),
{
    let lines: u16 = truncated(count_lines(content)) + 1;
    let max_w: u16 = if cols > 2 {
        cols - 2
    } else {
        0
    };
    let max_h: u16 = if rows > 2 {
        rows - 2
    } else {
        0
    };
    let fit_w: u16 = if want_w < max_w {
        want_w
    } else {
        max_w
    };
    let fit_h: u16 = if lines < max_h {
        lines
    } else {
        max_h
    };
    let w: u16 = if fit_w > 20 {
        fit_w
    } else {
        20
    };
    let h: u16 = if fit_h > 3 {
        fit_h
    } else {
        3
    };
    (w, h)
}

/// The panes of a layout lie on the screen: the places pane ends left of the
/// transitions pane, which ends before the last column where it has its room,
/// and the trace lies below both.
pub proof fn law_panes_on_screen(net: NetModel, cols: u16, rows: u16)
    ensures
        ({
            let l = layout_of(net, cols, rows);
            &&& l.cols >= cols && l.cols >= 60
            &&& l.rows >= rows && l.rows >= 14
            &&& 24 <= l.places_w <= l.cols / 2 - 4
            &&& 2 + l.places_w < l.trans_x
            &&& 20 <= l.trans_w && l.trans_x + l.trans_w < l.cols
            &&& 4 <= l.main_h && 3 + l.main_h < l.log_y
            &&& 2 <= l.log_h && l.log_y + l.log_h < l.rows
        }),
{
}

/// No place name is longer than the longest, which some place has unless there
/// is none.
pub proof fn lemma_longest_place(net: NetModel, k: nat)
    requires
        k <= net.places.len(),
    ensures
        forall|i: int|
            0 <= i < k ==> text::utf8_len((#[trigger] net.places[i]).name) <= longest_place(net, k),
        longest_place(net, k) >= 0,
        longest_place(net, k) == 0 || exists|i: int|
            0 <= i < k && text::utf8_len((#[trigger] net.places[i]).name) == longest_place(net, k),
        k > 0 ==> exists|i: int|
            0 <= i < k && text::utf8_len((#[trigger] net.places[i]).name) == longest_place(net, k),
    decreases k,
{
    if k > 0 {
        lemma_longest_place(net, (k - 1) as nat);
        let last = net.places[k - 1];
        if longest_place(net, k) == text::utf8_len(last.name) {
            assert(text::utf8_len(net.places[k - 1].name) == longest_place(net, k));
        } else {
            let i = choose|i: int|
                0 <= i < k - 1 && text::utf8_len((#[trigger] net.places[i]).name)
                    == longest_place(net, (k - 1) as nat);
            assert(text::utf8_len(net.places[i].name) == longest_place(net, k));
        }
    }
}

/// No transition name is longer than the longest, which some transition has
/// unless there is none.
pub proof fn lemma_longest_trans(net: NetModel, k: nat)
    requires
        k <= net.trans.len(),
    ensures
        forall|i: int|
            0 <= i < k ==> text::utf8_len((#[trigger] net.trans[i]).name) <= longest_trans(net, k),
        longest_trans(net, k) >= 0,
        longest_trans(net, k) == 0 || exists|i: int|
            0 <= i < k && text::utf8_len((#[trigger] net.trans[i]).name) == longest_trans(net, k),
    decreases k,
{
    if k > 0 {
        lemma_longest_trans(net, (k - 1) as nat);
        if longest_trans(net, k) == text::utf8_len(net.trans[k - 1].name) {
            assert(text::utf8_len(net.trans[k - 1].name) == longest_trans(net, k));
        } else {
            let i = choose|i: int|
                0 <= i < k - 1 && text::utf8_len((#[trigger] net.trans[i]).name)
                    == longest_trans(net, (k - 1) as nat);
            assert(text::utf8_len(net.trans[i].name) == longest_trans(net, k));
        }
    }
}

/// No text of arcs is longer than the longest, which some transition has.
pub proof fn lemma_longest_arcs(net: NetModel, k: nat)
    requires
        0 < k <= net.trans.len(),
    ensures
        forall|t: int|
            0 <= t < k ==> (#[trigger] report::arcs_text(net, t)).len() <= longest_arcs(net, k),
        exists|t: int|
            0 <= t < k && (#[trigger] report::arcs_text(net, t)).len() == longest_arcs(net, k),
    decreases k,
{
    if longest_arcs(net, k) == report::arcs_text(net, k - 1).len() {
        assert(report::arcs_text(net, k - 1).len() == longest_arcs(net, k));
    }
    if k > 1 {
        lemma_longest_arcs(net, (k - 1) as nat);
        if longest_arcs(net, k) != report::arcs_text(net, k - 1).len() {
            let t = choose|t: int|
                0 <= t < k - 1 && (#[trigger] report::arcs_text(net, t)).len() == longest_arcs(
                    net,
                    (k - 1) as nat,
                );
            assert(report::arcs_text(net, t).len() == longest_arcs(net, k));
        }
    }
}

/// Numbers count modulo 2 to the 16.
pub proof fn law_low16(x: int) -> (k: int)
    requires
        x >= 0,
    ensures
        0 <= low16(x) < 65536,
        x == 65536 * k + low16(x),
{
    x / 65536
}

/// The widths and heights that a net asks for, as far as 16 bits count. `n` and
/// `m` are the lengths in bytes of its longest place name (6 without places)
/// and of its longest transition name, `w` the length in characters of its
/// longest text of arcs (10 without transitions).
/// The places pane is as wide as its names and 20 more, the transitions pane
/// as wide as its names, its arcs and 8 more, each within its limits; both are
/// one row higher than the longer of the two lists, within their limits; and
/// the trace takes the rest of the rows.
pub proof fn law_layout(net: NetModel, cols: u16, rows: u16) -> (r: (int, int, int))
    ensures
        ({
            let (n, m, w) = r;
            &&& forall|i: int|
                0 <= i < net.places.len() ==> text::utf8_len((#[trigger] net.places[i]).name) <= n
            &&& net.places.len() > 0 ==> exists|i: int|
                0 <= i < net.places.len() && text::utf8_len((#[trigger] net.places[i]).name) == n
            &&& net.places.len() == 0 ==> n == 6
            &&& forall|t: int|
                0 <= t < net.trans.len() ==> text::utf8_len((#[trigger] net.trans[t]).name) <= m
            &&& m == 0 || exists|t: int|
                0 <= t < net.trans.len() && text::utf8_len((#[trigger] net.trans[t]).name) == m
            &&& m >= 0
            &&& forall|t: int|
                0 <= t < net.trans.len() ==> (#[trigger] report::arcs_text(net, t)).len() <= w
            &&& net.trans.len() > 0 ==> exists|t: int|
                0 <= t < net.trans.len() && (#[trigger] report::arcs_text(net, t)).len() == w
            &&& net.trans.len() == 0 ==> w == 10
        }),
        ({
            let (n, m, w) = r;
            let l = layout_of(net, cols, rows);
            let names = if m < 8 {
                8
            } else {
                m
            };
            let most_w = l.cols - l.trans_x - 1;
            let most_h = if l.rows - 12 < 4 {
                4
            } else {
                l.rows - 12
            };
            let list: int = if net.places.len() > net.trans.len() {
                net.places.len() as int
            } else {
                net.trans.len() as int
            };
            let want_p = low16(n + 20);
            let want_t = low16(names + w + 8);
            let want_h = low16(list) + 1;
            {
                &&& l.cols == (if cols < 60 {
                    60
                } else {
                    cols as int
                })
                &&& l.rows == (if rows < 14 {
                    14
                } else {
                    rows as int
                })
                &&& l.places_w == (if want_p > l.cols / 2 - 4 {
                    l.cols / 2 - 4
                } else if want_p < 24 {
                    24
                } else {
                    want_p
                })
                &&& l.trans_x == l.places_w + 5
                &&& l.trans_w == (if want_t < 20 || most_w < 20 {
                    20
                } else if want_t > most_w {
                    most_w
                } else {
                    want_t
                })
                &&& l.main_h == (if want_h > most_h {
                    most_h
                } else if want_h < 4 {
                    4
                } else {
                    want_h
                })
                &&& l.log_y == l.main_h + 5
                &&& l.log_h == (if l.rows - l.log_y - 2 < 2 {
                    2
                } else {
                    l.rows - l.log_y - 2
                })
            }
        }),
{
    let n = place_name_width(net);
    let m = longest_trans(net, net.trans.len());
    let w = arcs_width(net);
    lemma_longest_place(net, net.places.len());
    lemma_longest_trans(net, net.trans.len());
    if net.trans.len() > 0 {
        lemma_longest_arcs(net, net.trans.len());
    }
    (n, m, w)
}

/// A list is scrolled so that the selected item, which stands one row lower
/// for the heading, is the last that shows; it is not scrolled where it shows
/// anyway.
pub proof fn law_scrolling(index: int, h: int)
    requires
        index >= 0,
        h >= 2,
    ensures
        0 <= scrolled(index, h) <= index + 1 < scrolled(index, h) + h,
        scrolled(index, h) == 0 || index + 1 == scrolled(index, h) + h - 1,
{
}

/// Scrolling by one more row of height, or one item less, is one row less.
pub proof fn law_scrolling_steps(index: int, h: int)
    requires
        index >= 0,
        h >= 0,
    ensures
        scrolled(index, h) > 0 ==> scrolled(index, h + 1) == scrolled(index, h) - 1,
        scrolled(index + 1, h + 1) == scrolled(index, h),
        scrolled(index, 0) == index + 2,
{
}

/// The number of lines of a text is the number of its pieces between line
/// feeds, where a last piece that is empty does not count.
pub proof fn law_line_count(s: Seq<char>)
    ensures
        s.len() > 0 && s.last() != '\n' ==> line_count(s) == text::lines(s).len(),
        s.len() == 0 || s.last() == '\n' ==> line_count(s) == text::lines(s).len() - 1,
{
    lemma_line_feeds(s);
}

proof fn lemma_line_feeds(s: Seq<char>)
    ensures
        text::lines(s).len() == line_feeds(s) + 1,
    decreases s.len(),
{
    text::lemma_find(s, '\n');
    let n = text::find(s, '\n') as int;
    if n < s.len() {
        let rest = text::after(s, '\n');
        lemma_line_feeds(rest);
        assert(s =~= text::before(s, '\n') + seq!['\n'] + rest);
        lemma_feeds_add(text::before(s, '\n') + seq!['\n'], rest);
        lemma_feeds_add(text::before(s, '\n'), seq!['\n']);
        lemma_no_feeds(text::before(s, '\n'));
        assert(seq!['\n'].drop_last() =~= Seq::<char>::empty());
        assert(line_feeds(Seq::<char>::empty()) == 0);
        assert(line_feeds(seq!['\n']) == 1);
    } else {
        lemma_no_feeds(s);
    }
}

proof fn lemma_feeds_add(a: Seq<char>, b: Seq<char>)
    ensures
        line_feeds(a + b) == line_feeds(a) + line_feeds(b),
    decreases b.len(),
{
    if b.len() == 0 {
        assert(a + b =~= a);
    } else {
        assert((a + b).drop_last() =~= a + b.drop_last());
        lemma_feeds_add(a, b.drop_last());
    }
}

proof fn lemma_no_feeds(s: Seq<char>)
    requires
        forall|i: int| 0 <= i < s.len() ==> #[trigger] s[i] != '\n',
    ensures
        line_feeds(s) == 0,
    decreases s.len(),
{
    if s.len() > 0 {
        lemma_no_feeds(s.drop_last());
    }
}

/// A popup is as wide as wanted and one row higher than its text, while these
/// fit the screen less two columns and two rows; it is never narrower than 20
/// nor lower than 3.
pub proof fn law_popup(lines: int, want_w: int, cols: int, rows: int)
    requires
        lines >= 0,
        want_w >= 0,
        cols >= 0,
        rows >= 0,
    ensures
        ({
            let (w, h) = popup_of(lines, want_w, cols, rows);
            &&& w >= 20 && h >= 3
            &&& w > 20 ==> w <= cols - 2 && w <= want_w && (w == cols - 2 || w == want_w)
            &&& w == 20 ==> cols - 2 <= 20 || want_w <= 20
            &&& h > 3 ==> h <= rows - 2 && h <= low16(lines) + 1 && (h == rows - 2 || h == low16(
                lines,
            ) + 1)
            &&& h == 3 ==> rows - 2 <= 3 || low16(lines) + 1 <= 3
        }),
{
}

} // verus!

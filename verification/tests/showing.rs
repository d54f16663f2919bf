use petri::app::App;
use petri::layout::{count_lines, layout, popup_size, scroll};
use petri::net::Net;
use petri::rng::Rng;
use petri::screen::HELP;

fn net(text: &str) -> Net {
    match Net::parse(text) {
        Ok(n) => n,
        Err(e) => panic!("{}", e),
    }
}

fn session(text: &str) -> App {
    App::with_rng(net(text), None, Rng::seeded(None))
}

fn fg(c: u8) -> String {
    format!("\x1b[38;5;{}m", c)
}

fn bg(c: u8) -> String {
    format!("\x1b[48;5;{}m", c)
}

#[test]
fn header_of_a_session() {
    let mut app = session("a = 1\nt: a -> b");
    assert_eq!(
        app.header_text(),
        " petri  (builtin demo)  \u{b7}  2 places  1 transitions  \u{b7}  step 0  "
    );
    app.handle("f");
    app.handle(" ");
    app.file = Some("/home/me/nets/x.net".to_string());
    assert_eq!(
        app.header_text(),
        " petri  x.net  \u{b7}  2 places  1 transitions  \u{b7}  step 1  \x1b[1m\u{25b6} RUNNING\x1b[22m"
    );
    app.file = Some("dir/".to_string());
    assert!(app.header_text().starts_with(" petri    \u{b7}"));
}

#[test]
fn places_of_a_session() {
    let mut app = session("a = 2\nlonger_b = 13\nt: a longer_b -> c");
    app.handle("TAB");
    let want = format!(
        " \x1b[1mPLACES\x1b[22m\n {}{}a         {}\u{25cf}\u{25cf}\x1b[0m\n {}longer_b  {}\u{25cf}\u{d7}13\x1b[0m\n {}c         {}\u{b7}\x1b[0m\n",
        bg(24), fg(231), fg(220), fg(250), fg(220), fg(250), fg(243)
    );
    assert_eq!(app.places_text(), want);
    app.handle("TAB");
    assert_eq!(app.places_text(), want.replace(&format!("{}{}", bg(24), fg(231)), &fg(250)));
}

#[test]
fn twelve_tokens_are_dots() {
    let app = session("a = 12\nt: a -> b");
    assert!(app.places_text().contains(&"\u{25cf}".repeat(12)));
    let more = session("a = 13\nt: a -> b");
    assert!(more.places_text().contains("\u{25cf}\u{d7}13"));
}

#[test]
fn the_name_column_is_as_wide_as_the_bytes() {
    // Six characters of two bytes each: the column is twelve characters wide.
    let name = "\u{e9}".repeat(6);
    let app = session(&format!("{} = 0\nt: {} -> x", name, name));
    assert!(app.places_text().contains(&format!("{}{}  ", name, " ".repeat(6))));
}

#[test]
fn transitions_of_a_session() {
    let app = session("a = 1\nb = 1\nt: a -> c\nu: a -> d\nv: b -> c\nw: c -> a");
    let row = |selpre: String, col: u8, mark: &str, namecol: u8, name: &str, arccol: u8, arcs: &str| {
        format!(
            " {}{}{} {}{:<tw$} {}{}{}\n",
            selpre,
            fg(col),
            mark,
            fg(namecol),
            name,
            fg(arccol),
            arcs,
            tw = 8
        )
    };
    let none = String::new;
    let want = format!(
        " \x1b[1mTRANSITIONS\x1b[22m\n{}{}{}{}",
        row(bg(24), 208, "\u{203c}", 231, "t", 250, "a \u{2192} c"),
        row(none(), 208, "\u{203c}", 250, "u", 250, "a \u{2192} d"),
        row(none(), 46, "\u{25b6}", 250, "v", 250, "b \u{2192} c"),
        row(none(), 243, "\u{b7}", 243, "w", 243, "c \u{2192} a"),
    );
    assert_eq!(app.trans_text(), want);
    assert!(want.ends_with("c \u{2192} a8\n"));
}

#[test]
fn the_trace_shows_the_latest_lines() {
    let mut app = session("t: -> a");
    let head = " \x1b[1mTRACE\x1b[22m  (the run so far \u{2014} one path through the branching tree)\n";
    assert_eq!(app.trace_text(5), head);
    for _ in 0..4 {
        app.handle("f");
    }
    assert_eq!(
        app.trace_text(4),
        format!("{}   2  t\n   3  t\n   4  t", head)
    );
    assert_eq!(app.trace_text(2), format!("{}   4  t", head));
    assert_eq!(app.trace_text(0), format!("{}   4  t", head));
    assert_eq!(
        app.trace_text(9),
        format!("{}   1  t\n   2  t\n   3  t\n   4  t", head)
    );
}

#[test]
fn the_status_line() {
    let mut app = session("a = 1\nt: a -> b");
    assert_eq!(
        app.status_text(),
        " Tab focus \u{b7} Enter fire \u{b7} Spc run \u{b7} +/- tokens \u{b7} u undo \u{b7} R reset \u{b7} a analyze \u{b7} e edit \u{b7} ? help \u{b7} q quit"
    );
    app.handle("u");
    assert_eq!(app.status_text(), " nothing to undo");
    assert!(app.msg.is_none());
    app.handle("f");
    assert_eq!(
        app.status_text(),
        "\x1b[38;5;231;48;5;52m DEADLOCK \u{2014} no enabled transitions \x1b[0m  u undo \u{b7} R reset \u{b7} a analyze"
    );
}

#[test]
fn the_focus_shows_in_the_borders() {
    let mut app = session("t: -> a");
    assert_eq!(app.border_colours(), (238, 75));
    app.handle("TAB");
    assert_eq!(app.border_colours(), (75, 238));
}

#[test]
fn layout_of_a_small_net() {
    let n = net("a = 1\nt: a -> b");
    let l = layout(&n, 80, 24);
    assert_eq!((l.cols, l.rows), (80, 24));
    assert_eq!((l.places_w, l.trans_x, l.trans_w), (24, 29, 21));
    assert_eq!((l.main_h, l.log_y, l.log_h), (4, 9, 13));
}

#[test]
fn layout_of_a_small_screen() {
    let n = net("a_very_long_place_name_that_needs_room = 1\nt: a_very_long_place_name_that_needs_room -> b");
    let l = layout(&n, 10, 5);
    assert_eq!((l.cols, l.rows), (60, 14));
    assert_eq!((l.places_w, l.trans_x, l.trans_w), (26, 31, 28));
    assert_eq!((l.main_h, l.log_y, l.log_h), (4, 9, 3));
}

#[test]
fn layout_of_a_long_list() {
    let mut s = String::new();
    for i in 0..30 {
        s += &format!("p{} -> p{}\n", i, i + 1);
    }
    let l = layout(&net(&s), 120, 30);
    assert_eq!((l.main_h, l.log_y, l.log_h), (18, 23, 5));
    let tall = layout(&net(&s), 120, 60);
    assert_eq!((tall.main_h, tall.log_y, tall.log_h), (32, 37, 21));
}

#[test]
fn lists_scroll_with_the_selection() {
    assert_eq!(scroll(0, 4), 0);
    assert_eq!(scroll(2, 4), 0);
    assert_eq!(scroll(3, 4), 1);
    assert_eq!(scroll(9, 0), 11);
}

#[test]
fn lines_are_counted_as_std_counts_them() {
    for s in ["", "a", "a\n", "\n", "a\nb", "a\n\nb\n", "\n\n"] {
        assert_eq!(count_lines(s), s.lines().count() as u128, "{:?}", s);
    }
}

#[test]
fn popups_fit_the_screen() {
    assert_eq!(HELP.lines().count(), 23);
    assert_eq!(popup_size(HELP, 60, 80, 24), (60, 22));
    assert_eq!(popup_size(HELP, 60, 80, 40), (60, 24));
    assert_eq!(popup_size(HELP, 60, 40, 10), (38, 8));
    assert_eq!(popup_size("x", 64, 0, 0), (20, 3));
}

#[test]
fn the_help_begins_with_its_title() {
    assert!(HELP.starts_with("petri \u{2014} keys\n\n  Tab "));
    assert!(HELP.ends_with("\n (Esc / q / Enter to close)"));
}

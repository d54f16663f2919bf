use petri::app::{Action, App, Event, Focus};
use petri::cli::{command, headline, Command};
use petri::demo::DEMO;
use petri::net::Net;
use petri::rng::Rng;

fn net(text: &str) -> Net {
    match Net::parse(text) {
        Ok(n) => n,
        Err(e) => panic!("{}", e),
    }
}

fn session(text: &str) -> App {
    App::with_rng(net(text), None, Rng::seeded(Some(42)))
}

fn press(app: &mut App, key: &str) -> Action {
    assert!(app.accepts(key));
    app.handle(key)
}

fn log(app: &App) -> Vec<&str> {
    app.log.iter().map(|s| s.as_str()).collect()
}

#[test]
fn a_session_begins_at_the_initial_marking() {
    let app = App::new(net(DEMO), Some("x.net".to_string()));
    assert_eq!(app.marking, vec![1, 1, 1, 0, 0]);
    assert!(app.undo.is_empty());
    assert!(app.focus == Focus::Trans);
    assert_eq!((app.pidx, app.tidx, app.running, app.steps), (0, 0, false, 0));
    assert!(app.log.is_empty());
    assert_eq!(app.file.as_deref(), Some("x.net"));
    assert!(app.msg.is_none());
    assert_eq!(app.rng.0 % 2, 1);
}

#[test]
fn firing_and_undoing() {
    let mut app = session(DEMO);
    assert!(matches!(press(&mut app, "ENTER"), Action::Draw));
    assert_eq!(app.marking, vec![0, 0, 1, 1, 0]);
    assert_eq!(app.steps, 1);
    assert_eq!(log(&app), vec!["   1  enter1  \u{2039}conflict resolved\u{203a}"]);
    press(&mut app, "j");
    press(&mut app, "f");
    assert_eq!(app.marking, vec![1, 1, 1, 0, 0]);
    assert_eq!(log(&app)[1], "   2  leave1");
    press(&mut app, "u");
    press(&mut app, "u");
    assert_eq!(app.marking, vec![1, 1, 1, 0, 0]);
    assert_eq!(app.steps, 0);
    assert!(app.undo.is_empty());
    assert_eq!(log(&app)[2..], ["undo", "undo"]);
    press(&mut app, "u");
    assert_eq!(app.msg.as_deref(), Some(" nothing to undo"));
    assert_eq!(log(&app).len(), 4);
}

#[test]
fn a_disabled_transition_only_gives_a_message() {
    let mut app = session("a = 0\ngo: a -> b");
    press(&mut app, "f");
    assert_eq!(app.msg.as_deref(), Some(" go is not enabled"));
    assert_eq!(app.marking, vec![0, 0]);
    assert_eq!(app.steps, 0);
    assert!(app.undo.is_empty() && app.log.is_empty());
}

#[test]
fn the_selection_stays_in_range() {
    let mut app = session("a = 1\nt: a -> b\nu: b -> a");
    press(&mut app, "UP");
    assert_eq!(app.tidx, 0);
    press(&mut app, "DOWN");
    press(&mut app, "j");
    assert_eq!(app.tidx, 1);
    press(&mut app, "k");
    assert_eq!(app.tidx, 0);
    press(&mut app, "TAB");
    assert!(app.focus == Focus::Places);
    press(&mut app, "j");
    press(&mut app, "j");
    assert_eq!((app.pidx, app.tidx), (1, 0));
    press(&mut app, "k");
    press(&mut app, "k");
    assert_eq!(app.pidx, 0);
    press(&mut app, "TAB");
    assert!(app.focus == Focus::Trans);
}

#[test]
fn tokens_are_edited_in_the_places_pane_only() {
    let mut app = session("a = 1\nt: a -> b");
    press(&mut app, "+");
    press(&mut app, "-");
    assert_eq!(app.marking, vec![1, 0]);
    press(&mut app, "TAB");
    press(&mut app, "f");
    assert_eq!(app.steps, 0);
    press(&mut app, "+");
    press(&mut app, "=");
    assert_eq!(app.marking, vec![3, 0]);
    press(&mut app, "-");
    assert_eq!(app.marking, vec![2, 0]);
    assert_eq!(app.undo.len(), 3);
    press(&mut app, "u");
    assert_eq!(app.marking, vec![3, 0]);
    press(&mut app, "j");
    press(&mut app, "-");
    assert_eq!(app.marking, vec![3, 0]);
    assert_eq!(app.undo.len(), 2);
}

#[test]
fn reset_can_be_undone_but_for_the_steps() {
    let mut app = session("a = 2\nt: a -> b");
    press(&mut app, "f");
    press(&mut app, "R");
    assert_eq!(app.marking, vec![2, 0]);
    assert_eq!(app.steps, 0);
    assert_eq!(log(&app)[1], "reset to initial marking");
    press(&mut app, "u");
    assert_eq!(app.marking, vec![1, 1]);
    assert_eq!(app.steps, 0);
}

#[test]
fn what_the_other_keys_ask_for() {
    let mut app = session(DEMO);
    assert!(matches!(press(&mut app, "q"), Action::Quit));
    assert!(matches!(press(&mut app, "a"), Action::Analyze));
    assert!(matches!(press(&mut app, "?"), Action::Help));
    assert!(matches!(press(&mut app, "h"), Action::Help));
    assert!(matches!(press(&mut app, "x"), Action::Draw));
    assert!(matches!(press(&mut app, ""), Action::Draw));
    assert!(matches!(press(&mut app, "e"), Action::Draw));
    assert_eq!(
        app.msg.as_deref(),
        Some(" no file to edit (started with builtin demo)")
    );
    let mut filed = App::new(net(DEMO), Some("m.net".to_string()));
    assert!(matches!(press(&mut filed, "e"), Action::Edit));
    assert!(filed.msg.is_none());
    assert!(matches!(press(&mut filed, " "), Action::Run));
    assert!(filed.running);
}

#[test]
fn the_log_keeps_two_hundred_lines() {
    let mut app = session("t: -> a");
    for i in 0..205 {
        app.push_log(format!("line {}", i));
    }
    assert_eq!(app.log.len(), 200);
    assert_eq!(app.log[0], "line 5");
    assert_eq!(app.log[199], "line 204");
}

#[test]
fn firing_keeps_five_hundred_earlier_markings() {
    let mut app = session("t: -> a");
    for _ in 0..503 {
        press(&mut app, "f");
    }
    assert_eq!(app.undo.len(), 500);
    assert_eq!(app.undo[0], vec![3]);
    assert_eq!(app.marking, vec![503]);
    for _ in 0..500 {
        press(&mut app, "u");
    }
    assert_eq!(app.marking, vec![3]);
    assert_eq!(app.steps, 3);
}

#[test]
fn overflowing_keys_are_refused() {
    let mut app = session("a = 4294967295\nt: -> a");
    assert!(!app.accepts("f"));
    assert!(!app.accepts("ENTER"));
    assert!(!app.accepts_run_event(&Event::Tick));
    assert!(app.accepts_run_event(&Event::KeyPress));
    assert!(app.analyze_popup().is_none());
    press(&mut app, "TAB");
    assert!(!app.accepts("+"));
    assert!(app.accepts("-"));
    assert!(app.accepts("f"));
}

#[test]
fn a_run_fires_until_a_key_or_a_deadlock() {
    let mut app = session("a = 3\nt: a -> b");
    press(&mut app, " ");
    assert!(app.run_event(Event::Other));
    assert_eq!(app.steps, 0);
    for k in 1..=3 {
        assert!(app.run_event(Event::Tick));
        assert_eq!(app.marking, vec![3 - k, k]);
    }
    assert!(app.running);
    assert!(!app.run_event(Event::Tick));
    assert!(!app.running);
    assert_eq!(app.steps, 3);

    let mut stopped = session("a = 3\nt: a -> b");
    press(&mut stopped, " ");
    assert!(!stopped.run_event(Event::KeyPress));
    assert!(!stopped.running);
    assert_eq!(stopped.steps, 0);
}

#[test]
fn a_run_chooses_among_the_enabled_transitions() {
    let mut app = session(DEMO);
    let mut seen = [false; 4];
    for _ in 0..200 {
        let before = app.marking.clone();
        let en = app.net.enabled_set(&before);
        assert!(app.accepts_run_event(&Event::Tick));
        assert!(app.run_event(Event::Tick));
        let t = en
            .iter()
            .position(|t| app.net.fire(&before, *t) == app.marking);
        seen[en[t.unwrap_or_else(|| panic!("not a firing"))]] = true;
    }
    assert_eq!(seen, [true; 4]);
}

#[test]
fn reloading_starts_anew() {
    let mut app = session("a = 1\nt: a -> b\nu: b -> a");
    press(&mut app, "f");
    press(&mut app, "j");
    app.reload(Ok("c = 7\nv: c -> d".to_string()));
    assert_eq!(app.marking, vec![7, 0]);
    assert_eq!((app.steps, app.pidx, app.tidx), (0, 0, 0));
    assert!(app.undo.is_empty());
    assert_eq!(log(&app)[1], "net reloaded");
    assert!(app.msg.is_none());
}

#[test]
fn a_failed_reload_changes_only_the_message() {
    let mut app = session("a = 1\nt: a -> b");
    app.reload(Ok("a = x".to_string()));
    assert_eq!(
        app.msg.as_deref(),
        Some(" reload failed: line 1: bad token count 'x'")
    );
    app.reload(Err("no such file".to_string()));
    assert_eq!(app.msg.as_deref(), Some(" reload failed: no such file"));
    assert_eq!(app.marking, vec![1, 0]);
    assert!(app.log.is_empty());
}

#[test]
fn the_session_analyzes_its_present_marking() {
    let mut app = session("a = 1\nt: a -> b");
    press(&mut app, "f");
    let text = app.analyze_popup().unwrap_or_default();
    assert!(text.starts_with(" Reachable markings: 1\n"));
    assert!(text.ends_with("\n (Esc/q to close)"));
}

#[test]
fn the_generator_is_a_xorshift() {
    let mut r = Rng::seeded(Some(0));
    assert_eq!(r.0, 1);
    assert_eq!(r.next(10), (1082269761u64 % 10) as usize);
    assert_eq!(r.0, 1082269761);
    assert_eq!(Rng::seeded(Some(6)).0, 7);
    assert_eq!(Rng::seeded(Some(7)).0, 7);
    assert_eq!(Rng::seeded(None).0, 0x9e3779b9);
    let mut x = Rng::new();
    assert_eq!(x.0 % 2, 1);
    assert!(x.0 < 1_000_000_000);
    for n in 1..100 {
        assert!(x.next(n) < n);
        assert!(x.0 != 0);
    }
}

#[test]
fn the_command_line() {
    let args = |a: &[&str]| -> Vec<String> { a.iter().map(|s| s.to_string()).collect() };
    match command(&args(&["petri", "--analyze", "m.net"])) {
        Command::Analyze(Some(p)) => assert_eq!(p, "m.net"),
        _ => panic!(),
    }
    assert!(matches!(command(&args(&["petri", "--analyze"])), Command::Analyze(None)));
    match command(&args(&["petri", "m.net", "--analyze"])) {
        Command::Play(Some(p)) => assert_eq!(p, "m.net"),
        _ => panic!(),
    }
    assert!(matches!(command(&args(&["petri"])), Command::Play(None)));
    assert!(matches!(command(&args(&[])), Command::Play(None)));
    assert_eq!(headline("m.net", &net(DEMO)), "m.net: 5 places, 4 transitions");
}

#[test]
fn a_firing_that_disables_nothing_settles_no_conflict() {
    let mut app = session("a = 1\nread: a -> a x\nuse: a -> b");
    app.fire(0);
    app.fire(1);
    assert_eq!(log(&app), vec!["   1  read", "   2  use  \u{2039}conflict resolved\u{203a}"]);
}

use petri::analysis::{analyze, analyze_checked, Analysis};
use petri::cli::report_on;
use petri::demo::DEMO;
use petri::net::Net;
use petri::report::{analysis_report, analysis_text, exit_code, marking_str};
use petri::visited::Visited;

fn net(text: &str) -> Net {
    match Net::parse(text) {
        Ok(n) => n,
        Err(e) => panic!("{}", e),
    }
}

fn explore(n: &Net, cap: usize) -> Analysis {
    analyze(n, &n.initial_marking(), cap)
}

/// Dining philosophers, each taking the left fork first.
fn philosophers(k: usize) -> Net {
    let mut s = String::new();
    for i in 0..k {
        s += &format!("think{} = 1\nfork{} = 1\n", i, i);
        s += &format!("left{}: think{} fork{} -> held{}\n", i, i, i, i);
        s += &format!("right{}: held{} fork{} -> eat{}\n", i, i, (i + 1) % k, i);
        s += &format!("done{}: eat{} -> think{} fork{} fork{}\n", i, i, i, i, (i + 1) % k);
    }
    net(&s)
}

#[test]
fn the_demo_is_safe_and_free_of_deadlocks() {
    let n = net(DEMO);
    let a = explore(&n, 50_000);
    assert_eq!(a.states, 3);
    assert!(!a.truncated);
    assert_eq!(a.deadlock_count, 0);
    assert_eq!(a.max_tokens, vec![1, 1, 1, 1, 1]);
    assert_eq!(exit_code(&a), 0);
}

#[test]
fn philosophers_deadlock() {
    let n = philosophers(3);
    let a = explore(&n, 50_000);
    assert!(!a.truncated);
    assert_eq!(a.deadlock_count, 1);
    assert_eq!(a.deadlocks.len(), 1);
    assert_eq!(marking_str(&n, &a.deadlocks[0]), "held0 held1 held2");
    assert!(n.enabled_set(&a.deadlocks[0]).is_empty());
    assert_eq!(exit_code(&a), 2);
}

#[test]
fn an_unbounded_net_is_cut_short() {
    let n = net("grow: a -> a b\na = 1");
    let a = explore(&n, 10);
    assert_eq!(a.states, 10);
    assert!(a.truncated);
    assert_eq!(a.max_tokens, vec![1, 9]);
    assert_eq!(a.deadlock_count, 0);
}

#[test]
fn a_full_cap_counts_as_cut_short() {
    let n = net("a = 1\nt: a -> b\nu: b -> a");
    assert_eq!(explore(&n, 2).states, 2);
    assert!(explore(&n, 2).truncated);
    assert_eq!(explore(&n, 3).states, 2);
    assert!(!explore(&n, 3).truncated);
}

#[test]
fn the_first_marking_is_always_visited() {
    let n = net("a = 1\nt: a -> b");
    let a = explore(&n, 0);
    assert_eq!(a.states, 1);
    assert!(a.truncated);
    let dead = net("t: a -> b");
    let b = explore(&dead, 0);
    assert_eq!((b.states, b.truncated, b.deadlock_count), (1, false, 1));
}

#[test]
fn three_dead_markings_are_shown() {
    let n = net("s = 1\nt1: s -> a\nt2: s -> b\nt3: s -> c\nt4: s -> d");
    let a = explore(&n, 100);
    assert_eq!(a.deadlock_count, 4);
    let shown: Vec<String> = a.deadlocks.iter().map(|m| marking_str(&n, m)).collect();
    assert_eq!(shown, vec!["a", "b", "c"]);
    assert_ne!(a.deadlocks[0], a.deadlocks[1]);
}

#[test]
fn counts_of_a_two_process_net() {
    // Every token moves on its own: (2 + 1) * (3 + 1) markings.
    let n = net("a = 2\nc = 3\nt: a -> b\nu: c -> d");
    let a = explore(&n, 1000);
    assert_eq!(a.states, 12);
    assert_eq!(a.deadlock_count, 1);
    assert_eq!(a.deadlocks, vec![vec![0, 0, 2, 3]]);
    assert_eq!(a.max_tokens, vec![2, 3, 2, 3]);
}

#[test]
fn an_overflow_stops_the_exploration() {
    let n = net("a = 4294967295\nt: -> a");
    assert!(analyze_checked(&n, &n.initial_marking(), 100).is_none());
    assert!(analyze_checked(&n, &[4294967200], 10).is_some());
}

#[test]
fn many_markings_are_told_apart() {
    let n = net("a = 40\nb = 40\nt: a -> c\nu: b -> d");
    let a = explore(&n, 200_000);
    assert_eq!(a.states, 41 * 41);
    assert!(!a.truncated);
}

#[test]
fn a_set_keeps_each_marking_once() {
    let mut v = Visited::new();
    assert!(v.insert(vec![1, 2]));
    assert!(v.insert(vec![2, 1]));
    assert!(!v.insert(vec![1, 2]));
    assert!(v.insert(vec![]));
    assert_eq!(v.len(), 3);
    assert_eq!(v.get(1), vec![2, 1]);
}

#[test]
fn markings_as_text() {
    let n = net("lock = 1\nt: lock idle -> crit");
    assert_eq!(marking_str(&n, &[0, 0, 0]), "(empty)");
    assert_eq!(marking_str(&n, &[1, 0, 2]), "lock crit\u{d7}2");
    assert_eq!(marking_str(&n, &[0, 12, 0]), "idle\u{d7}12");
}

#[test]
fn the_text_tells_markings_apart() {
    let n = net("a = 1\nt: a b -> c11");
    let mut texts: Vec<String> = Vec::new();
    for i in 0..27u32 {
        texts.push(marking_str(&n, &[i % 3, i / 3 % 3, (i / 9) * 11]));
    }
    for i in 0..texts.len() {
        for j in 0..i {
            assert_ne!(texts[i], texts[j]);
        }
    }
}

#[test]
fn a_net_that_fills_the_cap_is_seen_whole() {
    let n = net("a = 2\nt: a -> b\nu: b b -> c");
    let whole = explore(&n, 100);
    assert_eq!((whole.states, whole.truncated), (4, false));
    assert_eq!(whole.deadlock_count, 1);
    let full = net("a = 2\nt: a -> b\nu: b b -> c\nv: c -> c");
    let a = explore(&full, 4);
    assert_eq!((a.states, a.truncated, a.deadlock_count), (4, true, 0));
    assert_eq!(a.max_tokens, vec![2, 2, 1]);
}

#[test]
fn the_nearest_deadlock_is_shown_first() {
    let n = net("s = 1\nlong: s -> a\non: a -> b\nend: b -> far\nshort: s -> c\nstop: c -> near");
    let a = explore(&n, 100);
    let shown: Vec<String> = a.deadlocks.iter().map(|m| marking_str(&n, m)).collect();
    assert_eq!(shown, vec!["near", "far"]);
    // The nearest one is found even where the exploration is cut short.
    let b = explore(&n, 5);
    assert!(b.truncated);
    assert_eq!(marking_str(&n, &b.deadlocks[0]), "near");
}

#[test]
fn report_of_a_safe_net() {
    let n = net("a = 1\nt: a -> b\nu: b -> a");
    let a = explore(&n, 100);
    let body = " Reachable markings: 2\n Bounded: yes (1-bounded \u{2014} safe)\n Deadlocks: none \u{2014} deadlock-free\n\n Place bounds (max tokens seen):\n   a                1\n   b                1\n";
    assert_eq!(analysis_report(&n, &a), body);
    assert_eq!(analysis_text(&n, &a), format!("{}\n (Esc/q to close)", body));
    assert_eq!(analysis_text(&n, &a).replace("\n (Esc/q to close)", ""), body);
}

#[test]
fn report_of_a_capped_net() {
    let n = net("a_place_with_a_long_name = 1\ngrow: a_place_with_a_long_name -> a_place_with_a_long_name b");
    let a = explore(&n, 3);
    assert_eq!(
        analysis_report(&n, &a),
        " Reachable markings: 3+ (truncated \u{2014} possibly unbounded)\n Bounded: unknown (exploration capped)\n Deadlocks: none found (within cap)\n\n Place bounds (max tokens seen):\n   a_place_with_a_long_name 1\n   b                2\n"
    );
}

#[test]
fn report_of_a_dead_end() {
    let n = net("a = 2\nt: a -> b");
    let a = explore(&n, 100);
    assert_eq!(
        analysis_report(&n, &a),
        " Reachable markings: 3\n Bounded: yes (2-bounded)\n Deadlocks: 1 dead marking(s) reachable!\n   dead: b\u{d7}2\n\n Place bounds (max tokens seen):\n   a                2\n   b                2\n"
    );
}

#[test]
fn the_command_line_reports_on_a_text() {
    let alive = "a = 1\nt: a -> b\nu: b -> a";
    let n = net(alive);
    let body = analysis_report(&n, &explore(&n, 100));
    assert_eq!(
        report_on("x/m.net", alive),
        Ok(Some((format!("x/m.net: 2 places, 2 transitions\n{}", body), 0)))
    );
    let dead = "a = 1\nt: a -> b";
    let m = net(dead);
    let body = analysis_report(&m, &explore(&m, 100));
    assert_eq!(
        report_on("d", dead),
        Ok(Some((format!("d: 2 places, 1 transitions\n{}", body), 2)))
    );
}

#[test]
fn the_command_line_reports_an_overflow_and_a_mistake() {
    assert_eq!(report_on("o", "a = 4294967295\nt: -> a"), Ok(None));
    assert_eq!(report_on("e", "a = x"), Err("line 1: bad token count 'x'".to_string()));
    assert_eq!(
        report_on("e", ""),
        Err("no transitions found (need lines like  name: a b -> c)".to_string())
    );
}

#[test]
fn the_command_line_caps_its_exploration() {
    match report_on("g", "a = 1\ngrow: a -> a b") {
        Ok(Some((out, code))) => {
            assert!(out.contains("Reachable markings: 200000+ (truncated"));
            assert_eq!(code, 0);
        }
        _ => panic!(),
    }
}

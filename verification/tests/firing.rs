use petri::net::Net;

fn net(text: &str) -> Net {
    match Net::parse(text) {
        Ok(n) => n,
        Err(e) => panic!("{}", e),
    }
}

#[test]
fn weights_count() {
    let n = net("a a -> b b b");
    assert!(!n.enabled(&[0, 0], 0));
    assert!(!n.enabled(&[1, 9], 0));
    assert!(n.enabled(&[2, 0], 0));
    assert_eq!(n.fire(&[5, 1], 0), vec![3, 4]);
}

#[test]
fn enabled_transitions_are_listed_in_order() {
    let n = net("t: a -> b\nu: b -> a\nv: a -> c\nw: -> c");
    assert_eq!(n.enabled_set(&[1, 0, 0]), vec![0, 2, 3]);
    assert_eq!(n.enabled_set(&[0, 1, 0]), vec![1, 3]);
    assert_eq!(n.enabled_set(&[0, 0, 0]), vec![3]);
}

#[test]
fn more_tokens_keep_a_transition_enabled() {
    let n = net("a a b -> c");
    assert!(n.enabled(&[2, 1, 0], 0));
    assert!(n.enabled(&[3, 4, 5], 0));
}

#[test]
fn a_self_loop_keeps_its_tokens() {
    let n = net("a -> a");
    assert_eq!(n.fire(&[1], 0), vec![1]);
    assert_eq!(n.fire(&[u32::MAX], 0), vec![u32::MAX]);
}

#[test]
fn an_overflow_is_noticed() {
    let n = net("a -> a b b");
    assert_eq!(n.fire_checked(&[1, u32::MAX - 2], 0), Some(vec![1, u32::MAX]));
    assert_eq!(n.fire_checked(&[1, u32::MAX - 1], 0), None);
}

#[test]
fn competing_transitions_are_in_conflict() {
    let n = net("e1: idle1 lock -> crit1\ne2: idle2 lock -> crit2");
    let m = [1, 1, 0, 1, 0];
    let en = n.enabled_set(&m);
    assert_eq!(en, vec![0, 1]);
    assert!(n.conflicts(&m, 0, &en));
    assert!(n.conflicts(&m, 1, &en));
    let two_locks = [1, 2, 0, 1, 0];
    assert!(!n.conflicts(&two_locks, 0, &n.enabled_set(&two_locks)));
}

#[test]
fn a_conflict_needs_two_enabled_transitions() {
    let n = net("a -> b\na b -> c");
    let m = [1, 0, 0];
    let en = n.enabled_set(&m);
    assert_eq!(en, vec![0]);
    assert!(!n.conflicts(&m, 0, &en));
    assert!(!n.conflicts(&m, 1, &en));
}

#[test]
fn a_token_that_comes_back_disables_nothing() {
    let n = net("read: a -> a x\nuse: a -> b");
    let m = [1, 0, 0];
    let en = n.enabled_set(&m);
    assert_eq!(en, vec![0, 1]);
    assert!(!n.conflicts(&m, 0, &en));
    assert!(n.conflicts(&m, 1, &en));
    let loops = net("x: a -> a\ny: a -> b");
    assert!(!loops.conflicts(&[1, 0], 0, &[0, 1]));
    assert!(loops.conflicts(&[1, 0], 1, &[0, 1]));
}

#[test]
fn part_of_the_tokens_comes_back() {
    let n = net("t: a a a -> a\no: a a -> b");
    assert!(n.conflicts(&[3, 0], 0, &[0, 1]));
    assert!(!n.conflicts(&[4, 0], 0, &[0, 1]));
    assert!(n.conflicts(&[4, 0], 1, &[0, 1]));
    assert!(!n.conflicts(&[5, 0], 1, &[0, 1]));
}

#[test]
fn a_full_place_is_no_conflict() {
    let n = net("t: a -> b b\no: b -> a");
    let m = [1, u32::MAX];
    assert_eq!(n.enabled_set(&m), vec![0, 1]);
    assert!(!n.conflicts(&m, 0, &[0, 1]));
    assert!(!n.conflicts(&m, 1, &[0, 1]));
}

#[test]
fn independent_firings_commute() {
    let n = net("t: a -> b\no: c -> b b");
    let m = [1, 0, 1];
    assert!(!n.conflicts(&m, 0, &n.enabled_set(&m)));
    assert_eq!(n.fire(&n.fire(&m, 0), 1), n.fire(&n.fire(&m, 1), 0));
}

#[test]
fn arcs_as_text() {
    let n = net("idle lock -> crit\n-> a\na a ->");
    assert_eq!(n.arcs_str(0), "idle lock \u{2192} crit");
    assert_eq!(n.arcs_str(1), "\u{2205} \u{2192} a");
    assert_eq!(n.arcs_str(2), "a a \u{2192} \u{2205}");
}

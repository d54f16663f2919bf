use petri::demo::DEMO;
use petri::net::Net;

fn net(text: &str) -> Net {
    match Net::parse(text) {
        Ok(n) => n,
        Err(e) => panic!("{}", e),
    }
}

fn error(text: &str) -> String {
    match Net::parse(text) {
        Ok(_) => panic!("a net"),
        Err(e) => e,
    }
}

/// A net written out: places with tokens, transitions with their arcs.
fn shown(n: &Net) -> String {
    let mut s = String::new();
    for p in &n.places {
        s += &format!("{}={} ", p.name, p.init);
    }
    for t in &n.trans {
        s += &format!("| {} {:?} {:?} ", t.name, t.ins, t.outs);
    }
    s
}

#[test]
fn places_and_transitions() {
    let n = net("lock = 1\nidle = 2\nenter: idle lock -> crit\nleave: crit -> idle lock\n");
    assert_eq!(
        shown(&n),
        "lock=1 idle=2 crit=0 | enter [1, 0] [2] | leave [2] [1, 0] "
    );
    assert_eq!(n.initial_marking(), vec![1, 2, 0]);
}

#[test]
fn a_repeated_place_has_weight() {
    let n = net("a a b a -> c c");
    assert_eq!(shown(&n), "a=0 b=0 c=0 | t1 [0, 0, 1, 0] [2, 2] ");
}

#[test]
fn unnamed_transitions_are_numbered() {
    let n = net("a -> b\nx: b -> a\n : a -> c\n: -> d");
    let names: Vec<&str> = n.trans.iter().map(|t| t.name.as_str()).collect();
    assert_eq!(names, vec!["t1", "x", "t3", "t4"]);
}

#[test]
fn one_side_may_be_empty() {
    let n = net("source: -> a\nsink: a ->");
    assert_eq!(shown(&n), "a=0 | source [] [0] | sink [0] [] ");
}

#[test]
fn names_keep_inner_colons_and_spaces() {
    let n = net("  go  to : a:b -> c");
    assert_eq!(n.trans[0].name, "go  to");
    assert_eq!(n.places[0].name, "a:b");
    assert_eq!(n.places[1].name, "c");
}

#[test]
fn a_second_arrow_is_a_place() {
    let n = net("a -> b -> c");
    let names: Vec<&str> = n.places.iter().map(|p| p.name.as_str()).collect();
    assert_eq!(names, vec!["a", "b", "->", "c"]);
}

#[test]
fn the_last_count_of_a_place_stands() {
    let n = net("a = 1\na -> b\na = 4\nb = +2");
    assert_eq!(n.initial_marking(), vec![4, 2]);
}

#[test]
fn indentation_and_comments_do_not_matter() {
    let plain = net("a = 1\nt: a -> b");
    let dressed = net("\t a = 1 # one\r\n\u{3000}t: a -> b# = 3 -> x\r\n");
    assert_eq!(shown(&plain), shown(&dressed));
}

#[test]
fn headings_and_prose_are_ignored() {
    let plain = net("a = 1\nt: a -> b");
    let wordy = net("Mutex\n\nPlaces:\n  two words = 5\n  a = 1\n= 7\nSome prose here.\n  t: a -> b\n");
    assert_eq!(shown(&plain), shown(&wordy));
}

#[test]
fn white_space_may_stand_around_a_line_and_its_comment() {
    let plain = net("a = 1 # x # y\nt: a -> b");
    let framed = net("\t a = 1 # x # y \t # z\n  t: a -> b \u{3000} # more #\n");
    assert_eq!(shown(&plain), shown(&framed));
}

#[test]
fn an_ignored_line_may_stand_first_and_last() {
    let plain = net("a = 1\nt: a -> b");
    assert_eq!(shown(&plain), shown(&net("heading\na = 1\nt: a -> b")));
    assert_eq!(shown(&plain), shown(&net("a = 1\nheading\nt: a -> b")));
    assert_eq!(shown(&plain), shown(&net("a = 1\nt: a -> b\nheading")));
    assert_eq!(error("a = x"), error("a = x\nheading"));
}

#[test]
fn every_name_holds_something() {
    let n = net("a b#c -> d\n : a -> b\nx#y: a -> b\nz : # \nz: a -> # b");
    let places: Vec<&str> = n.places.iter().map(|p| p.name.as_str()).collect();
    assert_eq!(places, vec!["a", "b"]);
    let names: Vec<&str> = n.trans.iter().map(|t| t.name.as_str()).collect();
    assert_eq!(names, vec!["t1", "z"]);
}

#[test]
fn a_bad_token_count_is_an_error() {
    assert_eq!(error("a -> b\nx = many # tokens"), "line 2: bad token count 'many'");
    assert_eq!(error("x ="), "line 1: bad token count ''");
    assert_eq!(error("\nx = 1 2"), "line 2: bad token count '1 2'");
    assert_eq!(error("x = -1"), "line 1: bad token count '-1'");
    assert_eq!(error("x = 4294967296"), "line 1: bad token count '4294967296'");
    assert_eq!(error("x == 1"), "line 1: bad token count '= 1'");
}

#[test]
fn a_transition_needs_a_place() {
    assert_eq!(error("a = 1\n\nt: -> "), "line 3: transition with no places");
    assert_eq!(error("->"), "line 1: transition with no places");
}

#[test]
fn a_net_needs_a_transition() {
    let none = "no transitions found (need lines like  name: a b -> c)";
    assert_eq!(error(""), none);
    assert_eq!(error("a = 1\nheading"), none);
    assert_eq!(error("# a -> b"), none);
}

#[test]
fn the_first_mistake_decides() {
    assert_eq!(error("a = x\n->\nb = y"), "line 1: bad token count 'x'");
    assert_eq!(error("->\na = x"), "line 1: transition with no places");
}

#[test]
fn the_largest_count_fits() {
    assert_eq!(net("a = 4294967295\na -> b").places[0].init, u32::MAX);
}

#[test]
fn the_demo_is_a_net() {
    let n = net(DEMO);
    assert_eq!(
        shown(&n),
        "lock=1 idle1=1 idle2=1 crit1=0 crit2=0 \
         | enter1 [1, 0] [3] | leave1 [3] [1, 0] | enter2 [2, 0] [4] | leave2 [4] [2, 0] "
    );
}

//! Laws of a session: what undoing restores, and where the keys can lead.
use crate::app;
use crate::app::{AppModel, Event, Focus, Key};
use crate::net;
use crate::parse;
use crate::reach;
use crate::text;
use vstd::prelude::*;

verus! {

/// Undoing right after a firing restores the marking and the step count, and
/// the earlier markings too unless the oldest had to go.
pub proof fn law_undo_reverts_firing(s: AppModel, t: int)
    requires
        s.valid(),
        s.steps >= 0,
        s.net.enabled(s.marking, t),
    ensures
        s.after_fire(t).after_key(Key::Undo).marking == s.marking,
        s.after_fire(t).after_key(Key::Undo).steps == s.steps,
        s.undo.len() < app::UNDO_STEPS ==> s.after_fire(t).after_key(Key::Undo).undo == s.undo,
{
    let u = s.undo_after_firing();
    assert(u.last() == s.marking);
    if s.undo.len() < app::UNDO_STEPS {
        assert(u.drop_last() =~= s.undo);
    }
}

/// The session after the transitions `ts` have been asked to fire in turn.
pub open spec fn after_fires(s: AppModel, ts: Seq<int>) -> AppModel
    decreases ts.len(),
{
    if ts.len() == 0 {
        s
    } else {
        after_fires(s, ts.drop_last()).after_fire(ts.last())
    }
}

/// Each of the transitions `ts` is enabled in its turn.
pub open spec fn all_enabled(s: AppModel, ts: Seq<int>) -> bool
    decreases ts.len(),
{
    ts.len() == 0 || (all_enabled(s, ts.drop_last()) && {
        let a = after_fires(s, ts.drop_last());
        a.net.enabled(a.marking, ts.last())
    })
}

/// The session after `n` undos.
pub open spec fn after_undos(s: AppModel, n: nat) -> AppModel
    decreases n,
{
    if n == 0 {
        s
    } else {
        after_undos(s.after_key(Key::Undo), (n - 1) as nat)
    }
}

/// What the session was, as far as undoing restores it.
pub open spec fn same_place(a: AppModel, b: AppModel) -> bool {
    a.net == b.net && a.marking == b.marking && a.undo == b.undo && a.steps == b.steps
}

/// Undos do the same to sessions that stand at the same place.
proof fn lemma_same_undos(a: AppModel, b: AppModel, n: nat)
    requires
        same_place(a, b),
    ensures
        same_place(after_undos(a, n), after_undos(b, n)),
    decreases n,
{
    if n > 0 {
        lemma_same_undos(a.after_key(Key::Undo), b.after_key(Key::Undo), (n - 1) as nat);
    }
}

/// As many undos as firings lead back to where the firings began, as long as
/// no more earlier markings are kept than firing allows.
pub proof fn law_undos_revert_firings(s: AppModel, ts: Seq<int>)
    requires
        s.steps >= 0,
        all_enabled(s, ts),
        s.undo.len() + ts.len() <= app::UNDO_STEPS,
    ensures
        same_place(after_undos(after_fires(s, ts), ts.len()), s),
        after_fires(s, ts).undo.len() == s.undo.len() + ts.len(),
        after_fires(s, ts).steps == s.steps + ts.len(),
    decreases ts.len(),
{
    if ts.len() > 0 {
        let a = after_fires(s, ts.drop_last());
        let b = a.after_fire(ts.last());
        law_undos_revert_firings(s, ts.drop_last());
        assert(b.undo.last() == a.marking);
        assert(b.undo.drop_last() =~= a.undo);
        assert(same_place(b.after_key(Key::Undo), a));
        lemma_same_undos(b.after_key(Key::Undo), a, (ts.len() - 1) as nat);
    }
}

/// Undoing right after adding or removing a token, or after a reset, restores
/// the marking and the earlier markings.
pub proof fn law_undo_reverts_edits(s: AppModel, key: Key)
    requires
        s.valid(),
        key is Reset || (s.focus == Focus::Places && (key is Plus || (key is Minus
            && s.marking[s.pidx] > 0))),
    ensures
        s.after_key(key).after_key(Key::Undo).marking == s.marking,
        s.after_key(key).after_key(Key::Undo).undo == s.undo,
{
    let u = s.undo.push(s.marking);
    assert(u.last() == s.marking);
    assert(u.drop_last() =~= s.undo);
}

/// Removing a token that was just added gives the marking back.
pub proof fn law_minus_reverts_plus(s: AppModel)
    requires
        s.valid(),
        s.focus == Focus::Places,
        s.accepts_key(Key::Plus),
    ensures
        s.after_key(Key::Plus).after_key(Key::Minus).marking == s.marking,
{
    assert(s.after_key(Key::Plus).after_key(Key::Minus).marking =~= s.marking);
}

/// A transition that is not enabled does not fire: only the message changes.
pub proof fn law_disabled_does_not_fire(s: AppModel, t: int)
    requires
        !s.net.enabled(s.marking, t),
    ensures
        s.after_fire(t) == (AppModel { msg: s.after_fire(t).msg, ..s }),
        s.after_fire(t).msg is Some,
{
}

/// Resetting gives the marking of the file, and starts counting anew.
pub proof fn law_reset_restores_initial(s: AppModel)
    ensures
        s.after_key(Key::Reset).marking == s.net.initial(),
        s.after_key(Key::Reset).steps == 0,
{
}

/// A session is deadlocked exactly if no transition is enabled.
pub proof fn law_deadlock_is_dead(s: AppModel)
    requires
        s.net.trans.len() <= usize::MAX,
    ensures
        s.deadlocked() <==> s.net.dead(s.marking),
{
    net::lemma_dead_iff_no_enabled(s.net, s.marking);
}

/// An automatic run fires a transition of the net that is enabled.
pub proof fn law_run_fires_enabled(s: AppModel)
    requires
        s.net.trans.len() <= usize::MAX,
        !s.deadlocked(),
    ensures
        0 <= s.choice() < s.net.trans.len(),
        s.net.enabled(s.marking, s.choice()),
        s.after_tick().marking == s.net.fired(s.marking, s.choice()),
        s.after_tick().steps == s.steps + 1,
{
    net::lemma_enabled_below(s.net, s.marking, s.net.trans.len());
    let ts = s.net.enabled_list(s.marking);
    lemma_list_fits(s.net, s.marking, s.net.trans.len());
    let x = crate::rng::xorshift(s.rng);
    let n = ts.len() as u64;
    assert(x % n < n) by (nonlinear_arith)
        requires
            n > 0,
    ;
}

/// There are no more enabled transitions than transitions.
proof fn lemma_list_fits(net: net::NetModel, m: Seq<u32>, k: nat)
    ensures
        net.enabled_below(m, k).len() <= k,
    decreases k,
{
    if k > 0 {
        lemma_list_fits(net, m, (k - 1) as nat);
    }
}

/// The marking and all earlier ones can be reached from the marking of the
/// file.
pub open spec fn on_a_path(s: AppModel) -> bool {
    &&& reach::reachable(s.net, s.net.initial(), s.marking)
    &&& forall|i: int|
        0 <= i < s.undo.len() ==> reach::reachable(
            s.net,
            s.net.initial(),
            #[trigger] s.undo[i],
        )
}

/// Firing keeps a session on a path of the net.
proof fn lemma_fire_on_path(s: AppModel, t: int)
    requires
        on_a_path(s),
        0 <= t < s.net.trans.len(),
        s.can_fire(t),
    ensures
        on_a_path(s.after_fire(t)),
{
    if s.net.enabled(s.marking, t) {
        let r = s.after_fire(t);
        assert(reach::steps_to(s.net, s.marking, r.marking));
        reach::law_reachable_closed(s.net, s.net.initial(), s.marking, r.marking);
        let u = s.undo.push(s.marking);
        assert forall|i: int| 0 <= i < r.undo.len() implies reach::reachable(
            s.net,
            s.net.initial(),
            #[trigger] r.undo[i],
        ) by {
            let j = if u.len() > app::UNDO_STEPS {
                i + 1
            } else {
                i
            };
            assert(r.undo[i] == u[j]);
            if j < s.undo.len() {
                assert(u[j] == s.undo[j]);
            }
        }
    }
}

/// A session begins at the marking of the file, and as long as no token is
/// added or removed by hand, its keys lead only to reachable markings.
pub proof fn law_keys_follow_paths(s: AppModel, key: Key)
    requires
        s.valid(),
        on_a_path(s),
        s.accepts_key(key),
        !(key is Plus),
        !(key is Minus),
    ensures
        on_a_path(s.after_key(key)),
{
    let r = s.after_key(key);
    reach::law_reachable_closed(s.net, s.net.initial(), s.marking, s.marking);
    match key {
        Key::Fire => {
            if s.focus == Focus::Trans {
                lemma_fire_on_path(s, s.tidx);
            }
        },
        Key::Undo => {
            if s.undo.len() > 0 {
                assert(s.undo.last() == s.undo[s.undo.len() - 1]);
                assert forall|i: int| 0 <= i < r.undo.len() implies reach::reachable(
                    s.net,
                    s.net.initial(),
                    #[trigger] r.undo[i],
                ) by {
                    assert(r.undo[i] == s.undo[i]);
                }
            }
        },
        Key::Reset => {
            let u = s.undo.push(s.marking);
            assert forall|i: int| 0 <= i < u.len() implies reach::reachable(
                s.net,
                s.net.initial(),
                #[trigger] u[i],
            ) by {
                if i < s.undo.len() {
                    assert(u[i] == s.undo[i]);
                }
            }
        },
        _ => {},
    }
}

/// An automatic run leads only to reachable markings.
pub proof fn law_run_follows_paths(s: AppModel, e: Event)
    requires
        s.valid(),
        s.net.trans.len() <= usize::MAX,
        on_a_path(s),
        s.accepts_event(e),
    ensures
        on_a_path(s.after_event(e)),
{
    if e is Tick && !s.deadlocked() {
        law_run_fires_enabled(s);
        let a = AppModel { rng: crate::rng::xorshift(s.rng), ..s };
        lemma_fire_on_path(a, s.choice());
    }
}

/// A new session stands at the marking of the file, with nothing to undo.
pub proof fn law_first_session_on_path(net: net::NetModel, file: Option<Seq<char>>, state: u64)
    ensures
        on_a_path(app::first_session(net, file, state)),
{
    reach::law_reachable_closed(net, net.initial(), net.initial(), net.initial());
}

/// Reading the file again leads to the marking of the new net, with nothing
/// to undo, or leaves the session where it was.
pub proof fn law_reload_on_path(s: AppModel, source: Result<Seq<char>, Seq<char>>)
    requires
        on_a_path(s),
    ensures
        on_a_path(s.after_reload(source)),
{
    let n = s.after_reload(source).net;
    reach::law_reachable_closed(n, n.initial(), n.initial(), n.initial());
}

/// The log never holds more than its limit, and its newest line is the one
/// that was added last.
pub proof fn law_log_bounded(s: AppModel, line: Seq<char>)
    ensures
        s.logged(line).log.len() <= app::LOG_LINES,
        s.logged(line).log.last() == line,
{
}

// ---------------------------------------------------------------------
// What each key does
// ---------------------------------------------------------------------

/// The keys, by name.
pub proof fn law_key_names()
    ensures
        app::key_meaning("q"@) == Key::Quit,
        app::key_meaning("TAB"@) == Key::Switch,
        app::key_meaning("j"@) == Key::Down,
        app::key_meaning("DOWN"@) == Key::Down,
        app::key_meaning("k"@) == Key::Up,
        app::key_meaning("UP"@) == Key::Up,
        app::key_meaning("ENTER"@) == Key::Fire,
        app::key_meaning("f"@) == Key::Fire,
        app::key_meaning(" "@) == Key::Run,
        app::key_meaning("+"@) == Key::Plus,
        app::key_meaning("="@) == Key::Plus,
        app::key_meaning("-"@) == Key::Minus,
        app::key_meaning("u"@) == Key::Undo,
        app::key_meaning("R"@) == Key::Reset,
        app::key_meaning("a"@) == Key::Analyze,
        app::key_meaning("e"@) == Key::Edit,
        app::key_meaning("?"@) == Key::Help,
        app::key_meaning("h"@) == Key::Help,
{
    reveal_strlit("q");
    reveal_strlit("TAB");
    reveal_strlit("j");
    reveal_strlit("DOWN");
    reveal_strlit("k");
    reveal_strlit("UP");
    reveal_strlit("ENTER");
    reveal_strlit("f");
    reveal_strlit(" ");
    reveal_strlit("+");
    reveal_strlit("=");
    reveal_strlit("-");
    reveal_strlit("u");
    reveal_strlit("R");
    reveal_strlit("a");
    reveal_strlit("e");
    reveal_strlit("?");
    reveal_strlit("h");
    assert("q"@.len() == 1 && "q"@[0] == 'q');
    assert("j"@.len() == 1 && "j"@[0] == 'j');
    assert("k"@.len() == 1 && "k"@[0] == 'k');
    assert("f"@.len() == 1 && "f"@[0] == 'f');
    assert(" "@.len() == 1 && " "@[0] == ' ');
    assert("+"@.len() == 1 && "+"@[0] == '+');
    assert("="@.len() == 1 && "="@[0] == '=');
    assert("-"@.len() == 1 && "-"@[0] == '-');
    assert("u"@.len() == 1 && "u"@[0] == 'u');
    assert("R"@.len() == 1 && "R"@[0] == 'R');
    assert("a"@.len() == 1 && "a"@[0] == 'a');
    assert("e"@.len() == 1 && "e"@[0] == 'e');
    assert("?"@.len() == 1 && "?"@[0] == '?');
    assert("h"@.len() == 1 && "h"@[0] == 'h');
    assert("TAB"@.len() == 3 && "DOWN"@.len() == 4 && "UP"@.len() == 2 && "ENTER"@.len() == 5);
}

/// No other key means anything.
pub proof fn law_other_keys(key: Seq<char>)
    requires
        !seq![
            "q"@,
            "TAB"@,
            "j"@,
            "DOWN"@,
            "k"@,
            "UP"@,
            "ENTER"@,
            "f"@,
            " "@,
            "+"@,
            "="@,
            "-"@,
            "u"@,
            "R"@,
            "a"@,
            "e"@,
            "?"@,
            "h"@,
        ].contains(key),
    ensures
        app::key_meaning(key) == Key::Other,
{
    let known = seq![
        "q"@,
        "TAB"@,
        "j"@,
        "DOWN"@,
        "k"@,
        "UP"@,
        "ENTER"@,
        "f"@,
        " "@,
        "+"@,
        "="@,
        "-"@,
        "u"@,
        "R"@,
        "a"@,
        "e"@,
        "?"@,
        "h"@,
    ];
    assert(known[0] != key && known[1] != key && known[2] != key && known[3] != key);
    assert(known[4] != key && known[5] != key && known[6] != key && known[7] != key);
    assert(known[8] != key && known[9] != key && known[10] != key && known[11] != key);
    assert(known[12] != key && known[13] != key && known[14] != key && known[15] != key);
    assert(known[16] != key && known[17] != key);
}

/// A transition that is asked to fire, and is not enabled, leaves everything
/// as it was but for a message with its name.
pub proof fn law_refused_firing(s: AppModel, t: int)
    requires
        !s.net.enabled(s.marking, t),
    ensures
        s.after_fire(t) == (AppModel {
            msg: Some(" "@ + s.net.trans[t].name + " is not enabled"@),
            ..s
        }),
{
}

/// A transition that fires moves its own tokens: each place loses one for each
/// time that it occurs among the inputs of the transition, and gains one for
/// each time that it occurs among the outputs. The marking before is kept for
/// undoing, the steps are counted, the line in the log has the number of the
/// step and the name of the transition, and says whether another one is
/// disabled now; the rest stays as it was.
pub proof fn law_firing(s: AppModel, t: usize)
    requires
        s.valid(),
        s.steps >= 0,
        t < s.net.trans.len() <= usize::MAX,
        s.net.places.len() <= usize::MAX,
        s.net.enabled(s.marking, t as int),
        s.net.has_room(s.marking, t as int),
    ensures
        ({
            let r = s.after_fire(t as int);
            let name = s.net.trans[t as int].name;
            let settled = exists|o: int|
                0 <= o < s.net.trans.len() && o != t && #[trigger] s.net.enabled(s.marking, o)
                    && !s.net.enabled(r.marking, o);
            &&& r.marking.len() == s.marking.len()
            &&& forall|p: usize|
                p < s.marking.len() ==> #[trigger] r.marking[p as int] == s.marking[p as int]
                    - s.net.trans[t as int].ins.to_multiset().count(p)
                    + s.net.trans[t as int].outs.to_multiset().count(p)
            &&& r.steps == s.steps + 1
            &&& r.undo.len() > 0 && r.undo.last() == s.marking
            &&& r.undo.drop_last() == (if s.undo.len() < 500 {
                s.undo
            } else {
                s.undo.drop_first()
            })
            &&& r.log.len() > 0 && r.log.last() == text::padded_left(
                text::decimal((s.steps + 1) as nat),
                4,
            ) + "  "@ + name + (if settled {
                "  \u{2039}conflict resolved\u{203a}"@
            } else {
                Seq::empty()
            })
            &&& r.log.drop_last() == (if s.log.len() < 200 {
                s.log
            } else {
                s.log.drop_first()
            })
            &&& r == (AppModel {
                marking: r.marking,
                steps: r.steps,
                undo: r.undo,
                log: r.log,
                ..s
            })
        }),
{
    let r = s.after_fire(t as int);
    crate::firing::law_firing_moves_tokens(s.net, s.marking, t as int);
    crate::firing::law_conflict_is_disabling(s.net, s.marking, t);
    let u = s.undo.push(s.marking);
    assert(r.undo.drop_last() =~= if s.undo.len() < 500 {
        s.undo
    } else {
        s.undo.drop_first()
    });
    assert(r.log.drop_last() =~= if s.log.len() < 200 {
        s.log
    } else {
        s.log.drop_first()
    });
}

/// The Fire key concerns the selected transition, and only in the transitions
/// pane.
pub proof fn law_fire_key(s: AppModel)
    ensures
        s.focus == Focus::Trans ==> s.after_key(Key::Fire) == s.after_fire(s.tidx),
        s.focus == Focus::Places ==> s.after_key(Key::Fire) == s,
{
}

/// The Fire key on a selected transition that is not enabled changes neither
/// the marking nor the history, the step count or the log; only a message
/// appears, which names that transition.
pub proof fn law_fire_key_refuses(s: AppModel)
    requires
        s.focus == Focus::Trans,
        !s.net.enabled(s.marking, s.tidx),
    ensures
        s.after_key(Key::Fire).marking == s.marking,
        s.after_key(Key::Fire).undo == s.undo,
        s.after_key(Key::Fire).steps == s.steps,
        s.after_key(Key::Fire).log == s.log,
        s.after_key(Key::Fire) == (AppModel {
            msg: Some(" "@ + s.net.trans[s.tidx].name + " is not enabled"@),
            ..s
        }),
{
}

/// The Fire key on a selected transition that is enabled takes from each place
/// as many tokens as the place occurs among the inputs of that transition, and
/// puts there as many as it occurs among the outputs.
pub proof fn law_fire_key_fires(s: AppModel)
    requires
        s.focus == Focus::Trans,
        s.marking.len() <= usize::MAX,
        s.net.enabled(s.marking, s.tidx),
        s.net.has_room(s.marking, s.tidx),
    ensures
        s.after_key(Key::Fire).marking.len() == s.marking.len(),
        forall|p: usize|
            p < s.marking.len() ==> #[trigger] s.after_key(Key::Fire).marking[p as int]
                == s.marking[p as int] - s.net.trans[s.tidx].ins.to_multiset().count(p)
                + s.net.trans[s.tidx].outs.to_multiset().count(p),
        s.after_key(Key::Fire).steps == s.steps + 1,
        s.after_key(Key::Fire).undo.last() == s.marking,
{
    crate::firing::law_firing_moves_tokens(s.net, s.marking, s.tidx);
}

/// The Switch key moves the focus to the other pane, and changes nothing else;
/// pressed twice it does nothing.
pub proof fn law_switch_key(s: AppModel)
    ensures
        s.after_key(Key::Switch).focus != s.focus,
        s.after_key(Key::Switch) == (AppModel { focus: s.after_key(Key::Switch).focus, ..s }),
        s.after_key(Key::Switch).after_key(Key::Switch) == s,
{
}

/// The Down key selects the next item of the pane that has the focus, unless
/// the last is selected; nothing else changes.
pub proof fn law_down_key(s: AppModel)
    requires
        s.valid(),
    ensures
        s.focus == Focus::Places && s.pidx < s.net.places.len() - 1 ==> s.after_key(Key::Down)
            == (AppModel { pidx: s.pidx + 1, ..s }),
        s.focus == Focus::Places && s.pidx == s.net.places.len() - 1 ==> s.after_key(Key::Down)
            == s,
        s.focus == Focus::Trans && s.tidx < s.net.trans.len() - 1 ==> s.after_key(Key::Down) == (
        AppModel { tidx: s.tidx + 1, ..s }),
        s.focus == Focus::Trans && s.tidx == s.net.trans.len() - 1 ==> s.after_key(Key::Down) == s,
{
}

/// The Up key selects the item before in the pane that has the focus, unless
/// the first is selected; nothing else changes.
pub proof fn law_up_key(s: AppModel)
    requires
        s.valid(),
    ensures
        s.focus == Focus::Places && s.pidx > 0 ==> s.after_key(Key::Up) == (AppModel {
            pidx: s.pidx - 1,
            ..s
        }),
        s.focus == Focus::Places && s.pidx == 0 ==> s.after_key(Key::Up) == s,
        s.focus == Focus::Trans && s.tidx > 0 ==> s.after_key(Key::Up) == (AppModel {
            tidx: s.tidx - 1,
            ..s
        }),
        s.focus == Focus::Trans && s.tidx == 0 ==> s.after_key(Key::Up) == s,
{
}

/// The Up key takes back what the Down key did, unless the last item was
/// selected.
pub proof fn law_up_reverts_down(s: AppModel)
    requires
        s.valid(),
        s.focus == Focus::Places ==> s.pidx < s.net.places.len() - 1,
        s.focus == Focus::Trans ==> s.tidx < s.net.trans.len() - 1,
    ensures
        s.after_key(Key::Down).after_key(Key::Up) == s,
{
}

/// The Plus and Minus keys put a token on the selected place or take one off,
/// in the places pane only; no other place changes, and the marking before is
/// kept for undoing.
pub proof fn law_token_keys(s: AppModel)
    requires
        s.valid(),
    ensures
        s.focus == Focus::Places && s.marking[s.pidx] < u32::MAX ==> {
            let r = s.after_key(Key::Plus);
            &&& r.marking.len() == s.marking.len()
            &&& r.marking[s.pidx] == s.marking[s.pidx] + 1
            &&& forall|p: int|
                0 <= p < s.marking.len() && p != s.pidx ==> #[trigger] r.marking[p] == s.marking[p]
            &&& r == (AppModel { marking: r.marking, undo: s.undo.push(s.marking), ..s })
        },
        s.focus == Focus::Places && s.marking[s.pidx] > 0 ==> {
            let r = s.after_key(Key::Minus);
            &&& r.marking.len() == s.marking.len()
            &&& r.marking[s.pidx] == s.marking[s.pidx] - 1
            &&& forall|p: int|
                0 <= p < s.marking.len() && p != s.pidx ==> #[trigger] r.marking[p] == s.marking[p]
            &&& r == (AppModel { marking: r.marking, undo: s.undo.push(s.marking), ..s })
        },
        s.focus == Focus::Places && s.marking[s.pidx] == 0 ==> s.after_key(Key::Minus) == s,
        s.focus == Focus::Trans ==> s.after_key(Key::Plus) == s,
        s.focus == Focus::Trans ==> s.after_key(Key::Minus) == s,
{
}

/// The Undo key goes back to the marking that was kept last, counts one step
/// less, and says so in the log; where nothing is kept, it only gives a
/// message.
pub proof fn law_undo_key(s: AppModel, earlier: Seq<Seq<u32>>, m: Seq<u32>)
    requires
        s.valid(),
        s.steps >= 0,
    ensures
        s.undo == earlier.push(m) ==> {
            let r = s.after_key(Key::Undo);
            &&& r.marking == m
            &&& r.undo == earlier
            &&& s.steps > 0 ==> r.steps == s.steps - 1
            &&& s.steps == 0 ==> r.steps == 0
            &&& r.log.len() > 0 && r.log.last() == "undo"@
            &&& r.log.drop_last() == (if s.log.len() < 200 {
                s.log
            } else {
                s.log.drop_first()
            })
            &&& r == (AppModel {
                marking: m,
                undo: earlier,
                steps: r.steps,
                log: r.log,
                ..s
            })
        },
        s.undo.len() == 0 ==> s.after_key(Key::Undo) == (AppModel {
            msg: Some(" nothing to undo"@),
            ..s
        }),
{
    if s.undo == earlier.push(m) {
        let r = s.after_key(Key::Undo);
        assert(s.undo.drop_last() =~= earlier);
        assert(r.log.drop_last() =~= if s.log.len() < 200 {
            s.log
        } else {
            s.log.drop_first()
        });
    }
}

/// The Reset key gives each place the tokens of the file, counts from zero,
/// keeps the marking before for undoing, and says so in the log.
pub proof fn law_reset_key(s: AppModel)
    requires
        s.valid(),
    ensures
        ({
            let r = s.after_key(Key::Reset);
            &&& r.marking.len() == s.net.places.len()
            &&& forall|p: int|
                0 <= p < s.net.places.len() ==> #[trigger] r.marking[p] == s.net.places[p].init
            &&& r.log.len() > 0 && r.log.last() == "reset to initial marking"@
            &&& r.log.drop_last() == (if s.log.len() < 200 {
                s.log
            } else {
                s.log.drop_first()
            })
            &&& r == (AppModel {
                marking: r.marking,
                undo: s.undo.push(s.marking),
                steps: 0,
                log: r.log,
                ..s
            })
        }),
{
    let r = s.after_key(Key::Reset);
    assert(r.log.drop_last() =~= if s.log.len() < 200 {
        s.log
    } else {
        s.log.drop_first()
    });
}

/// The other keys leave the session alone, but that the Run key marks it as
/// running, and that the Edit key gives a message where there is no file.
pub proof fn law_quiet_keys(s: AppModel)
    ensures
        s.after_key(Key::Quit) == s,
        s.after_key(Key::Analyze) == s,
        s.after_key(Key::Help) == s,
        s.after_key(Key::Other) == s,
        s.after_key(Key::Run) == (AppModel { running: true, ..s }),
        s.file is Some ==> s.after_key(Key::Edit) == s,
        s.file is None ==> s.after_key(Key::Edit) == (AppModel {
            msg: Some(" no file to edit (started with builtin demo)"@),
            ..s
        }),
{
}

/// What is left to do after a key: the program ends only on the Quit key, and
/// the Edit key asks for an editor only where there is a file.
pub proof fn law_actions(s: AppModel, key: Key)
    ensures
        s.action(key) is Quit <==> key is Quit,
        s.action(key) is Run <==> key is Run,
        s.action(key) is Analyze <==> key is Analyze,
        s.action(key) is Help <==> key is Help,
        s.action(key) is Edit <==> key is Edit && s.file is Some,
{
}

/// A key is refused only where a count would overflow: tokens that a firing
/// or the Plus key adds, or the steps.
pub proof fn law_refused_keys(s: AppModel, key: Key)
    ensures
        !s.accepts_key(key) <==> {
            ||| key is Fire && s.focus == Focus::Trans && s.net.enabled(s.marking, s.tidx) && (
            !s.net.has_room(s.marking, s.tidx) || s.steps >= u64::MAX)
            ||| key is Plus && s.focus == Focus::Places && s.marking[s.pidx] >= u32::MAX
        },
        forall|t: int| #[trigger]
            s.can_fire(t) <==> !(s.net.enabled(s.marking, t) && (!s.net.has_room(s.marking, t)
                || s.steps >= u64::MAX)),
{
}

// ---------------------------------------------------------------------
// The automatic run
// ---------------------------------------------------------------------

/// A tick fires the enabled transition whose number among all enabled ones is
/// the next state of the generator, modulo how many they are; in a deadlock it
/// ends the run.
pub proof fn law_tick(s: AppModel)
    requires
        s.net.trans.len() <= usize::MAX,
    ensures
        s.net.dead(s.marking) ==> s.event_ends_run(Event::Tick) && s.after_event(Event::Tick) == (
        AppModel { running: false, ..s }),
        !s.net.dead(s.marking) ==> {
            let ts = s.net.enabled_list(s.marking);
            let x = crate::rng::xorshift(s.rng);
            &&& !s.event_ends_run(Event::Tick)
            &&& ts.len() > 0
            &&& s.after_event(Event::Tick) == (AppModel { rng: x, ..s }).after_fire(
                ts[x as int % ts.len() as int] as int,
            )
            &&& s.accepts_event(Event::Tick) <==> s.can_fire(
                ts[x as int % ts.len() as int] as int,
            )
        },
{
    law_deadlock_is_dead(s);
    if !s.net.dead(s.marking) {
        lemma_list_fits(s.net, s.marking, s.net.trans.len());
    }
}

/// A key ends the run, and changes nothing else; what is neither a tick nor a
/// key changes nothing.
pub proof fn law_other_events(s: AppModel)
    ensures
        s.event_ends_run(Event::KeyPress),
        s.after_event(Event::KeyPress) == (AppModel { running: false, ..s }),
        !s.event_ends_run(Event::Other),
        s.after_event(Event::Other) == s,
        s.accepts_event(Event::KeyPress),
        s.accepts_event(Event::Other),
{
}

/// An automatic run can choose every enabled transition: some state of the
/// generator other than zero makes the next tick fire it.
pub proof fn law_run_can_choose(s: AppModel, t: usize) -> (state: u64)
    requires
        s.net.trans.len() <= usize::MAX,
        t < s.net.trans.len(),
        s.net.enabled(s.marking, t as int),
    ensures
        state != 0,
        (AppModel { rng: state, ..s }).after_event(Event::Tick).marking == s.net.fired(
            s.marking,
            t as int,
        ),
        (AppModel { rng: state, ..s }).after_event(Event::Tick) == (AppModel {
            rng: crate::rng::xorshift(state),
            ..s
        }).after_fire(t as int),
{
    crate::firing::law_enabled_list(s.net, s.marking);
    lemma_list_fits(s.net, s.marking, s.net.trans.len());
    let ts = s.net.enabled_list(s.marking);
    assert(ts.contains(t));
    let i = choose|i: int| 0 <= i < ts.len() && ts[i] == t;
    let n = ts.len() as int;
    let y: u64 = if i == 0 {
        n as u64
    } else {
        i as u64
    };
    assert(y as int % n == i) by {
        if i == 0 {
            vstd::arithmetic::div_mod::lemma_mod_self_0(n);
        } else {
            vstd::arithmetic::div_mod::lemma_small_mod(i as nat, n as nat);
        }
    }
    let x = crate::rng::law_xorshift_onto(y);
    let a = AppModel { rng: x, ..s };
    law_tick(a);
    assert(!s.net.dead(s.marking));
    x
}

// ---------------------------------------------------------------------
// The file
// ---------------------------------------------------------------------

/// Reading the file again takes over the net that its text denotes, at its
/// initial marking, with nothing to undo and the first items selected; focus,
/// file and generator stay, and the log says what happened. Where the text
/// denotes no net, or there is none, only a message appears, with the reason.
pub proof fn law_reload(s: AppModel, source: Result<Seq<char>, Seq<char>>)
    requires
        s.valid(),
    ensures
        (source matches Ok(t) && parse::parsed(t) is Ok) ==> {
            let r = s.after_reload(source);
            &&& parse::parsed(source->Ok_0) == Ok::<net::NetModel, Seq<char>>(r.net)
            &&& r.marking.len() == r.net.places.len()
            &&& forall|p: int|
                0 <= p < r.net.places.len() ==> #[trigger] r.marking[p] == r.net.places[p].init
            &&& r.undo.len() == 0
            &&& r.log.len() > 0 && r.log.last() == "net reloaded"@
            &&& r.log.drop_last() == (if s.log.len() < 200 {
                s.log
            } else {
                s.log.drop_first()
            })
            &&& r == (AppModel {
                net: r.net,
                marking: r.marking,
                undo: r.undo,
                log: r.log,
                steps: 0,
                pidx: 0,
                tidx: 0,
                ..s
            })
        },
        (source matches Ok(t) && parse::parsed(t) is Err) ==> s.after_reload(source) == (AppModel {
            msg: Some(" reload failed: "@ + parse::parsed(source->Ok_0)->Err_0),
            ..s
        }),
        source matches Err(e) ==> s.after_reload(source) == (AppModel {
            msg: Some(" reload failed: "@ + e),
            ..s
        }),
{
    let r = s.after_reload(source);
    if source is Ok && parse::parsed(source->Ok_0) is Ok {
        assert(r.log.drop_last() =~= if s.log.len() < 200 {
            s.log
        } else {
            s.log.drop_first()
        });
    }
}

/// A session begins with the tokens of the net's definitions, at step zero,
/// with nothing logged and nothing to undo, the first items selected, the
/// focus on the transitions.
pub proof fn law_first_session(net: net::NetModel, file: Option<Seq<char>>, state: u64)
    ensures
        ({
            let r = app::first_session(net, file, state);
            &&& r.net == net && r.file == file && r.rng == state
            &&& r.marking.len() == net.places.len()
            &&& forall|p: int|
                0 <= p < net.places.len() ==> #[trigger] r.marking[p] == net.places[p].init
            &&& r.undo.len() == 0 && r.log.len() == 0 && r.steps == 0
            &&& r.pidx == 0 && r.tidx == 0 && r.focus == Focus::Trans
            &&& !r.running && r.msg is None
        }),
{
}

/// What a session must fulfil, and no more.
pub proof fn law_valid_sessions(s: AppModel)
    ensures
        s.valid() <==> {
            &&& s.net.well_formed()
            &&& s.marking.len() == s.net.places.len()
            &&& forall|i: int|
                0 <= i < s.undo.len() ==> (#[trigger] s.undo[i]).len() == s.net.places.len()
            &&& 0 <= s.pidx < s.net.places.len()
            &&& 0 <= s.tidx < s.net.trans.len()
            &&& s.log.len() <= 200
        },
{
}

/// A line that is logged comes last; the others move up, and beyond 200 the
/// oldest goes.
pub proof fn law_log(s: AppModel, line: Seq<char>)
    requires
        s.log.len() <= 200,
    ensures
        s.logged(line) == (AppModel { log: s.logged(line).log, ..s }),
        s.log.len() < 200 ==> s.logged(line).log == s.log.push(line),
        s.log.len() == 200 ==> s.logged(line).log == s.log.drop_first().push(line),
{
    assert(s.log.len() == 200 ==> s.logged(line).log =~= s.log.drop_first().push(line));
}

/// A session analyzes at most 50000 markings, keeps 200 lines of log, and 500
/// markings that firings leave behind.
pub proof fn law_limits()
    ensures
        app::SESSION_CAP == 50_000,
        app::LOG_LINES == 200,
        app::UNDO_STEPS == 500,
{
}

/// The model of a session has the values of its fields.
pub proof fn law_session_model(a: app::App)
    ensures
        a@.net == a.net@,
        a@.marking == a.marking@,
        a@.undo.len() == a.undo@.len(),
        forall|i: int| 0 <= i < a.undo@.len() ==> #[trigger] a@.undo[i] == a.undo@[i]@,
        a@.focus == a.focus,
        a@.pidx == a.pidx,
        a@.tidx == a.tidx,
        a@.running == a.running,
        a@.steps == a.steps,
        a@.log.len() == a.log@.len(),
        forall|i: int| 0 <= i < a.log@.len() ==> #[trigger] a@.log[i] == a.log@[i]@,
        a.file is Some <==> a@.file is Some,
        a.file is Some ==> a@.file->0 == a.file->0@,
        a@.rng == a.rng.0,
        a.msg is Some <==> a@.msg is Some,
        a.msg is Some ==> a@.msg->0 == a.msg->0@,
{
}

} // verus!

//! A session with a net: the marking, its history, the selection, the log,
//! and what each key does to them.
use crate::analysis;
use crate::analysis::analyze_checked;
use crate::net::{Net, NetModel};
use crate::parse;
use crate::report;
use crate::report::analysis_text;
use crate::rng;
use crate::rng::Rng;
use crate::text;
use crate::text::{push_decimal, push_padded_left, same_text};
use std::collections::VecDeque;
use vstd::prelude::*;
use vstd::slice::slice_to_vec;

verus! {

/// The pane that the keys act on.
#[derive(PartialEq, Eq, Clone, Copy, Structural)]
pub enum Focus {
    Places,
    Trans,
}

/// A session.
pub struct App {
    pub net: Net,
    pub marking: Vec<u32>,
    /// Earlier markings, the latest last.
    pub undo: Vec<Vec<u32>>,
    pub focus: Focus,
    /// The selected place.
    pub pidx: usize,
    /// The selected transition.
    pub tidx: usize,
    /// Whether an automatic run is going on.
    pub running: bool,
    /// How many firings led here.
    pub steps: u64,
    pub log: VecDeque<String>,
    /// The file that the net came from.
    pub file: Option<String>,
    pub rng: Rng,
    /// What the status line says next.
    pub msg: Option<String>,
}

/// What is left to do once a key has been handled.
pub enum Action {
    /// Leave the program.
    Quit,
    /// Draw the session.
    Draw,
    /// Run the net on its own until a key is pressed.
    Run,
    /// Show the analysis.
    Analyze,
    /// Edit the file, then reload it.
    Edit,
    /// Show the help.
    Help,
}

/// What an automatic run waits for.
pub enum Event {
    /// The time for one firing has passed.
    Tick,
    /// A key was pressed.
    KeyPress,
    /// Anything else.
    Other,
}

/// What the keys mean.
pub enum Key {
    Quit,
    Switch,
    Down,
    Up,
    Fire,
    Run,
    Plus,
    Minus,
    Undo,
    Reset,
    Analyze,
    Edit,
    Help,
    Other,
}

/// The log keeps this many lines.
pub const LOG_LINES: usize = 200;

/// Firing keeps this many earlier markings.
pub const UNDO_STEPS: usize = 500;

/// The cap of the analysis that a session shows.
pub const SESSION_CAP: usize = 50_000;

// ---------------------------------------------------------------------
// The mathematical model
// ---------------------------------------------------------------------

/// A session, mathematically.
#[verifier::ext_equal]
pub struct AppModel {
    pub net: NetModel,
    pub marking: Seq<u32>,
    pub undo: Seq<Seq<u32>>,
    pub focus: Focus,
    pub pidx: int,
    pub tidx: int,
    pub running: bool,
    pub steps: int,
    pub log: Seq<Seq<char>>,
    pub file: Option<Seq<char>>,
    pub rng: u64,
    pub msg: Option<Seq<char>>,
}

/// The view of an optional string.
pub open spec fn option_view(s: Option<String>) -> Option<Seq<char>> {
    match s {
        Some(x) => Some(x@),
        None => None,
    }
}

impl View for App {
    type V = AppModel;

    open spec fn view(&self) -> AppModel {
        AppModel {
            net: self.net@,
            marking: self.marking@,
            undo: analysis::marking_views(self.undo@),
            focus: self.focus,
            pidx: self.pidx as int,
            tidx: self.tidx as int,
            running: self.running,
            steps: self.steps as int,
            log: text::views(self.log@),
            file: option_view(self.file),
            rng: self.rng.0,
            msg: option_view(self.msg),
        }
    }
}

/// The last `n` items of `s`, or all where there are fewer.
pub open spec fn last_items<T>(s: Seq<T>, n: nat) -> Seq<T> {
    if s.len() <= n {
        s
    } else {
        s.skip(s.len() - n)
    }
}

/// The meaning of a key.
pub open spec fn key_meaning(key: Seq<char>) -> Key {
    if key == "q"@ {
        Key::Quit
    } else if key == "TAB"@ {
        Key::Switch
    } else if key == "j"@ || key == "DOWN"@ {
        Key::Down
    } else if key == "k"@ || key == "UP"@ {
        Key::Up
    } else if key == "ENTER"@ || key == "f"@ {
        Key::Fire
    } else if key == " "@ {
        Key::Run
    } else if key == "+"@ || key == "="@ {
        Key::Plus
    } else if key == "-"@ {
        Key::Minus
    } else if key == "u"@ {
        Key::Undo
    } else if key == "R"@ {
        Key::Reset
    } else if key == "a"@ {
        Key::Analyze
    } else if key == "e"@ {
        Key::Edit
    } else if key == "?"@ || key == "h"@ {
        Key::Help
    } else {
        Key::Other
    }
}

/// The log line of a firing: its number, the transition, and whether it
/// settled a conflict.
pub open spec fn firing_line(step: nat, name: Seq<char>, conflict: bool) -> Seq<char> {
    text::padded_left(text::decimal(step), 4) + "  "@ + name + (if conflict {
        "  \u{2039}conflict resolved\u{203a}"@
    } else {
        Seq::empty()
    })
}

impl AppModel {
    /// What holds of every session: the net is in order, the marking and the
    /// earlier ones count tokens for each of its places, the selections point
    /// into it, and the log does not outgrow its limit.
    pub open spec fn valid(self) -> bool {
        &&& self.net.well_formed()
        &&& self.marking.len() == self.net.places.len()
        &&& forall|i: int|
            0 <= i < self.undo.len() ==> (#[trigger] self.undo[i]).len()
                == self.net.places.len()
        &&& 0 <= self.pidx < self.net.places.len()
        &&& 0 <= self.tidx < self.net.trans.len()
        &&& self.log.len() <= LOG_LINES
    }

    /// The session with one more line in its log; the oldest lines go.
    pub open spec fn logged(self, line: Seq<char>) -> AppModel {
        AppModel { log: last_items(self.log.push(line), LOG_LINES as nat), ..self }
    }

    /// The earlier markings once a firing has added the present one.
    pub open spec fn undo_after_firing(self) -> Seq<Seq<u32>> {
        let u = self.undo.push(self.marking);
        if u.len() > UNDO_STEPS {
            u.drop_first()
        } else {
            u
        }
    }

    /// The session once `t` was asked to fire.
    pub open spec fn after_fire(self, t: int) -> AppModel {
        let name = self.net.trans[t].name;
        if !self.net.enabled(self.marking, t) {
            AppModel { msg: Some(" "@ + name + " is not enabled"@), ..self }
        } else {
            let conflict = self.net.in_conflict(
                self.marking,
                t as usize,
                self.net.enabled_list(self.marking),
            );
            AppModel {
                undo: self.undo_after_firing(),
                marking: self.net.fired(self.marking, t),
                steps: self.steps + 1,
                ..self
            }.logged(firing_line((self.steps + 1) as nat, name, conflict))
        }
    }

    /// `t` can be asked to fire: if it is enabled, no count overflows.
    pub open spec fn can_fire(self, t: int) -> bool {
        self.net.enabled(self.marking, t) ==> self.net.has_room(self.marking, t) && self.steps
            < u64::MAX
    }

    /// No transition is enabled: the run has ended.
    pub open spec fn deadlocked(self) -> bool {
        self.net.enabled_list(self.marking).len() == 0
    }

    /// The transition that an automatic run fires next.
    pub open spec fn choice(self) -> int {
        let ts = self.net.enabled_list(self.marking);
        ts[(rng::xorshift(self.rng) % (ts.len() as u64)) as int] as int
    }

    /// The session once an automatic run has made a firing.
    pub open spec fn after_tick(self) -> AppModel {
        AppModel { rng: rng::xorshift(self.rng), ..self }.after_fire(self.choice())
    }

    /// An event can be taken up: a firing that it causes overflows no count.
    pub open spec fn accepts_event(self, e: Event) -> bool {
        e is Tick && !self.deadlocked() ==> self.can_fire(self.choice())
    }

    /// An event ends the automatic run: a key, or a tick in a deadlock.
    pub open spec fn event_ends_run(self, e: Event) -> bool {
        e is KeyPress || (e is Tick && self.deadlocked())
    }

    /// The session after an event of an automatic run.
    pub open spec fn after_event(self, e: Event) -> AppModel {
        if self.event_ends_run(e) {
            AppModel { running: false, ..self }
        } else if e is Tick {
            self.after_tick()
        } else {
            self
        }
    }

    /// A key can be handled without a count overflowing.
    pub open spec fn accepts_key(self, key: Key) -> bool {
        match key {
            Key::Fire => self.focus == Focus::Trans ==> self.can_fire(self.tidx),
            Key::Plus => self.focus == Focus::Places ==> self.marking[self.pidx] < u32::MAX,
            _ => true,
        }
    }

    /// The session with `n` tokens on the selected place, the present marking
    /// kept for undoing.
    pub open spec fn with_tokens(self, n: int) -> AppModel {
        AppModel {
            undo: self.undo.push(self.marking),
            marking: self.marking.update(self.pidx, n as u32),
            ..self
        }
    }

    /// The session after a key.
    pub open spec fn after_key(self, key: Key) -> AppModel {
        match key {
            Key::Switch => AppModel {
                focus: if self.focus == Focus::Places {
                    Focus::Trans
                } else {
                    Focus::Places
                },
                ..self
            },
            Key::Down => if self.focus == Focus::Places {
                AppModel {
                    pidx: if self.pidx + 1 < self.net.places.len() {
                        self.pidx + 1
                    } else {
                        self.net.places.len() - 1
                    },
                    ..self
                }
            } else {
                AppModel {
                    tidx: if self.tidx + 1 < self.net.trans.len() {
                        self.tidx + 1
                    } else {
                        self.net.trans.len() - 1
                    },
                    ..self
                }
            },
            Key::Up => if self.focus == Focus::Places {
                AppModel {
                    pidx: if self.pidx > 0 {
                        self.pidx - 1
                    } else {
                        0
                    },
                    ..self
                }
            } else {
                AppModel {
                    tidx: if self.tidx > 0 {
                        self.tidx - 1
                    } else {
                        0
                    },
                    ..self
                }
            },
            Key::Fire => if self.focus == Focus::Trans {
                self.after_fire(self.tidx)
            } else {
                self
            },
            Key::Run => AppModel { running: true, ..self },
            Key::Plus => if self.focus == Focus::Places {
                self.with_tokens(self.marking[self.pidx] + 1)
            } else {
                self
            },
            Key::Minus => if self.focus == Focus::Places && self.marking[self.pidx] > 0 {
                self.with_tokens(self.marking[self.pidx] - 1)
            } else {
                self
            },
            Key::Undo => if self.undo.len() > 0 {
                AppModel {
                    undo: self.undo.drop_last(),
                    marking: self.undo.last(),
                    steps: if self.steps > 0 {
                        self.steps - 1
                    } else {
                        0
                    },
                    ..self
                }.logged("undo"@)
            } else {
                AppModel { msg: Some(" nothing to undo"@), ..self }
            },
            Key::Reset => AppModel {
                undo: self.undo.push(self.marking),
                marking: self.net.initial(),
                steps: 0,
                ..self
            }.logged("reset to initial marking"@),
            Key::Edit => if self.file is None {
                AppModel {
                    msg: Some(" no file to edit (started with builtin demo)"@),
                    ..self
                }
            } else {
                self
            },
            _ => self,
        }
    }

    /// What is left to do after a key.
    pub open spec fn action(self, key: Key) -> Action {
        match key {
            Key::Quit => Action::Quit,
            Key::Run => Action::Run,
            Key::Analyze => Action::Analyze,
            Key::Edit => if self.file is None {
                Action::Draw
            } else {
                Action::Edit
            },
            Key::Help => Action::Help,
            _ => Action::Draw,
        }
    }

    /// The session once its file has been read again: with the new net, or
    /// with a message.
    pub open spec fn after_reload(self, source: Result<Seq<char>, Seq<char>>) -> AppModel {
        let r = match source {
            Ok(t) => parse::parsed(t),
            Err(e) => Err(e),
        };
        match r {
            Ok(net) => AppModel {
                net,
                marking: net.initial(),
                undo: Seq::empty(),
                steps: 0,
                pidx: 0,
                tidx: 0,
                ..self
            }.logged("net reloaded"@),
            Err(e) => AppModel { msg: Some(" reload failed: "@ + e), ..self },
        }
    }
}

/// A session as it begins.
pub open spec fn first_session(net: NetModel, file: Option<Seq<char>>, state: u64) -> AppModel {
    AppModel {
        net,
        marking: net.initial(),
        undo: Seq::empty(),
        focus: Focus::Trans,
        pidx: 0,
        tidx: 0,
        running: false,
        steps: 0,
        log: Seq::empty(),
        file,
        rng: state,
        msg: None,
    }
}

// ---------------------------------------------------------------------
// Facts about sessions
// ---------------------------------------------------------------------

/// A well-formed net has a place.
pub proof fn lemma_has_place(net: NetModel)
    requires
        net.well_formed(),
    ensures
        net.places.len() > 0,
{
    let t = net.trans[0];
    if t.ins.len() > 0 {
        assert(t.ins[0] < net.places.len());
    } else {
        assert(t.outs[0] < net.places.len());
    }
}

// ---------------------------------------------------------------------
// The executable session
// ---------------------------------------------------------------------

/// Reads a key.
pub fn key_of(key: &str) -> (k: Key)
    ensures
        k == key_meaning(key@),
{
    if same_text(key, "q") {
        Key::Quit
    } else if same_text(key, "TAB") {
        Key::Switch
    } else if same_text(key, "j") || same_text(key, "DOWN") {
        Key::Down
    } else if same_text(key, "k") || same_text(key, "UP") {
        Key::Up
    } else if same_text(key, "ENTER") || same_text(key, "f") {
        Key::Fire
    } else if same_text(key, " ") {
        Key::Run
    } else if same_text(key, "+") || same_text(key, "=") {
        Key::Plus
    } else if same_text(key, "-") {
        Key::Minus
    } else if same_text(key, "u") {
        Key::Undo
    } else if same_text(key, "R") {
        Key::Reset
    } else if same_text(key, "a") {
        Key::Analyze
    } else if same_text(key, "e") {
        Key::Edit
    } else if same_text(key, "?") || same_text(key, "h") {
        Key::Help
    } else {
        Key::Other
    }
}

fn string_from(s: &str) -> (r: String)
    ensures
        r@ == s@,
{
    let mut r = String::new();
    r.append(s);
    assert(r@ =~= s@);
    r
}

impl App {
    /// A session with the given generator.
    pub fn with_rng(net: Net, file: Option<String>, rng: Rng) -> (app: App)
        requires
            net@.well_formed(),
        ensures
            app@ == first_session(net@, option_view(file), rng.0),
            app@.valid(),
    {
        let marking = net.initial_marking();
        let app = App {
            net,
            marking,
            undo: Vec::new(),
            focus: Focus::Trans,
            pidx: 0,
            tidx: 0,
            running: false,
            steps: 0,
            log: VecDeque::new(),
            file,
            rng,
            msg: None,
        };
        proof {
            lemma_has_place(net@);
            assert(app@ =~= first_session(net@, option_view(file), rng.0));
        }
        app
    }

    /// A session with a net, its generator seeded from the clock.
    pub fn new(net: Net, file: Option<String>) -> (app: App)
        requires
            net@.well_formed(),
        ensures
            exists|nanos: Option<u32>|
                app@ == first_session(net@, option_view(file), #[trigger] rng::seed(nanos)) && (
                nanos is Some ==> nanos->0 < 1_000_000_000),
            app@.valid(),
    {
        App::with_rng(net, file, Rng::new())
    }

    /// Adds a line to the log; the oldest lines go.
    pub fn push_log(&mut self, s: String)
        ensures
            final(self)@ == old(self)@.logged(s@),
    {
        let ghost want = text::views(self.log@).push(s@);
        self.log.push_back(s);
        assert(text::views(self.log@) =~= want);
        assert(want.skip(0) =~= want);
        while self.log.len() > LOG_LINES
            invariant
                self.log@.len() <= want.len(),
                self.log@.len() >= LOG_LINES || self.log@.len() == want.len(),
                text::views(self.log@) =~= want.skip(want.len() - self.log@.len()),
                self@ == (AppModel { log: text::views(self.log@), ..old(self)@ }),
            decreases self.log@.len(),
        {
            let ghost before = text::views(self.log@);
            let ghost k = want.len() - self.log@.len();
            self.log.pop_front();
            assert(text::views(self.log@) =~= before.skip(1));
            assert(want.skip(k).skip(1) =~= want.skip(k + 1));
        }
        assert(text::views(self.log@) =~= last_items(want, LOG_LINES as nat));
    }

    /// Fires transition `t`, or says that it is not enabled.
    pub fn fire(&mut self, t: usize)
        requires
            old(self)@.valid(),
            t < old(self)@.net.trans.len(),
            old(self)@.can_fire(t as int),
        ensures
            final(self)@ == old(self)@.after_fire(t as int),
            final(self)@.valid(),
    {
        let ghost s = self@;
        assert(s.net.trans[t as int].name == self.net.trans@[t as int].name@);
        if !self.net.enabled(self.marking.as_slice(), t) {
            let mut m = String::new();
            m.append(" ");
            m.append(self.net.trans[t].name.as_str());
            m.append(" is not enabled");
            assert(m@ =~= " "@ + s.net.trans[t as int].name + " is not enabled"@);
            self.msg = Some(m);
            assert(self@ =~= s.after_fire(t as int));
            return;
        }
        let en = self.net.enabled_set(self.marking.as_slice());
        proof {
            assert(s.net.trans.len() == self.net.trans.len());
            crate::net::lemma_enabled_below(s.net, s.marking, s.net.trans.len());
        }
        let conflicted = self.net.conflicts(self.marking.as_slice(), t, en.as_slice());
        self.undo.push(slice_to_vec(self.marking.as_slice()));
        assert(analysis::marking_views(self.undo@) =~= s.undo.push(s.marking));
        if self.undo.len() > UNDO_STEPS {
            self.undo.remove(0);
        }
        assert(analysis::marking_views(self.undo@) =~= s.undo_after_firing());
        self.marking = self.net.fire(self.marking.as_slice(), t);
        self.steps = self.steps + 1;
        let mut number = String::new();
        push_decimal(&mut number, self.steps);
        assert(number@ =~= text::decimal(self.steps as nat));
        let mut line = String::new();
        push_padded_left(&mut line, number.as_str(), 4);
        line.append("  ");
        line.append(self.net.trans[t].name.as_str());
        if conflicted {
            line.append("  \u{2039}conflict resolved\u{203a}");
        }
        assert(line@ =~= firing_line(
            (s.steps + 1) as nat,
            s.net.trans[t as int].name,
            conflicted,
        ));
        self.push_log(line);
        assert(self@ =~= s.after_fire(t as int));
    }

    /// Whether `t` can be asked to fire without a count overflowing.
    pub fn may_fire(&self, t: usize) -> (r: bool)
        requires
            self@.valid(),
            t < self@.net.trans.len(),
        ensures
            r == self@.can_fire(t as int),
    {
        if !self.net.enabled(self.marking.as_slice(), t) {
            return true;
        }
        self.steps < u64::MAX && self.net.fire_checked(self.marking.as_slice(), t).is_some()
    }

    /// Whether a key can be handled without a count overflowing.
    pub fn accepts(&self, key: &str) -> (r: bool)
        requires
            self@.valid(),
        ensures
            r == self@.accepts_key(key_meaning(key@)),
    {
        match key_of(key) {
            Key::Fire => match self.focus {
                Focus::Trans => self.may_fire(self.tidx),
                Focus::Places => true,
            },
            Key::Plus => match self.focus {
                Focus::Places => self.marking[self.pidx] < u32::MAX,
                Focus::Trans => true,
            },
            _ => true,
        }
    }

    /// Keeps the present marking for undoing.
    fn remember(&mut self)
        ensures
            final(self)@ == (AppModel {
                undo: old(self)@.undo.push(old(self)@.marking),
                ..old(self)@
            }),
            final(self).marking@ == old(self).marking@,
    {
        let ghost s = self@;
        self.undo.push(slice_to_vec(self.marking.as_slice()));
        assert(analysis::marking_views(self.undo@) =~= s.undo.push(s.marking));
    }

    /// Puts `n` tokens on the selected place.
    fn set_tokens(&mut self, n: u32)
        requires
            old(self)@.valid(),
        ensures
            final(self)@ == old(self)@.with_tokens(n as int),
            final(self)@.valid(),
    {
        let ghost s = self@;
        self.remember();
        self.marking.set(self.pidx, n);
        assert(self@ =~= s.with_tokens(n as int));
    }

    /// Handles a key, and says what is left to do.
    pub fn handle(&mut self, key: &str) -> (r: Action)
        requires
            old(self)@.valid(),
            old(self)@.accepts_key(key_meaning(key@)),
        ensures
            final(self)@ == old(self)@.after_key(key_meaning(key@)),
            r == old(self)@.action(key_meaning(key@)),
            final(self)@.valid(),
    {
        let ghost s = self@;
        match key_of(key) {
            Key::Quit => {
                return Action::Quit;
            },
            Key::Switch => {
                self.focus = match self.focus {
                    Focus::Places => Focus::Trans,
                    Focus::Trans => Focus::Places,
                };
            },
            Key::Down => match self.focus {
                Focus::Places => {
                    if self.pidx < self.net.places.len() - 1 {
                        self.pidx = self.pidx + 1;
                    }
                },
                Focus::Trans => {
                    if self.tidx < self.net.trans.len() - 1 {
                        self.tidx = self.tidx + 1;
                    }
                },
            },
            Key::Up => match self.focus {
                Focus::Places => {
                    if self.pidx > 0 {
                        self.pidx = self.pidx - 1;
                    }
                },
                Focus::Trans => {
                    if self.tidx > 0 {
                        self.tidx = self.tidx - 1;
                    }
                },
            },
            Key::Fire => match self.focus {
                Focus::Trans => {
                    self.fire(self.tidx);
                },
                Focus::Places => {},
            },
            Key::Run => {
                self.running = true;
                return Action::Run;
            },
            Key::Plus => match self.focus {
                Focus::Places => {
                    self.set_tokens(self.marking[self.pidx] + 1);
                },
                Focus::Trans => {},
            },
            Key::Minus => match self.focus {
                Focus::Places => {
                    if self.marking[self.pidx] > 0 {
                        self.set_tokens(self.marking[self.pidx] - 1);
                    }
                },
                Focus::Trans => {},
            },
            Key::Undo => match self.undo.pop() {
                Some(m) => {
                    self.marking = m;
                    self.steps = if self.steps > 0 {
                        self.steps - 1
                    } else {
                        0
                    };
                    assert(analysis::marking_views(self.undo@) =~= s.undo.drop_last());
                    assert(self@.marking == s.undo.last());
                    self.push_log(string_from("undo"));
                },
                None => {
                    self.msg = Some(string_from(" nothing to undo"));
                },
            },
            Key::Reset => {
                self.remember();
                self.marking = self.net.initial_marking();
                self.steps = 0;
                self.push_log(string_from("reset to initial marking"));
            },
            Key::Analyze => {
                return Action::Analyze;
            },
            Key::Edit => {
                if self.file.is_some() {
                    return Action::Edit;
                }
                self.msg = Some(string_from(" no file to edit (started with builtin demo)"));
            },
            Key::Help => {
                return Action::Help;
            },
            Key::Other => {},
        }
        assert(self@ =~= s.after_key(key_meaning(key@)));
        Action::Draw
    }

    /// The transition that an automatic run fires next, and the generator
    /// once it has chosen.
    fn choose_next(&self) -> (r: Option<(usize, Rng)>)
        requires
            self@.valid(),
        ensures
            match r {
                None => self@.deadlocked(),
                Some((t, g)) => !self@.deadlocked() && t == self@.choice() && t
                    < self@.net.trans.len() && g.0 == rng::xorshift(self@.rng),
            },
    {
        let en = self.net.enabled_set(self.marking.as_slice());
        if en.len() == 0 {
            return None;
        }
        proof {
            assert(self@.net.trans.len() == self.net.trans.len());
            crate::net::lemma_enabled_below(
                self@.net,
                self@.marking,
                self@.net.trans.len(),
            );
        }
        let mut rng = Rng(self.rng.0);
        let i = rng.next(en.len());
        Some((en[i], rng))
    }

    /// Whether an event of an automatic run can be taken up without a count
    /// overflowing.
    pub fn accepts_run_event(&self, e: &Event) -> (r: bool)
        requires
            self@.valid(),
        ensures
            r == self@.accepts_event(*e),
    {
        match e {
            Event::Tick => match self.choose_next() {
                None => true,
                Some((t, _)) => self.may_fire(t),
            },
            _ => true,
        }
    }

    /// Takes up an event of an automatic run, and says whether the run goes
    /// on: each tick fires a random enabled transition, until a key is
    /// pressed or the net deadlocks.
    pub fn run_event(&mut self, e: Event) -> (r: bool)
        requires
            old(self)@.valid(),
            old(self)@.accepts_event(e),
        ensures
            final(self)@ == old(self)@.after_event(e),
            r == !old(self)@.event_ends_run(e),
            final(self)@.valid(),
    {
        match e {
            Event::KeyPress => {
                self.running = false;
                false
            },
            Event::Other => true,
            Event::Tick => match self.choose_next() {
                None => {
                    self.running = false;
                    false
                },
                Some((t, rng)) => {
                    self.rng = rng;
                    self.fire(t);
                    true
                },
            },
        }
    }

    /// The analysis of the present marking as text, or nothing where a firing
    /// would make a place overflow.
    pub fn analyze_popup(&self) -> (r: Option<String>)
        requires
            self@.valid(),
        ensures
            r is Some <==> analysis::countable(
                self@.net,
                analysis::explored(self@.net, self@.marking, SESSION_CAP as nat).seen,
            ),
            r is Some ==> exists|a: analysis::Analysis| #[trigger]
                a.reports(self@.net, self@.marking, SESSION_CAP as nat) && r->0@
                    == report::report_text(self@.net, a) + "\n (Esc/q to close)"@,
    {
        match analyze_checked(&self.net, self.marking.as_slice(), SESSION_CAP) {
            None => None,
            Some(a) => {
                Some(analysis_text(&self.net, &a))
            },
        }
    }

    /// Takes over the net from its file, given the text or the reason why it
    /// could not be read.
    pub fn reload(&mut self, source: Result<String, String>)
        requires
            old(self)@.valid(),
        ensures
            final(self)@ == old(self)@.after_reload(
                match source {
                    Ok(t) => Ok(t@),
                    Err(e) => Err(e@),
                },
            ),
            final(self)@.valid(),
    {
        let r: Result<Net, String> = match source {
            Ok(t) => Net::parse(t.as_str()),
            Err(e) => Err(e),
        };
        match r {
            Ok(net) => {
                proof {
                    lemma_has_place(net@);
                }
                self.net = net;
                self.marking = self.net.initial_marking();
                self.undo.clear();
                self.steps = 0;
                self.pidx = 0;
                self.tidx = 0;
                assert(analysis::marking_views(self.undo@) =~= Seq::<Seq<u32>>::empty());
                self.push_log(string_from("net reloaded"));
            },
            Err(e) => {
                let mut m = String::new();
                m.append(" reload failed: ");
                m.append(e.as_str());
                assert(m@ =~= " reload failed: "@ + e@);
                self.msg = Some(m);
            },
        }
    }
}

} // verus!

//! The command line.
use crate::analysis;
use crate::analysis::{analyze_checked, Analysis};
use crate::app;
use crate::net::{Net, NetModel};
use crate::parse;
use crate::reach;
use crate::report;
use crate::report::{analysis_report, exit_code};
use crate::text;
use crate::text::{push_decimal, same_text};
use vstd::prelude::*;

verus! {

/// The cap of the analysis on the command line.
pub const REPORT_CAP: usize = 200_000;

/// What the program was asked to do.
pub enum Command {
    /// Print the analysis of a file; none was given where the path is missing.
    Analyze(Option<String>),
    /// Play the net of a file, or the built-in one.
    Play(Option<String>),
}

/// The argument at position `i`, if there is one.
pub open spec fn argument(args: Seq<String>, i: int) -> Option<Seq<char>> {
    if 0 <= i < args.len() {
        Some(args[i]@)
    } else {
        None
    }
}

fn get(args: &Vec<String>, i: usize) -> (r: Option<String>)
    ensures
        app::option_view(r) == argument(args@, i as int),
{
    if i < args.len() {
        Some(args[i].clone())
    } else {
        None
    }
}

/// Reads the command line; `args[0]` is the program.
pub fn command(args: &Vec<String>) -> (r: Command)
    ensures
        argument(args@, 1) == Some("--analyze"@) ==> (r matches Command::Analyze(p)
            && app::option_view(p) == argument(args@, 2)),
        argument(args@, 1) != Some("--analyze"@) ==> (r matches Command::Play(p)
            && app::option_view(p) == argument(args@, 1)),
{
    if args.len() > 1 && same_text(args[1].as_str(), "--analyze") {
        Command::Analyze(get(args, 2))
    } else {
        Command::Play(get(args, 1))
    }
}

/// The first line of a printed analysis.
pub open spec fn headline_of(path: Seq<char>, net: NetModel) -> Seq<char> {
    path + ": "@ + text::decimal(net.places.len()) + " places, "@ + text::decimal(net.trans.len())
        + " transitions"@
}

/// The first line of a printed analysis.
pub fn headline(path: &str, net: &Net) -> (r: String)
    ensures
        r@ == headline_of(path@, net@),
{
    let mut r = String::new();
    r.append(path);
    r.append(": ");
    push_decimal(&mut r, net.places.len() as u64);
    r.append(" places, ");
    push_decimal(&mut r, net.trans.len() as u64);
    r.append(" transitions");
    assert(r@ =~= headline_of(path@, net@));
    r
}

// ---------------------------------------------------------------------
// The printed analysis
// ---------------------------------------------------------------------

/// No place overflows in the exploration that the command line makes.
pub open spec fn explorable(net: NetModel) -> bool {
    analysis::countable(
        net,
        analysis::explored(net, net.initial(), REPORT_CAP as nat).seen,
    )
}

/// `out` and `code` are what the command line prints and returns for the net
/// of the file `path`: the first line and the report on the exploration from
/// the initial marking, and the exit code that goes with it.
pub open spec fn reported(path: Seq<char>, net: NetModel, out: Seq<char>, code: i32) -> bool {
    exists|a: Analysis|
        {
            &&& #[trigger] a.reports(net, net.initial(), REPORT_CAP as nat)
            &&& out == headline_of(path, net) + "\n"@ + report::report_text(net, a)
            &&& code == report::exit_code_of(a)
        }
}

/// Analyzes the net that `text` denotes, read from the file `path`: what to
/// print and the exit code, nothing where a place overflows, or the message
/// that says why the text is no net.
pub fn report_on(path: &str, text: &str) -> (r: Result<Option<(String, i32)>, String>)
    ensures
        match r {
            Err(e) => parse::parsed(text@) == Err::<NetModel, Seq<char>>(e@),
            Ok(None) => parse::parsed(text@) matches Ok(net) && !explorable(net),
            Ok(Some((out, code))) => parse::parsed(text@) matches Ok(net) && explorable(net)
                && reported(path@, net, out@, code),
        },
{
    let net = match Net::parse(text) {
        Ok(net) => net,
        Err(e) => {
            return Err(e);
        },
    };
    let m0 = net.initial_marking();
    let a = match analyze_checked(&net, m0.as_slice(), REPORT_CAP) {
        Some(a) => a,
        None => {
            return Ok(None);
        },
    };
    let mut out = headline(path, &net);
    out.append("\n");
    out.append(analysis_report(&net, &a).as_str());
    let code: i32 = exit_code(&a);
    proof {
        assert(a.reports(net@, net@.initial(), REPORT_CAP as nat));
        assert(out@ =~= headline_of(path@, net@) + "\n"@ + report::report_text(net@, a));
    }
    Ok(Some((out, code)))
}

/// The exit code tells of deadlocks: it is 2 only if a dead marking can be
/// reached, and exactly then where the reachable markings fit the cap.
pub proof fn law_exit_code(path: Seq<char>, net: Net, out: Seq<char>, code: i32)
    requires
        net@.arcs_valid(),
        explorable(net@),
        reported(path, net@, out, code),
    ensures
        code == 0 || code == 2,
        code == 2 ==> exists|m: Seq<u32>| #[trigger]
            reach::reachable(net@, net@.initial(), m) && net@.dead(m),
        ({
            let all = reach::reachable_set(net@, net@.initial());
            all.finite() && all.len() <= REPORT_CAP ==> (code == 2 <==> exists|m: Seq<u32>|
                #[trigger]
                reach::reachable(net@, net@.initial(), m) && net@.dead(m))
        }),
{
    let m0 = net@.initial();
    let cap = REPORT_CAP as nat;
    let a = choose|a: Analysis|
        {
            &&& #[trigger] a.reports(net@, m0, cap)
            &&& out == headline_of(path, net@) + "\n"@ + report::report_text(net@, a)
            &&& code == report::exit_code_of(a)
        };
    assert(reach::sound(net, m0, cap, a));
    reach::law_deadlocks_real(net, m0, cap, a);
    let all = reach::reachable_set(net@, m0);
    if all.finite() && all.len() <= REPORT_CAP {
        assert(reach::exhaustive(net, m0, cap, a));
        reach::law_deadlock_count(net, m0, cap, a);
    }
}

/// What the command line prints is a line with the path and the sizes of the
/// net, and then the report on an exploration of at most 200000 markings from
/// the initial one; the exit code is 2 exactly if this came upon a dead
/// marking, and otherwise 0.
pub proof fn law_printed_report(path: Seq<char>, net: NetModel, out: Seq<char>, code: i32) -> (a:
    Analysis)
    requires
        reported(path, net, out, code),
    ensures
        a.reports(net, net.initial(), 200_000),
        out == path + ": "@ + text::decimal(net.places.len()) + " places, "@ + text::decimal(
            net.trans.len(),
        ) + " transitions"@ + "\n"@ + report::report_text(net, a),
        a.deadlock_count > 0 ==> code == 2,
        a.deadlock_count == 0 ==> code == 0,
{
    choose|a: Analysis|
        {
            &&& #[trigger] a.reports(net, net.initial(), REPORT_CAP as nat)
            &&& out == headline_of(path, net) + "\n"@ + report::report_text(net, a)
            &&& code == report::exit_code_of(a)
        }
}

/// The exit code tells of near deadlocks, even where the exploration was cut
/// short: if `n` firings lead from the initial marking to a dead one, and no
/// more than 200000 markings can be reached within `n` firings, it is 2.
pub proof fn law_exit_code_on_near_deadlock(
    path: Seq<char>,
    net: Net,
    out: Seq<char>,
    code: i32,
    m: Seq<u32>,
    n: nat,
)
    requires
        net@.arcs_valid(),
        explorable(net@),
        reported(path, net@, out, code),
        reach::reachable_in(net@, net@.initial(), m, n),
        net@.dead(m),
        Set::new(|x: Seq<u32>| reach::reachable_within(net@, net@.initial(), x, n)).finite(),
        Set::new(|x: Seq<u32>| reach::reachable_within(net@, net@.initial(), x, n)).len()
            <= 200_000,
    ensures
        code == 2,
{
    let a = law_printed_report(path, net@, out, code);
    reach::law_near_deadlock_found(net, net@.initial(), 200_000, a, m, n);
}

/// The headline has the path and the sizes of the net.
pub proof fn law_headline(path: Seq<char>, net: NetModel)
    ensures
        headline_of(path, net) == path + ": "@ + text::decimal(net.places.len()) + " places, "@
            + text::decimal(net.trans.len()) + " transitions"@,
{
}

/// The command line gives up only where the exploration of at most 200000
/// markings comes upon one that makes a place overflow.
pub proof fn law_explorable(net: NetModel)
    ensures
        ({
            let ms = analysis::explored(net, net.initial(), 200_000).seen;
            explorable(net) <==> !(exists|i: int, t: int|
                0 <= i < ms.len() && 0 <= t < net.trans.len() && #[trigger] net.enabled(ms[i], t)
                    && !net.has_room(ms[i], t))
        }),
{
}

/// The arguments are counted from zero, and those behind the last are missing.
pub proof fn law_arguments(args: Seq<String>, i: int)
    ensures
        0 <= i < args.len() ==> argument(args, i) == Some(args[i]@),
        i >= args.len() ==> argument(args, i) is None,
{
}

} // verus!

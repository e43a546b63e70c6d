//! Checked execution: running an entry function under the machine.
//!
//! A run is a function of the program, the budget, the standard input and
//! the answers of the host. Where an answer is missing the run stops with
//! the question.

use vstd::prelude::*;
use vstd::string::*;
use vstd::utf8::*;

use crate::ast::{Body, BodyKind};
use crate::diag::{NotYet, NotYetView, Span};
use crate::evaluate::{call_body, entered, eval_block, eval_stmts};
use crate::literal::extend;
use crate::machine::{Gave, Host, HostView, Machine, NO_STEPS, State, name_views};
use crate::package::{Package, SourceFile};
use crate::runbase::{find_any_fn, find_module_fn, module_fn_at, opt_body};
use crate::semantics::{CALL_DEPTH, Here, World, any_fn, is_module_fn, module_fn};
use crate::shadow::{DynRegion, Shadow, ShadowView};
use crate::strs::text_of;
use crate::text::{at_position, chars_of, lit, stands_at, str_eq};
use crate::value::{
    Reply, ReplyView, Request, RequestView, Stop, StopView, Value, ValueView, bytes_of, reply_views,
    vals, value_result,
};
use crate::verdict::{Budget, OutcomeView, RunOutcome, Verdict, VerdictView};

verus! {

pub const NO_MAIN: &'static str = "checked execution without a `main` entry";

pub const NO_ENTRY: &'static str = "checked execution without the requested entry fn";

pub const ENTRY_PARAMS: &'static str = "a test entry with parameters (only zero-parameter tests run)";

/// Why a run has no outcome: a construct outside the executable surface or
/// an exhausted budget, or a question the host has to answer first.
pub enum Halt {
    Refuse(NotYet),
    Ask(Request),
}

pub enum HaltView {
    Refuse(NotYetView),
    Ask(RequestView),
}

impl View for Halt {
    type V = HaltView;

    open spec fn view(&self) -> HaltView {
        match *self {
            Halt::Refuse(n) => HaltView::Refuse(n@),
            Halt::Ask(q) => HaltView::Ask(q@),
        }
    }
}

pub open spec fn run_result(r: Result<RunOutcome, Halt>) -> Result<OutcomeView, HaltView> {
    match r {
        Ok(o) => Ok(o@),
        Err(h) => Err(h@),
    }
}

// -------------------------------------------------------------- the start --

/// The state a run begins in: one region, the caller's, that is never
/// freed.
pub open spec fn started<'t>(pkg: &'t Package, budget: Budget, stdin: Seq<u8>) -> State<'t> {
    State {
        sh: ShadowView {
            allocs: Seq::empty(),
            regions: seq![
                DynRegion {
                    live: true,
                    frozen: false,
                    backing: None,
                    span: pkg.files@[0].root,
                },
            ],
            mem_used: 0,
            mem_limit: budget.mem_bytes,
        },
        lists: Seq::empty(),
        pools: Seq::empty(),
        cells: Seq::empty(),
        frames: Seq::empty(),
        ambient: seq![0usize],
        guards: Seq::empty(),
        stdout: Seq::empty(),
        stderr: Seq::empty(),
        host: HostView {
            stdin,
            stdin_pos: 0,
            files: Seq::empty(),
            socks: Seq::empty(),
            deadlines: Seq::empty(),
            children: Seq::empty(),
            args: Seq::empty(),
            env: Seq::empty(),
            listening: 0,
            signals: Seq::empty(),
            pos: 0,
        },
        steps: 0,
        step_limit: budget.steps,
        pending_self: None,
        pending_rigids: None,
    }
}

impl<'t> Machine<'t> {
    /// A machine at the start of a run.
    pub fn new(pkg: &'t Package, replies: &'t Vec<Reply>, budget: Budget, stdin: &str) -> (r:
        Machine<'t>)
        requires
            pkg.files@.len() > 0,
        ensures
            r.inv(),
            r.pkg == pkg,
            r.replies == replies,
            r@ == started(pkg, budget, encode_utf8(stdin@)),
    {
        let ghost input = encode_utf8(stdin@);
        let mut regions: Vec<DynRegion> = Vec::new();
        regions.push(
            DynRegion { live: true, frozen: false, backing: None, span: pkg.files[0].root },
        );
        let mut ambient: Vec<usize> = Vec::new();
        ambient.push(0);
        let sh = Shadow {
            allocs: Vec::new(),
            regions,
            mem_used: 0,
            mem_limit: budget.mem_bytes,
        };
        let host = Host {
            stdin: bytes_of(stdin),
            stdin_pos: 0,
            files: Vec::new(),
            socks: Vec::new(),
            deadlines: Vec::new(),
            children: Vec::new(),
            args: Vec::new(),
            env: Vec::new(),
            listening: 0,
            signals: Vec::new(),
            pos: 0,
        };
        let m = Machine {
            pkg,
            replies,
            sh,
            lists: Vec::new(),
            pools: Vec::new(),
            cells: Vec::new(),
            frames: Vec::new(),
            ambient,
            guards: Vec::new(),
            stdout: Vec::new(),
            stderr: Vec::new(),
            host,
            steps: 0,
            step_limit: budget.steps,
            pending_self: None,
            pending_rigids: None,
        };
        proof {
            let want = started(pkg, budget, input);
            assert(m@.sh =~= want.sh);
            assert(m@.host =~= want.host);
            assert(m@ =~= want);
            encode_utf8_valid_utf8(stdin@);
            assert(valid_utf8(Seq::<u8>::empty()));
            reveal(Machine::inv);
        }
        m
    }
}

// -------------------------------------------------------------- the entry --

/// The first function of that name in the entry file, from `i` on.
pub open spec fn entry_in(p: &Package, name: Seq<char>, i: int) -> Option<int>
    decreases p.bodies@.len() - i,
{
    if i < 0 || i >= p.bodies@.len() {
        None
    } else if is_module_fn(p, i, name) && p.bodies@[i].file == 0 && module_fn(
        p,
        p.bodies@[i].module,
        name,
    ) == Some(i) {
        Some(i)
    } else {
        entry_in(p, name, i + 1)
    }
}

/// The entry: the entry file's function of that name, else the first in
/// any file.
pub open spec fn entry_of(p: &Package, name: Seq<char>) -> Option<int> {
    match entry_in(p, name, 0) {
        Some(b) => Some(b),
        None => any_fn(p, name, 0),
    }
}

/// Find a top-level entry function by name, the entry file's first.
pub fn find_entry(p: &Package, name: &str) -> (r: Option<usize>)
    ensures
        opt_body(r) == entry_of(p, name@),
        r matches Some(b) ==> b < p.bodies@.len(),
{
    let mut i: usize = 0;
    while i < p.bodies.len()
        invariant
            i <= p.bodies@.len(),
            entry_in(p, name@, 0) == entry_in(p, name@, i as int),
        decreases p.bodies.len() - i,
    {
        if p.bodies[i].file == 0 && module_fn_at(p, i, name) {
            if let Some(k) = find_module_fn(p, p.bodies[i].module, name) {
                if k == i {
                    return Some(i);
                }
            }
        }
        i = i + 1;
    }
    find_any_fn(p, name)
}

pub open spec fn takes_params(b: Body) -> bool {
    match b.kind {
        BodyKind::Fn(d) => d.params@.len() != 0,
        BodyKind::Init(_) => false,
    }
}

pub open spec fn decl_span(b: Body) -> Span {
    match b.kind {
        BodyKind::Fn(d) => d.span,
        BodyKind::Init(e) => e.span,
    }
}

// ---------------------------------------------------------------- the end --

pub open spec fn exit_code(v: ValueView) -> u8 {
    match v {
        ValueView::Int(n) => (n as int % 256) as u8,
        ValueView::ErrTag { .. } => 1,
        _ => 0,
    }
}

/// Everything printed; an error the entry returned is printed last.
pub open spec fn printed(stdout: Seq<u8>, v: ValueView) -> Seq<u8> {
    match v {
        ValueView::ErrTag { tag, .. } => stdout + encode_utf8("error: "@ + tag + "\n"@),
        _ => stdout,
    }
}

pub open spec fn outcome(m: State<'_>, verdict: VerdictView, stdout: Seq<u8>) -> OutcomeView {
    OutcomeView { verdict, stdout: decode_utf8(stdout), stderr: decode_utf8(m.stderr) }
}

/// What a finished call of the entry makes of the run.
pub open spec fn concluded(g: Gave<'_>, root: Span) -> Result<OutcomeView, HaltView> {
    match g {
        (m, Ok(v)) => Ok(outcome(m, VerdictView::Exit(exit_code(v)), printed(m.stdout, v))),
        (m, Err(StopView::Trap(t))) => Ok(outcome(m, VerdictView::Trap(t), m.stdout)),
        (m, Err(StopView::Ub(f))) => Ok(outcome(m, VerdictView::Ub(f), m.stdout)),
        (m, Err(StopView::Refuse(n))) => Err(HaltView::Refuse(n)),
        (m, Err(StopView::Budget(what))) => Err(
            HaltView::Refuse(NotYetView { construct: what, span: root }),
        ),
        (m, Err(StopView::Exit(c))) => Ok(outcome(m, VerdictView::Exit(c), m.stdout)),
        (m, Err(StopView::Ask(q))) => Err(HaltView::Ask(q)),
    }
}

/// The call of the entry, from the start.
pub open spec fn entry_call<'t>(
    pkg: &'t Package,
    heard: Seq<ReplyView>,
    budget: Budget,
    stdin: Seq<char>,
    body: int,
) -> Gave<'t> {
    call_body(
        World { pkg, heard },
        Here { body: 0, in_defer: false, depth: CALL_DEPTH },
        started(pkg, budget, encode_utf8(stdin)),
        body,
        Seq::empty(),
    )
}

/// A run of an entry function.
pub open spec fn ran(
    pkg: &Package,
    heard: Seq<ReplyView>,
    budget: Budget,
    stdin: Seq<char>,
    entry: Seq<char>,
) -> Result<OutcomeView, HaltView> {
    let root = pkg.files@[0].root;
    match entry_of(pkg, entry) {
        None => Err(
            HaltView::Refuse(
                NotYetView {
                    construct: if entry == "main"@ {
                        NO_MAIN@
                    } else {
                        NO_ENTRY@
                    },
                    span: root,
                },
            ),
        ),
        Some(b) => if entry != "main"@ && takes_params(pkg.bodies@[b]) {
            Err(
                HaltView::Refuse(
                    NotYetView { construct: ENTRY_PARAMS@, span: decl_span(pkg.bodies@[b]) },
                ),
            )
        } else {
            concluded(entry_call(pkg, heard, budget, stdin, b), root)
        },
    }
}

fn conclude(m: Machine<'_>, r: Result<Value, Stop>, root: Span) -> (out: Result<RunOutcome, Halt>)
    requires
        m.inv(),
    ensures
        run_result(out) == concluded((m@, value_result(r)), root),
{
    proof {
        reveal(Machine::inv);
    }
    let mut stdout = m.stdout;
    let stderr = m.stderr;
    let verdict = match r {
        Ok(v) => match v {
            Value::Int(n) => {
                let code: i128 = (n as i128 + 0x8000_0000_0000_0000) % 256;
                assert(code == n as int % 256);
                Verdict::Exit(code as u8)
            },
            Value::ErrTag { tag, .. } => {
                let line = bytes_of(lit("error: ").concat(tag.as_str()).concat("\n").as_str());
                proof {
                    encode_utf8_valid_utf8("error: "@ + tag@ + "\n"@);
                    valid_utf8_concat(stdout@, line@);
                }
                extend(&mut stdout, &line);
                Verdict::Exit(1)
            },
            _ => Verdict::Exit(0),
        },
        Err(Stop::Trap(t)) => Verdict::Trap(t),
        Err(Stop::Ub(f)) => Verdict::Ub(f),
        Err(Stop::Refuse(n)) => return Err(Halt::Refuse(n)),
        Err(Stop::Budget(what)) => return Err(
            Halt::Refuse(NotYet { construct: what, span: root }),
        ),
        Err(Stop::Exit(c)) => Verdict::Exit(c),
        Err(Stop::Ask(q)) => return Err(Halt::Ask(q)),
    };
    Ok(RunOutcome { verdict, stdout: text_of(&stdout), stderr: text_of(&stderr) })
}

/// Run one entry function under the machine with the answers of the host.
/// `"main"` is the program; any other entry must take no parameters.
pub fn run_checked_fn(
    pkg: &Package,
    budget: Budget,
    stdin: &str,
    entry: &str,
    replies: &Vec<Reply>,
) -> (r: Result<RunOutcome, Halt>)
    requires
        pkg.files@.len() > 0,
    ensures
        run_result(r) == ran(pkg, reply_views(replies@), budget, stdin@, entry@),
{
    let root = pkg.files[0].root;
    let main = str_eq(entry, "main");
    let body = match find_entry(pkg, entry) {
        Some(b) => b,
        None => {
            let construct = if main {
                NO_MAIN
            } else {
                NO_ENTRY
            };
            return Err(Halt::Refuse(NotYet { construct, span: root }));
        },
    };
    if let BodyKind::Fn(d) = &pkg.bodies[body].kind {
        if d.params.len() != 0 && !main {
            return Err(Halt::Refuse(NotYet { construct: ENTRY_PARAMS, span: d.span }));
        }
    }
    let mut m = Machine::new(pkg, replies, budget, stdin);
    let none: Vec<Value> = Vec::new();
    assert(vals(none@) =~= Seq::<ValueView>::empty());
    let r = m.call_body(Here { body: 0, in_defer: false, depth: CALL_DEPTH }, body, none);
    conclude(m, r, root)
}

/// Run the package's `main`, with a standard input for `read_line`.
pub fn run_checked_with_input(
    pkg: &Package,
    budget: Budget,
    stdin: &str,
    replies: &Vec<Reply>,
) -> (r: Result<RunOutcome, Halt>)
    requires
        pkg.files@.len() > 0,
    ensures
        run_result(r) == ran(pkg, reply_views(replies@), budget, stdin@, "main"@),
{
    run_checked_fn(pkg, budget, stdin, "main", replies)
}

/// Run the package's `main` with an empty standard input.
pub fn run_checked(pkg: &Package, budget: Budget, replies: &Vec<Reply>) -> (r: Result<
    RunOutcome,
    Halt,
>)
    requires
        pkg.files@.len() > 0,
    ensures
        run_result(r) == ran(pkg, reply_views(replies@), budget, ""@, "main"@),
{
    run_checked_with_input(pkg, budget, "", replies)
}

// -------------------------------------------------------------- discovery --

/// The first `n` top-level functions whose name marks a test.
pub open spec fn tests_in(fns: Seq<(String, usize)>, n: nat) -> Seq<(Seq<char>, usize)>
    decreases n,
{
    if n == 0 {
        Seq::empty()
    } else if stands_at(fns[n - 1].0@, "test_"@, 0) {
        tests_in(fns, (n - 1) as nat).push((fns[n - 1].0@, fns[n - 1].1))
    } else {
        tests_in(fns, (n - 1) as nat)
    }
}

/// The entry file's top-level `test_*` functions in declaration order,
/// each with its parameter count.
pub fn discover_tests(pkg: &Package) -> (r: Vec<(String, usize)>)
    requires
        pkg.files@.len() > 0,
    ensures
        name_views(r@) == tests_in(pkg.files@[0].fns@, pkg.files@[0].fns@.len()),
{
    let fns = &pkg.files[0].fns;
    let mark = chars_of("test_");
    let mut out: Vec<(String, usize)> = Vec::new();
    let mut i: usize = 0;
    assert(name_views(out@) =~= Seq::empty());
    while i < fns.len()
        invariant
            i <= fns@.len(),
            mark@ == "test_"@,
            name_views(out@) == tests_in(fns@, i as nat),
        decreases fns.len() - i,
    {
        let cs = chars_of(fns[i].0.as_str());
        if at_position(&cs, &mark, 0) {
            let ghost before = name_views(out@);
            let name = fns[i].0.clone();
            out.push((name, fns[i].1));
            assert(name_views(out@) =~= before.push((fns@[i as int].0@, fns@[i as int].1)));
        }
        i = i + 1;
    }
    out
}

pub open spec fn declares_main(f: SourceFile) -> bool {
    exists|k: int| 0 <= k < f.fns@.len() && (#[trigger] f.fns@[k]).0@ == "main"@
}

/// Does the package declare a top-level `main`?
pub fn has_main(pkg: &Package) -> (r: bool)
    ensures
        r == (exists|i: int| 0 <= i < pkg.files@.len() && declares_main(#[trigger] pkg.files@[i])),
{
    let mut i: usize = 0;
    while i < pkg.files.len()
        invariant
            i <= pkg.files@.len(),
            forall|j: int| 0 <= j < i ==> !declares_main(#[trigger] pkg.files@[j]),
        decreases pkg.files.len() - i,
    {
        let fns = &pkg.files[i].fns;
        let mut k: usize = 0;
        while k < fns.len()
            invariant
                i < pkg.files@.len(),
                *fns == pkg.files@[i as int].fns,
                k <= fns@.len(),
                forall|j: int| 0 <= j < k ==> (#[trigger] fns@[j]).0@ != "main"@,
            decreases fns.len() - k,
        {
            if str_eq(fns[k].0.as_str(), "main") {
                assert(pkg.files@[i as int].fns@[k as int].0@ == "main"@);
                assert(declares_main(pkg.files@[i as int]));
                return true;
            }
            k = k + 1;
        }
        i = i + 1;
    }
    false
}

// ------------------------------------------------------------------- laws --

/// An exhausted budget is a refusal at the root, never a verdict.
pub proof fn law_budget_is_no_verdict(
    pkg: &Package,
    heard: Seq<ReplyView>,
    budget: Budget,
    stdin: Seq<char>,
    entry: Seq<char>,
    b: int,
    what: Seq<char>,
)
    requires
        entry_of(pkg, entry) == Some(b),
        entry == "main"@ || !takes_params(pkg.bodies@[b]),
        entry_call(pkg, heard, budget, stdin, b).1 == Err::<ValueView, StopView>(
            StopView::Budget(what),
        ),
    ensures
        ran(pkg, heard, budget, stdin, entry) == Err::<OutcomeView, HaltView>(
            HaltView::Refuse(NotYetView { construct: what, span: pkg.files@[0].root }),
        ),
{
}

/// The entry file's function is the entry, whatever stands in other files.
pub proof fn law_entry_file_wins(p: &Package, name: Seq<char>, i: int)
    requires
        0 <= i < p.bodies@.len(),
        is_module_fn(p, i, name),
        p.bodies@[i].file == 0,
        module_fn(p, p.bodies@[i].module, name) == Some(i),
    ensures
        entry_of(p, name) matches Some(b) && 0 <= b <= i && p.bodies@[b].file == 0
            && is_module_fn(p, b, name),
{
    lemma_entry(p, name, 0, i);
}

proof fn lemma_entry(p: &Package, name: Seq<char>, k: int, i: int)
    requires
        0 <= k <= i < p.bodies@.len(),
        is_module_fn(p, i, name),
        p.bodies@[i].file == 0,
        module_fn(p, p.bodies@[i].module, name) == Some(i),
    ensures
        entry_in(p, name, k) matches Some(b) && k <= b <= i && p.bodies@[b].file == 0
            && is_module_fn(p, b, name),
    decreases i - k,
{
    if k < i {
        if !(is_module_fn(p, k, name) && p.bodies@[k].file == 0 && module_fn(
            p,
            p.bodies@[k].module,
            name,
        ) == Some(k)) {
            lemma_entry(p, name, k + 1, i);
        }
    }
}

/// With no steps left, a program with a body that does anything runs into
/// its budget: no verdict is made up.
pub proof fn law_no_steps_no_outcome(
    pkg: &Package,
    heard: Seq<ReplyView>,
    budget: Budget,
    stdin: Seq<char>,
    b: int,
)
    requires
        budget.steps == 0,
        entry_of(pkg, "main"@) == Some(b),
        0 <= b < pkg.bodies@.len(),
        pkg.bodies@[b].kind matches BodyKind::Fn(d) && (d.body matches Some(block)
            && block.stmts@.len() > 0),
    ensures
        ran(pkg, heard, budget, stdin, "main"@) == Err::<OutcomeView, HaltView>(
            HaltView::Refuse(NotYetView { construct: NO_STEPS@, span: pkg.files@[0].root }),
        ),
{
    match pkg.bodies@[b].kind {
        BodyKind::Fn(d) => match d.body {
            Some(block) => {
                reveal(call_body);
                reveal(eval_block);
                reveal_with_fuel(eval_stmts, 2);
                let m = started(pkg, budget, encode_utf8(stdin));
                assert(entered(m, d.params@, Seq::empty()).push_scope().steps == 0);
            },
            None => {},
        },
        _ => {},
    }
}

} // verus!

//! The machine's state: shadow memory, the heap of containers and cells,
//! the frames, and what the program has said to and heard from its host.
//!
//! A run is a function of the program, the budget, the standard input and
//! the host's answers: an operation only the host can do takes the next
//! recorded answer, or stops and asks for it.

use vstd::prelude::*;
use vstd::string::*;
use vstd::utf8::*;

use crate::ast::Expr;
use crate::diag::Span;
use crate::package::Package;
use crate::shadow::{NO_MEMORY, PtrVal, Shadow, ShadowView, TagState};
use crate::text::{lit, str_eq};
use crate::builtin::env_text;
use crate::strs::{all_text, boundary};
use crate::value::{
    byte_views, bytes_of, done_result, lemma_named, named_vals, refuse, refused, reply_views,
    step_views, trap, trapped, vals, value_result, PStep, PStepView, Reply, ReplyView, Request,
    RequestView, Slot, SlotView, Stop, StopView, Value, ValueView,
};

verus! {

/// One slot of a pool; its generation grows with every removal.
#[derive(Debug)]
pub struct PoolSlot {
    pub generation: i64,
    pub live: bool,
    pub value: Value,
}

#[verifier::ext_equal]
pub struct PoolSlotView {
    pub generation: i64,
    pub live: bool,
    pub value: ValueView,
}

impl View for PoolSlot {
    type V = PoolSlotView;

    open spec fn view(&self) -> PoolSlotView {
        PoolSlotView { generation: self.generation, live: self.live, value: self.value@ }
    }
}

pub open spec fn pool_views(v: Seq<PoolSlot>) -> Seq<PoolSlotView> {
    Seq::new(v.len(), |i: int| v[i]@)
}

pub open spec fn pools_views(v: Seq<Vec<PoolSlot>>) -> Seq<Seq<PoolSlotView>> {
    Seq::new(v.len(), |i: int| pool_views(v[i]@))
}

/// A reference-counted cell.
#[derive(Debug)]
pub struct RcCell {
    pub strong: u32,
    pub weak: u32,
    pub value: Value,
}

#[verifier::ext_equal]
pub struct RcCellView {
    pub strong: u32,
    pub weak: u32,
    pub value: ValueView,
}

impl View for RcCell {
    type V = RcCellView;

    open spec fn view(&self) -> RcCellView {
        RcCellView { strong: self.strong, weak: self.weak, value: self.value@ }
    }
}

pub open spec fn cell_views(v: Seq<RcCell>) -> Seq<RcCellView> {
    Seq::new(v.len(), |i: int| v[i]@)
}

pub open spec fn list_views(v: Seq<Vec<Value>>) -> Seq<Seq<ValueView>> {
    Seq::new(v.len(), |i: int| vals(v[i]@))
}

/// A scope-exit obligation.
#[derive(Clone, Copy)]
pub enum Duty<'t> {
    Defer(&'t Expr, bool),
    DropLocal(usize),
    FreeRegionLocal(usize),
}

pub struct Scope<'t> {
    pub names: Vec<(String, usize)>,
    pub duties: Vec<Duty<'t>>,
}

#[verifier::ext_equal]
pub struct ScopeView<'t> {
    pub names: Seq<(Seq<char>, usize)>,
    pub duties: Seq<Duty<'t>>,
}

pub open spec fn name_views(v: Seq<(String, usize)>) -> Seq<(Seq<char>, usize)> {
    Seq::new(v.len(), |i: int| (v[i].0@, v[i].1))
}

impl<'t> View for Scope<'t> {
    type V = ScopeView<'t>;

    open spec fn view(&self) -> ScopeView<'t> {
        ScopeView { names: name_views(self.names@), duties: self.duties@ }
    }
}

pub open spec fn scope_views<'t>(v: Seq<Scope<'t>>) -> Seq<ScopeView<'t>> {
    Seq::new(v.len(), |i: int| v[i]@)
}

pub open spec fn pair_views(v: Seq<(String, String)>) -> Seq<(Seq<char>, Seq<char>)> {
    Seq::new(v.len(), |i: int| (v[i].0@, v[i].1@))
}

pub open spec fn opt_string(o: Option<String>) -> Option<Seq<char>> {
    match o {
        Some(s) => Some(s@),
        None => None,
    }
}

pub open spec fn opt_pairs(o: Option<Vec<(String, String)>>) -> Option<
    Seq<(Seq<char>, Seq<char>)>,
> {
    match o {
        Some(v) => Some(pair_views(v@)),
        None => None,
    }
}

/// One running body: its locals, its scopes, and what `Self` and its
/// generic parameters stand for in this call.
pub struct Frame<'t> {
    pub locals: Vec<Value>,
    pub scopes: Vec<Scope<'t>>,
    pub self_ty: Option<String>,
    pub rigids: Vec<(String, String)>,
}

#[verifier::ext_equal]
pub struct FrameView<'t> {
    pub locals: Seq<ValueView>,
    pub scopes: Seq<ScopeView<'t>>,
    pub self_ty: Option<Seq<char>>,
    pub rigids: Seq<(Seq<char>, Seq<char>)>,
}

impl<'t> View for Frame<'t> {
    type V = FrameView<'t>;

    open spec fn view(&self) -> FrameView<'t> {
        FrameView {
            locals: vals(self.locals@),
            scopes: scope_views(self.scopes@),
            self_ty: opt_string(self.self_ty),
            rigids: pair_views(self.rigids@),
        }
    }
}

pub open spec fn frame_views<'t>(v: Seq<Frame<'t>>) -> Seq<FrameView<'t>> {
    Seq::new(v.len(), |i: int| v[i]@)
}

/// The program's side of its host: open handles, signals, environment.
#[derive(Debug)]
pub struct Host {
    pub stdin: Vec<u8>,
    pub stdin_pos: usize,
    /// Per file handle: open.
    pub files: Vec<bool>,
    /// Per socket handle: a listener, a stream, or closed.
    pub socks: Vec<Option<bool>>,
    /// Listener deadlines in milliseconds.
    pub deadlines: Vec<(i64, u64)>,
    /// Per child handle: not reaped yet.
    pub children: Vec<bool>,
    pub args: Vec<Vec<u8>>,
    /// The program's own environment writes.
    pub env: Vec<(Vec<u8>, Vec<u8>)>,
    pub listening: i64,
    pub signals: Vec<i64>,
    /// How many answers were taken.
    pub pos: usize,
}

#[verifier::ext_equal]
pub struct HostView {
    pub stdin: Seq<u8>,
    pub stdin_pos: usize,
    pub files: Seq<bool>,
    pub socks: Seq<Option<bool>>,
    pub deadlines: Seq<(i64, u64)>,
    pub children: Seq<bool>,
    pub args: Seq<Seq<u8>>,
    pub env: Seq<(Seq<u8>, Seq<u8>)>,
    pub listening: i64,
    pub signals: Seq<i64>,
    pub pos: usize,
}

pub open spec fn env_views(v: Seq<(Vec<u8>, Vec<u8>)>) -> Seq<(Seq<u8>, Seq<u8>)> {
    Seq::new(v.len(), |i: int| (v[i].0@, v[i].1@))
}

impl HostView {
    /// Input, arguments and environment are text, and the input was read up
    /// to a character boundary.
    pub open spec fn texts_ok(self) -> bool {
        &&& valid_utf8(self.stdin)
        &&& self.stdin_pos <= self.stdin.len()
        &&& boundary(self.stdin, self.stdin_pos as int)
        &&& all_text(self.args)
        &&& env_text(self.env)
    }
}

impl View for Host {
    type V = HostView;

    open spec fn view(&self) -> HostView {
        HostView {
            stdin: self.stdin@,
            stdin_pos: self.stdin_pos,
            files: self.files@,
            socks: self.socks@,
            deadlines: self.deadlines@,
            children: self.children@,
            args: byte_views(self.args@),
            env: env_views(self.env@),
            listening: self.listening,
            signals: self.signals@,
            pos: self.pos,
        }
    }
}

pub struct Machine<'t> {
    pub pkg: &'t Package,
    pub replies: &'t Vec<Reply>,
    pub sh: Shadow,
    pub lists: Vec<Vec<Value>>,
    pub pools: Vec<Vec<PoolSlot>>,
    pub cells: Vec<RcCell>,
    pub frames: Vec<Frame<'t>>,
    pub ambient: Vec<usize>,
    /// The pointers passed to be read by calls that have not returned, with
    /// their protected tags.
    pub guards: Vec<PtrVal>,
    pub stdout: Vec<u8>,
    pub stderr: Vec<u8>,
    pub host: Host,
    pub steps: u64,
    pub step_limit: u64,
    /// What the next call's `Self` and generic parameters stand for.
    pub pending_self: Option<String>,
    pub pending_rigids: Option<Vec<(String, String)>>,
}

/// The state as a value.
#[verifier::ext_equal]
pub struct State<'t> {
    pub sh: ShadowView,
    pub lists: Seq<Seq<ValueView>>,
    pub pools: Seq<Seq<PoolSlotView>>,
    pub cells: Seq<RcCellView>,
    pub frames: Seq<FrameView<'t>>,
    pub ambient: Seq<usize>,
    pub guards: Seq<PtrVal>,
    pub stdout: Seq<u8>,
    pub stderr: Seq<u8>,
    pub host: HostView,
    pub steps: u64,
    pub step_limit: u64,
    pub pending_self: Option<Seq<char>>,
    pub pending_rigids: Option<Seq<(Seq<char>, Seq<char>)>>,
}

impl<'t> View for Machine<'t> {
    type V = State<'t>;

    open spec fn view(&self) -> State<'t> {
        State {
            sh: self.sh@,
            lists: list_views(self.lists@),
            pools: pools_views(self.pools@),
            cells: cell_views(self.cells@),
            frames: frame_views(self.frames@),
            ambient: self.ambient@,
            guards: self.guards@,
            stdout: self.stdout@,
            stderr: self.stderr@,
            host: self.host@,
            steps: self.steps,
            step_limit: self.step_limit,
            pending_self: opt_string(self.pending_self),
            pending_rigids: opt_pairs(self.pending_rigids),
        }
    }
}

/// A state with nothing to say but a stop.
pub type Did<'t> = (State<'t>, Result<(), StopView>);

/// A state with a value or a stop.
pub type Gave<'t> = (State<'t>, Result<ValueView, StopView>);

impl<'t> Machine<'t> {
    /// The shadow store is well-formed, and whatever was printed, read or
    /// set is text.
    #[verifier::opaque]
    pub open spec fn inv(&self) -> bool {
        &&& self.sh@.wf()
        &&& valid_utf8(self.stdout@)
        &&& valid_utf8(self.stderr@)
        &&& self.host@.texts_ok()
    }

    pub open spec fn heard(&self) -> Seq<ReplyView> {
        reply_views(self.replies@)
    }
}

/// A step kept the program and its budget, no step was given back, and
/// none was taken beyond the budget.
pub open spec fn advanced<'t>(a: Machine<'t>, b: Machine<'t>) -> bool {
    &&& b.inv()
    &&& b.pkg == a.pkg
    &&& b.replies == a.replies
    &&& b@.steps >= a@.steps
    &&& b@.step_limit == a@.step_limit
    &&& a@.steps <= a@.step_limit ==> b@.steps <= b@.step_limit
}

pub const NO_STEPS: &'static str = "step budget exhausted";

pub const NO_DEPTH: &'static str = "call depth budget exhausted";

// ---------------------------------------------------------------- budget --

impl<'t> State<'t> {
    pub open spec fn ticked(self) -> Did<'t> {
        if self.steps < self.step_limit {
            (State { steps: (self.steps + 1) as u64, ..self }, Ok(()))
        } else {
            (self, Err(StopView::Budget(NO_STEPS@)))
        }
    }

    pub open spec fn charged(self, bytes: nat) -> Did<'t> {
        (
            State { sh: self.sh.charged(bytes), ..self },
            if self.sh.affords(bytes) {
                Ok(())
            } else {
                Err(StopView::Budget(NO_MEMORY@))
            },
        )
    }

    /// The next recorded answer, or the question.
    pub open spec fn asked(self, heard: Seq<ReplyView>, q: RequestView) -> (
        State<'t>,
        Result<ReplyView, StopView>,
    ) {
        if self.host.pos < heard.len() {
            (
                State {
                    host: HostView { pos: (self.host.pos + 1) as usize, ..self.host },
                    ..self
                },
                Ok(heard[self.host.pos as int]),
            )
        } else {
            (self, Err(StopView::Ask(q)))
        }
    }

    pub open spec fn with_shadow(self, sh: ShadowView) -> State<'t> {
        State { sh, ..self }
    }
}

pub open spec fn reply_result(r: Result<&Reply, Stop>) -> Result<ReplyView, StopView> {
    match r {
        Ok(x) => Ok(x@),
        Err(s) => Err(s@),
    }
}

impl<'t> Machine<'t> {
    pub fn tick(&mut self) -> (r: Result<(), Stop>)
        requires
            old(self).inv(),
        ensures
            advanced(*old(self), *final(self)),
            (final(self)@, done_result(r)) == old(self)@.ticked(),
            r is Ok ==> final(self)@.steps == old(self)@.steps + 1,
    {
        let ghost was = self@;
        if self.steps < self.step_limit {
            self.steps = self.steps + 1;
            proof {
                assert(self@ =~= was.ticked().0);
                reveal(Machine::inv);
            }
            Ok(())
        } else {
            Err(Stop::Budget(NO_STEPS))
        }
    }

    pub fn charge_mem(&mut self, bytes: u64) -> (r: Result<(), Stop>)
        requires
            old(self).inv(),
        ensures
            advanced(*old(self), *final(self)),
            (final(self)@, done_result(r)) == old(self)@.charged(bytes as nat),
    {
        let ghost was = self@;
        let ok = self.sh.charge_mem(bytes);
        proof {
            assert(self@ =~= was.charged(bytes as nat).0);
            reveal(Machine::inv);
        }
        if ok {
            Ok(())
        } else {
            Err(Stop::Budget(NO_MEMORY))
        }
    }

    /// Take the next answer of the host, or stop with the question.
    pub fn ask(&mut self, q: Request) -> (r: Result<&'t Reply, Stop>)
        requires
            old(self).inv(),
        ensures
            advanced(*old(self), *final(self)),
            (final(self)@, reply_result(r)) == old(self)@.asked(old(self).heard(), q@),
    {
        let ghost was = self@;
        if self.host.pos < self.replies.len() {
            let r = &self.replies[self.host.pos];
            assert(self.heard()[self.host.pos as int] == r@);
            self.host.pos = self.host.pos + 1;
            proof {
                assert(self@.host =~= was.asked(self.heard(), q@).0.host);
                assert(self@ =~= was.asked(self.heard(), q@).0);
                reveal(Machine::inv);
            }
            Ok(r)
        } else {
            Err(Stop::Ask(q))
        }
    }
}

// ---------------------------------------------------------------- frames --

/// The last binding of the name among the first `n` of a scope.
pub open spec fn find_local(names: Seq<(Seq<char>, usize)>, name: Seq<char>, n: nat) -> Option<usize>
    decreases n,
{
    if n == 0 {
        None
    } else if names[n - 1].0 == name {
        Some(names[n - 1].1)
    } else {
        find_local(names, name, (n - 1) as nat)
    }
}

/// The innermost binding of the name among the first `n` scopes.
pub open spec fn find_bound(scopes: Seq<ScopeView<'_>>, name: Seq<char>, n: nat) -> Option<usize>
    decreases n,
{
    if n == 0 {
        None
    } else {
        match find_local(scopes[n - 1].names, name, scopes[n - 1].names.len()) {
            Some(l) => Some(l),
            None => find_bound(scopes, name, (n - 1) as nat),
        }
    }
}

impl<'t> State<'t> {
    pub open spec fn with_top(self, f: FrameView<'t>) -> State<'t> {
        State { frames: self.frames.update(self.frames.len() - 1, f), ..self }
    }

    pub open spec fn push_scope(self) -> State<'t> {
        if self.frames.len() == 0 {
            self
        } else {
            let f = self.frames.last();
            self.with_top(
                FrameView {
                    scopes: f.scopes.push(
                        ScopeView { names: Seq::empty(), duties: Seq::empty() },
                    ),
                    ..f
                },
            )
        }
    }

    pub open spec fn pop_scope(self) -> State<'t> {
        if self.frames.len() == 0 || self.frames.last().scopes.len() == 0 {
            self
        } else {
            let f = self.frames.last();
            self.with_top(FrameView { scopes: f.scopes.drop_last(), ..f })
        }
    }

    /// A new local of the running frame, named in its innermost scope.
    pub open spec fn declare(self, name: Seq<char>, v: ValueView) -> State<'t> {
        if self.frames.len() == 0 {
            self
        } else {
            let f = self.frames.last();
            let scopes = if f.scopes.len() == 0 {
                f.scopes
            } else {
                let s = f.scopes.last();
                f.scopes.update(
                    f.scopes.len() - 1,
                    ScopeView { names: s.names.push((name, f.locals.len() as usize)), ..s },
                )
            };
            self.with_top(FrameView { locals: f.locals.push(v), scopes, ..f })
        }
    }

    pub open spec fn oblige(self, d: Duty<'t>) -> State<'t> {
        if self.frames.len() == 0 || self.frames.last().scopes.len() == 0 {
            self
        } else {
            let f = self.frames.last();
            let s = f.scopes.last();
            self.with_top(
                FrameView {
                    scopes: f.scopes.update(
                        f.scopes.len() - 1,
                        ScopeView { duties: s.duties.push(d), ..s },
                    ),
                    ..f
                },
            )
        }
    }

    /// The local a name denotes in the running frame.
    pub open spec fn lookup(self, name: Seq<char>) -> Option<SlotView> {
        if self.frames.len() == 0 {
            None
        } else {
            let f = self.frames.last();
            match find_bound(f.scopes, name, f.scopes.len()) {
                Some(l) => Some(
                    SlotView {
                        frame: (self.frames.len() - 1) as usize,
                        local: l,
                        path: Seq::empty(),
                    },
                ),
                None => None,
            }
        }
    }

    /// The value of a local of the running frame.
    pub open spec fn top_local(self, i: usize) -> ValueView {
        if self.frames.len() > 0 && i < self.frames.last().locals.len() {
            self.frames.last().locals[i as int]
        } else {
            ValueView::Uninit
        }
    }

    pub open spec fn has_local(self, frame: usize, local: usize) -> bool {
        frame < self.frames.len() && local < self.frames[frame as int].locals.len()
    }

    pub open spec fn set_local(self, frame: usize, local: usize, v: ValueView) -> State<'t> {
        if self.has_local(frame, local) {
            let f = self.frames[frame as int];
            State {
                frames: self.frames.update(
                    frame as int,
                    FrameView { locals: f.locals.update(local as int, v), ..f },
                ),
                ..self
            }
        } else {
            self
        }
    }

    pub open spec fn new_list(self, items: Seq<ValueView>) -> State<'t> {
        State { lists: self.lists.push(items), ..self }
    }

    pub open spec fn next_list(self) -> ValueView {
        ValueView::List(self.lists.len() as usize)
    }

    pub open spec fn set_list(self, id: int, items: Seq<ValueView>) -> State<'t> {
        State { lists: self.lists.update(id, items), ..self }
    }

    pub open spec fn set_pool(self, id: int, slots: Seq<PoolSlotView>) -> State<'t> {
        State { pools: self.pools.update(id, slots), ..self }
    }

    pub open spec fn set_cell(self, id: int, c: RcCellView) -> State<'t> {
        State { cells: self.cells.update(id, c), ..self }
    }

    pub open spec fn with_host(self, h: HostView) -> State<'t> {
        State { host: h, ..self }
    }

    /// A pointer retagged for a parameter; a read one stays protected until
    /// it is released.
    pub open spec fn lent(self, p: PtrVal, state: TagState, at: Span) -> (State<'t>, PtrVal) {
        let (sh, q) = self.sh.retag(p, state, at);
        (
            State {
                sh,
                guards: if state is Frozen {
                    self.guards.push(q)
                } else {
                    self.guards
                },
                ..self
            },
            q,
        )
    }

    /// The protections beyond the first `n` are released.
    pub open spec fn released(self, n: nat) -> State<'t>
        decreases self.guards.len(),
    {
        if self.guards.len() <= n {
            self
        } else {
            State {
                sh: self.sh.unprotected(self.guards.last()),
                guards: self.guards.drop_last(),
                ..self
            }.released(n)
        }
    }

    pub open spec fn push_ambient(self, r: usize) -> State<'t> {
        State { ambient: self.ambient.push(r), ..self }
    }

    pub open spec fn pop_ambient(self) -> State<'t> {
        if self.ambient.len() == 0 {
            self
        } else {
            State { ambient: self.ambient.drop_last(), ..self }
        }
    }
}

pub open spec fn opt_slot(o: Option<Slot>) -> Option<SlotView> {
    match o {
        Some(s) => Some(s@),
        None => None,
    }
}

fn find_name(names: &Vec<(String, usize)>, name: &str) -> (r: Option<usize>)
    ensures
        r == find_local(name_views(names@), name@, names@.len()),
{
    let mut n: usize = names.len();
    while n > 0
        invariant
            n <= names@.len(),
            find_local(name_views(names@), name@, names@.len()) == find_local(
                name_views(names@),
                name@,
                n as nat,
            ),
        decreases n,
    {
        assert(name_views(names@)[n - 1] == (names@[n - 1].0@, names@[n - 1].1));
        if str_eq(names[n - 1].0.as_str(), name) {
            return Some(names[n - 1].1);
        }
        n = n - 1;
    }
    None
}

impl<'t> Machine<'t> {
    pub fn push_scope(&mut self)
        requires
            old(self).inv(),
        ensures
            advanced(*old(self), *final(self)),
            final(self)@ == old(self)@.push_scope(),
    {
        let ghost was = self@;
        let n: usize = self.frames.len();
        if n > 0 {
            assert(was.frames[n - 1] == self.frames@[n - 1]@);
            self.frames[n - 1].scopes.push(Scope { names: Vec::new(), duties: Vec::new() });
            proof {
                let f = self.frames@[n - 1]@;
                let k = f.scopes.len() - 1;
                assert(f.scopes[k] =~= ScopeView { names: Seq::empty(), duties: Seq::empty() });
                assert(f.scopes =~= was.push_scope().frames[n - 1].scopes);
                assert(self@.frames =~= was.push_scope().frames);
                assert(self@ =~= was.push_scope());
                reveal(Machine::inv);
            }
        }
    }

    pub fn pop_scope(&mut self)
        requires
            old(self).inv(),
        ensures
            advanced(*old(self), *final(self)),
            final(self)@ == old(self)@.pop_scope(),
    {
        let ghost was = self@;
        let n: usize = self.frames.len();
        if n > 0 {
            assert(was.frames[n - 1] == self.frames@[n - 1]@);
            let _ = self.frames[n - 1].scopes.pop();
            proof {
                assert(self.frames@[n - 1]@.scopes =~= was.pop_scope().frames[n - 1].scopes);
                assert(self@.frames =~= was.pop_scope().frames);
                assert(self@ =~= was.pop_scope());
                reveal(Machine::inv);
            }
        }
    }

    pub fn declare(&mut self, name: &str, v: Value) -> (idx: usize)
        requires
            old(self).inv(),
        ensures
            advanced(*old(self), *final(self)),
            final(self)@ == old(self)@.declare(name@, v@),
            old(self)@.frames.len() > 0 ==> idx == old(self)@.frames.last().locals.len(),
            old(self)@.frames.len() == 0 ==> idx == 0,
    {
        let ghost was = self@;
        let ghost vv = v@;
        let n: usize = self.frames.len();
        if n == 0 {
            return 0;
        }
        assert(was.frames[n - 1] == self.frames@[n - 1]@);
        let idx: usize = self.frames[n - 1].locals.len();
        self.frames[n - 1].locals.push(v);
        let k: usize = self.frames[n - 1].scopes.len();
        if k > 0 {
            let ghost sc = self.frames@[n - 1].scopes@[k - 1]@;
            assert(was.frames[n - 1].scopes[k - 1] == sc);
            self.frames[n - 1].scopes[k - 1].names.push((lit(name), idx));
            assert(self.frames@[n - 1].scopes@[k - 1]@.names =~= sc.names.push((name@, idx)));
        }
        proof {
            let want = was.declare(name@, vv);
            assert(self.frames@[n - 1]@.locals =~= want.frames[n - 1].locals);
            assert(self.frames@[n - 1]@.scopes =~= want.frames[n - 1].scopes);
            assert(self@.frames =~= want.frames);
            assert(self@ =~= want);
            reveal(Machine::inv);
        }
        idx
    }

    pub fn oblige(&mut self, d: Duty<'t>)
        requires
            old(self).inv(),
        ensures
            advanced(*old(self), *final(self)),
            final(self)@ == old(self)@.oblige(d),
    {
        let ghost was = self@;
        let n: usize = self.frames.len();
        if n == 0 {
            return;
        }
        assert(was.frames[n - 1] == self.frames@[n - 1]@);
        let k: usize = self.frames[n - 1].scopes.len();
        if k == 0 {
            return;
        }
        let ghost sc = self.frames@[n - 1].scopes@[k - 1]@;
        assert(was.frames[n - 1].scopes[k - 1] == sc);
        self.frames[n - 1].scopes[k - 1].duties.push(d);
        proof {
            let want = was.oblige(d);
            assert(self.frames@[n - 1].scopes@[k - 1]@.duties =~= sc.duties.push(d));
            assert(self.frames@[n - 1]@.scopes =~= want.frames[n - 1].scopes);
            assert(self@.frames =~= want.frames);
            assert(self@ =~= want);
            reveal(Machine::inv);
        }
    }

    pub fn lookup(&self, name: &str) -> (r: Option<Slot>)
        ensures
            opt_slot(r) == self@.lookup(name@),
    {
        let n: usize = self.frames.len();
        if n == 0 {
            return None;
        }
        let f = &self.frames[n - 1];
        let ghost fv = self@.frames[n - 1];
        assert(fv == f@);
        let mut k: usize = f.scopes.len();
        while k > 0
            invariant
                k <= f.scopes@.len(),
                n > 0,
                n == self.frames@.len(),
                fv == f@,
                self@.frames.last() == fv,
                find_bound(fv.scopes, name@, fv.scopes.len()) == find_bound(
                    fv.scopes,
                    name@,
                    k as nat,
                ),
            decreases k,
        {
            assert(fv.scopes[k - 1] == f.scopes@[k - 1]@);
            if let Some(l) = find_name(&f.scopes[k - 1].names, name) {
                let s = Slot { frame: n - 1, local: l, path: Vec::new() };
                assert(s@.path =~= Seq::empty());
                return Some(s);
            }
            k = k - 1;
        }
        None
    }

    pub fn set_local(&mut self, frame: usize, local: usize, v: Value)
        requires
            old(self).inv(),
        ensures
            advanced(*old(self), *final(self)),
            final(self)@ == old(self)@.set_local(frame, local, v@),
    {
        let ghost was = self@;
        let ghost vv = v@;
        if frame < self.frames.len() {
            assert(was.frames[frame as int] == self.frames@[frame as int]@);
            if local < self.frames[frame].locals.len() {
                self.frames[frame].locals.set(local, v);
                proof {
                    let want = was.set_local(frame, local, vv);
                    assert(self.frames@[frame as int]@.locals
                        =~= want.frames[frame as int].locals);
                    assert(self@.frames =~= want.frames);
                    assert(self@ =~= want);
                    reveal(Machine::inv);
                }
            }
        }
    }

    /// The value of a local of the running frame.
    pub fn top_local(&self, i: usize) -> (r: Value)
        ensures
            r@ == self@.top_local(i),
    {
        let n: usize = self.frames.len();
        if n == 0 {
            return Value::Uninit;
        }
        assert(self@.frames[n - 1] == self.frames@[n - 1]@);
        if i < self.frames[n - 1].locals.len() {
            assert(self@.frames[n - 1].locals[i as int] == self.frames@[n - 1].locals@[i as int]@);
            self.frames[n - 1].locals[i].duplicate()
        } else {
            Value::Uninit
        }
    }

    /// Bytes or values as a fresh list.
    pub fn new_list(&mut self, items: Vec<Value>) -> (r: Value)
        requires
            old(self).inv(),
        ensures
            advanced(*old(self), *final(self)),
            final(self)@ == old(self)@.new_list(vals(items@)),
            r@ == old(self)@.next_list(),
    {
        let ghost was = self@;
        let ghost iv = vals(items@);
        let id: usize = self.lists.len();
        self.lists.push(items);
        proof {
            assert(self@.lists =~= was.lists.push(iv));
            assert(self@ =~= was.new_list(iv));
            reveal(Machine::inv);
        }
        Value::List(id)
    }

    /// Retag a pointer for a parameter.
    pub fn lend(&mut self, p: PtrVal, state: TagState, at: Span) -> (r: PtrVal)
        requires
            old(self).inv(),
        ensures
            advanced(*old(self), *final(self)),
            (final(self)@, r) == old(self)@.lent(p, state, at),
    {
        let ghost was = self@;
        proof {
            reveal(Machine::inv);
        }
        let q = self.sh.retag(p, state, at);
        if state == TagState::Frozen {
            self.guards.push(q);
        }
        assert(self@ =~= was.lent(p, state, at).0);
        q
    }

    /// Release the protections beyond the first `n`.
    pub fn release(&mut self, n: usize)
        requires
            old(self).inv(),
        ensures
            advanced(*old(self), *final(self)),
            final(self)@ == old(self)@.released(n as nat),
    {
        let ghost start = *self;
        while self.guards.len() > n
            invariant
                advanced(start, *self),
                start@.released(n as nat) == self@.released(n as nat),
            decreases self.guards.len(),
        {
            let ghost was = self@;
            proof {
                reveal(Machine::inv);
            }
            if let Some(p) = self.guards.pop() {
                self.sh.unprotect(p);
                assert(self@ =~= State {
                    sh: was.sh.unprotected(was.guards.last()),
                    guards: was.guards.drop_last(),
                    ..was
                });
            }
        }
    }

    pub fn push_ambient(&mut self, r: usize)
        requires
            old(self).inv(),
        ensures
            advanced(*old(self), *final(self)),
            final(self)@ == old(self)@.push_ambient(r),
    {
        let ghost was = self@;
        self.ambient.push(r);
        proof {
            assert(self@ =~= was.push_ambient(r));
            reveal(Machine::inv);
        }
    }

    pub fn pop_ambient(&mut self)
        requires
            old(self).inv(),
        ensures
            advanced(*old(self), *final(self)),
            final(self)@ == old(self)@.pop_ambient(),
    {
        let ghost was = self@;
        let _ = self.ambient.pop();
        proof {
            assert(self@.ambient =~= was.pop_ambient().ambient);
            assert(self@ =~= was.pop_ambient());
            reveal(Machine::inv);
        }
    }
}

// ---------------------------------------------------------------- places --

/// The value of the first field of that name, from `i` on.
pub open spec fn field_value(fs: Seq<(Seq<char>, ValueView)>, name: Seq<char>, i: int) -> Option<int>
    decreases fs.len() - i,
{
    if i >= fs.len() {
        None
    } else if fs[i].0 == name {
        Some(i)
    } else {
        field_value(fs, name, i + 1)
    }
}

pub const NO_FIELD: &'static str = "field access outside the modelled surface";

pub const NO_FIELD_WRITE: &'static str = "field write outside the modelled surface";

pub const NO_PROJECTION: &'static str = "place projection outside the modelled surface";

pub const NO_PLACE_WRITE: &'static str = "place write outside the modelled surface";

pub const NO_CELL_FIELD: &'static str = "field access through this cell shape";

impl<'t> State<'t> {
    /// A handle that no longer names a live slot of this generation.
    pub open spec fn stale(self, pool: int, index: usize, generation: i64) -> bool {
        index >= self.pools[pool].len() || self.pools[pool][index as int].generation != generation
            || !self.pools[pool][index as int].live
    }

    /// Read along a path, from step `i` on; bounds and generation checks
    /// fire here.
    pub open spec fn walk_read(self, cur: ValueView, path: Seq<PStepView>, i: nat, span: Span) -> Result<
        ValueView,
        StopView,
    >
        decreases path.len() - i,
    {
        if i >= path.len() {
            Ok(cur)
        } else {
            match (path[i as int], cur) {
                (PStepView::Field(f), ValueView::Struct(fs)) => match field_value(fs, f, 0) {
                    Some(k) => self.walk_read(fs[k].1, path, i + 1, span),
                    None => Err(refused(NO_FIELD@, span)),
                },
                (PStepView::Field(f), ValueView::Shared(c)) => if c >= self.cells.len() {
                    Err(refused(NO_PROJECTION@, span))
                } else {
                    match self.cells[c as int].value {
                        ValueView::Struct(fs) => match field_value(fs, f, 0) {
                            Some(k) => self.walk_read(fs[k].1, path, i + 1, span),
                            None => Err(refused(NO_FIELD@, span)),
                        },
                        _ => Err(refused(NO_CELL_FIELD@, span)),
                    }
                },
                (PStepView::Field(f), ValueView::List(id)) => if f == "len"@ && id
                    < self.lists.len() {
                    self.walk_read(
                        ValueView::Int(self.lists[id as int].len() as i64),
                        path,
                        i + 1,
                        span,
                    )
                } else {
                    Err(refused(NO_PROJECTION@, span))
                },
                (PStepView::Field(f), ValueView::Str(s)) => if f == "len"@ {
                    self.walk_read(ValueView::Int(s.len() as i64), path, i + 1, span)
                } else {
                    Err(refused(NO_PROJECTION@, span))
                },
                (PStepView::ListIdx { index, span: isp }, ValueView::List(id)) => if id
                    >= self.lists.len() {
                    Err(refused(NO_PROJECTION@, span))
                } else if index < 0 || index >= self.lists[id as int].len() {
                    Err(trapped("bounds"@, "mem.ub.defined"@, isp))
                } else {
                    self.walk_read(self.lists[id as int][index as int], path, i + 1, span)
                },
                (
                    PStepView::PoolIdx { index, generation, span: isp },
                    ValueView::Pool(id),
                ) => if id >= self.pools.len() {
                    Err(refused(NO_PROJECTION@, span))
                } else if self.stale(id as int, index, generation) {
                    Err(trapped("stale-handle"@, "mem.shared.handle.2"@, isp))
                } else {
                    self.walk_read(self.pools[id as int][index as int].value, path, i + 1, span)
                },
                (_, ValueView::Moved) => Err(
                    trapped("use-after-move"@, "mem.tier0.move.2"@, span),
                ),
                _ => Err(refused(NO_PROJECTION@, span)),
            }
        }
    }

    /// Read through a place; a `mut` parameter reads the caller's.
    pub open spec fn read_slot(self, s: SlotView, span: Span) -> Result<ValueView, StopView>
        decreases s.frame,
    {
        if !self.has_local(s.frame, s.local) {
            Err(refused(NO_PROJECTION@, span))
        } else {
            match self.frames[s.frame as int].locals[s.local as int] {
                ValueView::Ref(inner) => if inner.frame < s.frame {
                    self.read_slot(inner.chained(s.path), span)
                } else {
                    Err(refused(NO_PROJECTION@, span))
                },
                v => self.walk_read(v, s.path, 0, span),
            }
        }
    }

    /// Replace what stands at the end of a path below a value; answers
    /// the value with the replacement.
    pub open spec fn patched(
        self,
        cur: ValueView,
        path: Seq<PStepView>,
        i: nat,
        v: ValueView,
        span: Span,
    ) -> (State<'t>, ValueView, Result<(), StopView>)
        decreases path.len() - i,
    {
        if i >= path.len() {
            (self, v, Ok(()))
        } else {
            match (path[i as int], cur) {
                (PStepView::Field(f), ValueView::Struct(fs)) => match field_value(fs, f, 0) {
                    Some(k) => {
                        let (m, nv, r) = self.patched(fs[k].1, path, i + 1, v, span);
                        (m, ValueView::Struct(fs.update(k, (fs[k].0, nv))), r)
                    },
                    None => (self, cur, Err(refused(NO_FIELD_WRITE@, span))),
                },
                (PStepView::ListIdx { index, span: isp }, ValueView::List(id)) => if id
                    >= self.lists.len() {
                    (self, cur, Err(refused(NO_PLACE_WRITE@, span)))
                } else if index < 0 || index >= self.lists[id as int].len() {
                    (self, cur, Err(trapped("bounds"@, "mem.ub.defined"@, isp)))
                } else {
                    let l = self.lists[id as int];
                    let hole = self.set_list(id as int, l.update(index as int, ValueView::Moved));
                    let (m, nv, r) = hole.patched(l[index as int], path, i + 1, v, span);
                    (m.fill_list(id, index, nv), cur, r)
                },
                (
                    PStepView::PoolIdx { index, generation, span: isp },
                    ValueView::Pool(id),
                ) => if id >= self.pools.len() {
                    (self, cur, Err(refused(NO_PLACE_WRITE@, span)))
                } else if self.stale(id as int, index, generation) {
                    (self, cur, Err(trapped("stale-handle"@, "mem.shared.handle.2"@, isp)))
                } else {
                    let e = self.pools[id as int][index as int].value;
                    let hole = self.fill_pool(id, index, ValueView::Moved);
                    let (m, nv, r) = hole.patched(e, path, i + 1, v, span);
                    (m.fill_pool(id, index, nv), cur, r)
                },
                _ => (self, cur, Err(refused(NO_PLACE_WRITE@, span))),
            }
        }
    }

    /// Put a value at a position of a list.
    pub open spec fn fill_list(self, id: usize, index: i64, v: ValueView) -> State<'t> {
        if id < self.lists.len() && 0 <= index < self.lists[id as int].len() {
            self.set_list(id as int, self.lists[id as int].update(index as int, v))
        } else {
            self
        }
    }

    /// Put a value into a pool slot.
    pub open spec fn fill_pool(self, id: usize, index: usize, v: ValueView) -> State<'t> {
        if id < self.pools.len() && index < self.pools[id as int].len() {
            let s = self.pools[id as int][index as int];
            self.set_pool(
                id as int,
                self.pools[id as int].update(index as int, PoolSlotView { value: v, ..s }),
            )
        } else {
            self
        }
    }

    /// Write through a place.
    pub open spec fn write_slot(self, s: SlotView, v: ValueView, span: Span) -> Did<'t>
        decreases s.frame,
    {
        if !self.has_local(s.frame, s.local) {
            (self, Err(refused(NO_PLACE_WRITE@, span)))
        } else {
            let root = self.frames[s.frame as int].locals[s.local as int];
            match root {
                ValueView::Ref(inner) => if inner.frame < s.frame {
                    self.write_slot(inner.chained(s.path), v, span)
                } else {
                    (self, Err(refused(NO_PLACE_WRITE@, span)))
                },
                _ => if s.path.len() == 0 {
                    (self.set_local(s.frame, s.local, v), Ok(()))
                } else {
                    let hole = self.set_local(s.frame, s.local, ValueView::Moved);
                    let (m, nv, r) = hole.patched(root, s.path, 0, v, span);
                    (m.set_local(s.frame, s.local, nv), r)
                },
            }
        }
    }

    /// Use a place in value position: a copy, or a move out.
    pub open spec fn take_slot(self, s: SlotView, span: Span) -> Gave<'t> {
        match self.read_slot(s, span) {
            Err(e) => (self, Err(e)),
            Ok(v) => if v.copies() {
                (self, Ok(v))
            } else if s.path.len() == 0 {
                match self.frames[s.frame as int].locals[s.local as int] {
                    ValueView::Ref(_) => (self, Ok(v)),
                    _ => (self.set_local(s.frame, s.local, ValueView::Moved), Ok(v)),
                }
            } else {
                match self.write_slot(s, ValueView::Moved, span) {
                    (m, Err(e)) => (m, Err(e)),
                    (m, Ok(_)) => (m, Ok(v)),
                }
            },
        }
    }
}

fn find_field(fs: &Vec<(String, Value)>, name: &str) -> (r: Option<usize>)
    ensures
        match r {
            Some(k) => k < fs@.len() && field_value(named_vals(fs@), name@, 0) == Some(k as int),
            None => field_value(named_vals(fs@), name@, 0) is None,
        },
{
    let mut i: usize = 0;
    while i < fs.len()
        invariant
            i <= fs@.len(),
            field_value(named_vals(fs@), name@, 0) == field_value(
                named_vals(fs@),
                name@,
                i as int,
            ),
        decreases fs.len() - i,
    {
        assert(named_vals(fs@)[i as int] == (fs@[i as int].0@, fs@[i as int].1@));
        if str_eq(fs[i].0.as_str(), name) {
            return Some(i);
        }
        i = i + 1;
    }
    None
}

/// The field of a struct value.
pub fn field_of(fs: &Vec<(String, Value)>, name: &str) -> (r: Option<Value>)
    ensures
        match r {
            Some(v) => field_value(named_vals(fs@), name@, 0) matches Some(k)
                && named_vals(fs@)[k].1 == v@,
            None => field_value(named_vals(fs@), name@, 0) is None,
        },
{
    match find_field(fs, name) {
        Some(k) => Some(fs[k].1.duplicate()),
        None => None,
    }
}

impl<'t> Machine<'t> {
    pub fn is_stale(&self, pool: usize, index: usize, generation: i64) -> (r: bool)
        requires
            pool < self.pools@.len(),
        ensures
            r == self@.stale(pool as int, index, generation),
            !r ==> index < self.pools@[pool as int]@.len(),
    {
        assert(self@.pools[pool as int] == pool_views(self.pools@[pool as int]@));
        index >= self.pools[pool].len() || self.pools[pool][index].generation != generation
            || !self.pools[pool][index].live
    }

    #[verifier::truncate]
    #[verifier::spinoff_prover]
    pub fn walk_read(&self, cur: Value, path: &Vec<PStep>, i: usize, span: Span) -> (r: Result<
        Value,
        Stop,
    >)
        requires
            i <= path@.len(),
        ensures
            value_result(r) == self@.walk_read(cur@, step_views(path@), i as nat, span),
        decreases path@.len() - i,
    {
        if i >= path.len() {
            return Ok(cur);
        }
        assert(step_views(path@)[i as int] == path@[i as int]@);
        match (&path[i], &cur) {
            (PStep::Field(f), Value::Struct(fs)) => {
                proof {
                    lemma_named(*fs);
                }
                match field_of(fs, f.as_str()) {
                    Some(v) => self.walk_read(v, path, i + 1, span),
                    None => Err(refuse(NO_FIELD, span)),
                }
            },
            (PStep::Field(f), Value::Shared(c)) => {
                if *c >= self.cells.len() {
                    return Err(refuse(NO_PROJECTION, span));
                }
                assert(self@.cells[*c as int] == self.cells@[*c as int]@);
                match &self.cells[*c].value {
                    Value::Struct(fs) => {
                        proof {
                            lemma_named(*fs);
                        }
                        match field_of(fs, f.as_str()) {
                            Some(v) => self.walk_read(v, path, i + 1, span),
                            None => Err(refuse(NO_FIELD, span)),
                        }
                    },
                    _ => Err(refuse(NO_CELL_FIELD, span)),
                }
            },
            (PStep::Field(f), Value::List(id)) => {
                if str_eq(f.as_str(), "len") && *id < self.lists.len() {
                    assert(self@.lists[*id as int] == vals(self.lists@[*id as int]@));
                    self.walk_read(
                        Value::Int(self.lists[*id].len() as i64),
                        path,
                        i + 1,
                        span,
                    )
                } else {
                    Err(refuse(NO_PROJECTION, span))
                }
            },
            (PStep::Field(f), Value::Str(s)) => {
                if str_eq(f.as_str(), "len") {
                    self.walk_read(Value::Int(bytes_of(s.as_str()).len() as i64), path, i + 1, span)
                } else {
                    Err(refuse(NO_PROJECTION, span))
                }
            },
            (PStep::ListIdx { index, span: isp }, Value::List(id)) => {
                if *id >= self.lists.len() {
                    return Err(refuse(NO_PROJECTION, span));
                }
                assert(self@.lists[*id as int] == vals(self.lists@[*id as int]@));
                if *index < 0 || *index as u64 >= self.lists[*id].len() as u64 {
                    return Err(trap("bounds", "mem.ub.defined", *isp));
                }
                let v = self.lists[*id][*index as usize].duplicate();
                self.walk_read(v, path, i + 1, span)
            },
            (PStep::PoolIdx { index, generation, span: isp }, Value::Pool(id)) => {
                if *id >= self.pools.len() {
                    return Err(refuse(NO_PROJECTION, span));
                }
                if self.is_stale(*id, *index, *generation) {
                    return Err(trap("stale-handle", "mem.shared.handle.2", *isp));
                }
                assert(self@.pools[*id as int] == pool_views(self.pools@[*id as int]@));
                let v = self.pools[*id][*index].value.duplicate();
                self.walk_read(v, path, i + 1, span)
            },
            (_, Value::Moved) => Err(trap("use-after-move", "mem.tier0.move.2", span)),
            _ => Err(refuse(NO_PROJECTION, span)),
        }
    }

    /// Read through a place.
    pub fn read_place(&self, s: &Slot, span: Span) -> (r: Result<Value, Stop>)
        ensures
            value_result(r) == self@.read_slot(s@, span),
        decreases s.frame,
    {
        if s.frame >= self.frames.len() {
            return Err(refuse(NO_PROJECTION, span));
        }
        assert(self@.frames[s.frame as int] == self.frames@[s.frame as int]@);
        if s.local >= self.frames[s.frame].locals.len() {
            return Err(refuse(NO_PROJECTION, span));
        }
        let root = self.frames[s.frame].locals[s.local].duplicate();
        if let Value::Ref(inner) = &root {
            if inner.frame < s.frame {
                let c = inner.chained(&s.path);
                return self.read_place(&c, span);
            }
            return Err(refuse(NO_PROJECTION, span));
        }
        self.walk_read(root, &s.path, 0, span)
    }

    fn fill_list(&mut self, id: usize, index: i64, v: Value)
        requires
            old(self).inv(),
        ensures
            advanced(*old(self), *final(self)),
            final(self)@ == old(self)@.fill_list(id, index, v@),
    {
        let ghost was = self@;
        let ghost vv = v@;
        if id < self.lists.len() {
            assert(was.lists[id as int] == vals(self.lists@[id as int]@));
            if 0 <= index && (index as u64) < self.lists[id].len() as u64 {
                self.lists[id].set(index as usize, v);
                proof {
                    let want = was.fill_list(id, index, vv);
                    assert(vals(self.lists@[id as int]@) =~= want.lists[id as int]);
                    assert(self@.lists =~= want.lists);
                    assert(self@ =~= want);
                    reveal(Machine::inv);
                }
            }
        }
    }

    pub fn fill_pool(&mut self, id: usize, index: usize, v: Value)
        requires
            old(self).inv(),
        ensures
            advanced(*old(self), *final(self)),
            final(self)@ == old(self)@.fill_pool(id, index, v@),
    {
        let ghost was = self@;
        let ghost vv = v@;
        if id < self.pools.len() {
            assert(was.pools[id as int] == pool_views(self.pools@[id as int]@));
            if index < self.pools[id].len() {
                let generation: i64 = self.pools[id][index].generation;
                let live = self.pools[id][index].live;
                self.pools[id].set(index, PoolSlot { generation, live, value: v });
                proof {
                    let want = was.fill_pool(id, index, vv);
                    assert(pool_views(self.pools@[id as int]@)[index as int]
                        =~= want.pools[id as int][index as int]);
                    assert(pool_views(self.pools@[id as int]@) =~= want.pools[id as int]);
                    assert(self@.pools =~= want.pools);
                    assert(self@ =~= want);
                    reveal(Machine::inv);
                }
            }
        }
    }

    #[verifier::spinoff_prover]
    fn patch(&mut self, cur: Value, path: &Vec<PStep>, i: usize, v: Value, span: Span) -> (r: (
        Value,
        Result<(), Stop>,
    ))
        requires
            old(self).inv(),
            i <= path@.len(),
        ensures
            advanced(*old(self), *final(self)),
            (final(self)@, r.0@, done_result(r.1)) == old(self)@.patched(
                cur@,
                step_views(path@),
                i as nat,
                v@,
                span,
            ),
        decreases path@.len() - i,
    {
        if i >= path.len() {
            return (v, Ok(()));
        }
        assert(step_views(path@)[i as int] == path@[i as int]@);
        let ghost was = self@;
        let ghost cv = cur@;
        match cur {
            Value::Struct(fs) => {
                proof {
                    lemma_named(fs);
                }
                if let PStep::Field(f) = &path[i] {
                    match find_field(&fs, f.as_str()) {
                        Some(k) => {
                            let mut fs = fs;
                            let ghost before = named_vals(fs@);
                            let name = fs[k].0.clone();
                            let slot = fs[k].1.duplicate();
                            let (nv, r) = self.patch(slot, path, i + 1, v, span);
                            let ghost nvv = nv@;
                            fs.set(k, (name, nv));
                            proof {
                                lemma_named(fs);
                                assert(named_vals(fs@) =~= before.update(
                                    k as int,
                                    (before[k as int].0, nvv),
                                ));
                            }
                            (Value::Struct(fs), r)
                        },
                        None => (Value::Struct(fs), Err(refuse(NO_FIELD_WRITE, span))),
                    }
                } else {
                    (Value::Struct(fs), Err(refuse(NO_PLACE_WRITE, span)))
                }
            },
            Value::List(id) => {
                if let PStep::ListIdx { index, span: isp } = &path[i] {
                    if id >= self.lists.len() {
                        return (Value::List(id), Err(refuse(NO_PLACE_WRITE, span)));
                    }
                    assert(was.lists[id as int] == vals(self.lists@[id as int]@));
                    if *index < 0 || *index as u64 >= self.lists[id].len() as u64 {
                        return (Value::List(id), Err(trap("bounds", "mem.ub.defined", *isp)));
                    }
                    let elem = self.lists[id][*index as usize].duplicate();
                    self.fill_list(id, *index, Value::Moved);
                    let (nv, r) = self.patch(elem, path, i + 1, v, span);
                    self.fill_list(id, *index, nv);
                    (Value::List(id), r)
                } else {
                    (Value::List(id), Err(refuse(NO_PLACE_WRITE, span)))
                }
            },
            Value::Pool(id) => {
                if let PStep::PoolIdx { index, generation, span: isp } = &path[i] {
                    if id >= self.pools.len() {
                        return (Value::Pool(id), Err(refuse(NO_PLACE_WRITE, span)));
                    }
                    if self.is_stale(id, *index, *generation) {
                        return (
                            Value::Pool(id),
                            Err(trap("stale-handle", "mem.shared.handle.2", *isp)),
                        );
                    }
                    assert(was.pools[id as int] == pool_views(self.pools@[id as int]@));
                    let elem = self.pools[id][*index].value.duplicate();
                    self.fill_pool(id, *index, Value::Moved);
                    let (nv, r) = self.patch(elem, path, i + 1, v, span);
                    self.fill_pool(id, *index, nv);
                    (Value::Pool(id), r)
                } else {
                    (Value::Pool(id), Err(refuse(NO_PLACE_WRITE, span)))
                }
            },
            other => (other, Err(refuse(NO_PLACE_WRITE, span))),
        }
    }

    /// Write through a place.
    pub fn write_place(&mut self, s: &Slot, v: Value, span: Span) -> (r: Result<(), Stop>)
        requires
            old(self).inv(),
        ensures
            advanced(*old(self), *final(self)),
            (final(self)@, done_result(r)) == old(self)@.write_slot(s@, v@, span),
        decreases s.frame,
    {
        if s.frame >= self.frames.len() {
            return Err(refuse(NO_PLACE_WRITE, span));
        }
        assert(self@.frames[s.frame as int] == self.frames@[s.frame as int]@);
        if s.local >= self.frames[s.frame].locals.len() {
            return Err(refuse(NO_PLACE_WRITE, span));
        }
        let root = self.frames[s.frame].locals[s.local].duplicate();
        if let Value::Ref(inner) = &root {
            if inner.frame < s.frame {
                let c = inner.chained(&s.path);
                return self.write_place(&c, v, span);
            }
            return Err(refuse(NO_PLACE_WRITE, span));
        }
        if s.path.len() == 0 {
            self.set_local(s.frame, s.local, v);
            return Ok(());
        }
        self.set_local(s.frame, s.local, Value::Moved);
        let (nv, r) = self.patch(root, &s.path, 0, v, span);
        self.set_local(s.frame, s.local, nv);
        r
    }

    /// Use a place in value position.
    pub fn take_value(&mut self, s: &Slot, span: Span) -> (r: Result<Value, Stop>)
        requires
            old(self).inv(),
        ensures
            advanced(*old(self), *final(self)),
            (final(self)@, value_result(r)) == old(self)@.take_slot(s@, span),
    {
        let v = match self.read_place(s, span) {
            Ok(v) => v,
            Err(e) => return Err(e),
        };
        if v.is_copy() {
            return Ok(v);
        }
        if s.path.len() == 0 {
            if s.frame < self.frames.len() {
                assert(self@.frames[s.frame as int] == self.frames@[s.frame as int]@);
                if s.local < self.frames[s.frame].locals.len() {
                    let alias = match &self.frames[s.frame].locals[s.local] {
                        Value::Ref(_) => true,
                        _ => false,
                    };
                    if !alias {
                        self.set_local(s.frame, s.local, Value::Moved);
                    }
                }
            }
            Ok(v)
        } else {
            match self.write_place(s, Value::Moved, span) {
                Err(e) => Err(e),
                Ok(_) => Ok(v),
            }
        }
    }
}

/// A read through a place right after a write through it gives back the
/// written value, for a plain local.
pub proof fn law_local_read_back<'t>(m: State<'t>, s: SlotView, v: ValueView, span: Span)
    requires
        m.has_local(s.frame, s.local),
        s.path.len() == 0,
        !(m.frames[s.frame as int].locals[s.local as int] is Ref),
        !(v is Ref),
    ensures
        m.write_slot(s, v, span).1 is Ok,
        m.write_slot(s, v, span).0.read_slot(s, span) == Ok::<ValueView, StopView>(v),
{
    let w = m.write_slot(s, v, span).0;
    assert(w.has_local(s.frame, s.local));
    assert(w.frames[s.frame as int].locals[s.local as int] == v);
}

/// A moved-from local is never read again: any projection of it traps.
pub proof fn law_moved_is_not_read<'t>(m: State<'t>, s: SlotView, span: Span)
    requires
        m.has_local(s.frame, s.local),
        m.frames[s.frame as int].locals[s.local as int] is Moved,
        s.path.len() > 0,
    ensures
        m.read_slot(s, span) == Err::<ValueView, StopView>(
            trapped("use-after-move"@, "mem.tier0.move.2"@, span),
        ),
{
}

/// A removed pool slot never answers to an old handle again.
pub proof fn law_stale_handle_traps<'t>(
    m: State<'t>,
    id: usize,
    index: usize,
    generation: i64,
    path: Seq<PStepView>,
    span: Span,
    isp: Span,
)
    requires
        id < m.pools.len(),
        m.stale(id as int, index, generation),
        path.len() > 0,
        path[0] == (PStepView::PoolIdx { index, generation, span: isp }),
    ensures
        m.walk_read(ValueView::Pool(id), path, 0, span) == Err::<ValueView, StopView>(
            trapped("stale-handle"@, "mem.shared.handle.2"@, isp),
        ),
{
}

impl<'t> State<'t> {
    /// The value a place holds now.
    #[verifier::opaque]
    pub open spec fn read_at(self, s: SlotView, span: Span) -> Result<ValueView, StopView> {
        self.read_slot(s, span)
    }
}

impl<'t> Machine<'t> {
    /// Read the value a place holds now.
    pub fn read_at(&self, s: &Slot, span: Span) -> (r: Result<Value, Stop>)
        ensures
            value_result(r) == self@.read_at(s@, span),
    {
        proof {
            reveal(State::read_at);
        }
        self.read_place(s, span)
    }
}

/// A question that stopped a run is answered by the next answer recorded.
pub proof fn law_answer_is_taken<'t>(
    m: State<'t>,
    heard: Seq<ReplyView>,
    q: RequestView,
    r: ReplyView,
)
    requires
        m.host.pos == heard.len(),
        heard.len() < usize::MAX,
    ensures
        m.asked(heard, q) == (m, Err::<ReplyView, StopView>(StopView::Ask(q))),
        m.asked(heard.push(r), q).1 == Ok::<ReplyView, StopView>(r),
        m.asked(heard.push(r), q).0.host.pos == m.host.pos + 1,
{
}

} // verus!

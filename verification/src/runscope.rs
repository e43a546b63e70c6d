//! Scopes and their exit duties, calls of bodies, run.

use vstd::prelude::*;
use vstd::string::*;
use vstd::utf8::*;

use crate::ast::{BodyKind, FnParam};
use crate::evaluate::{
    NO_BODY, call_body, close_scope, closed_with, entered, exit_scopes, fewer_strong, fewer_weak,
    guarded_call, leave, left, open_scopes, param_name, run_duties, taken_duties,
};
use crate::machine::{
    Duty, Frame, Machine, NO_DEPTH, Scope, advanced, name_views, pair_views, scope_views,
};
use crate::package::Package;
use crate::semantics::{Here, call_level, close_level, duty_level};
use crate::text::{dec, lit};
use crate::value::{
    Flow, FlowView, Stop, Value, ValueView, done_result, flow_result, refuse, vals, value_result,
};

verus! {

fn copy_duties<'t>(v: &Vec<Duty<'t>>) -> (r: Vec<Duty<'t>>)
    ensures
        r@ == v@,
{
    let mut out: Vec<Duty<'t>> = Vec::new();
    let mut i: usize = 0;
    while i < v.len()
        invariant
            i <= v@.len(),
            out@ == v@.take(i as int),
        decreases v.len() - i,
    {
        out.push(v[i]);
        i = i + 1;
        assert(out@ =~= v@.take(i as int));
    }
    assert(out@ =~= v@);
    out
}

fn arg_names(ps: &Vec<FnParam>, count: usize) -> (r: Vec<(String, usize)>)
    ensures
        name_views(r@) == Seq::new(count as nat, |i: int| (param_name(ps@, i), i as usize)),
{
    let mut out: Vec<(String, usize)> = Vec::new();
    let mut i: usize = 0;
    while i < count
        invariant
            i <= count,
            out@.len() == i,
            forall|k: int|
                0 <= k < i ==> (#[trigger] out@[k]).0@ == param_name(ps@, k) && out@[k].1 == k,
        decreases count - i,
    {
        let name = if i < ps.len() {
            ps[i].name.clone()
        } else {
            lit("_").concat(dec(i as u64).as_str())
        };
        out.push((name, i));
        i = i + 1;
    }
    assert(name_views(out@) =~= Seq::new(
        count as nat,
        |i: int| (param_name(ps@, i), i as usize),
    ));
    out
}

pub fn returned_flow(v: Value) -> (r: Flow)
    ensures
        r@ == (if v@ is ErrTag {
            FlowView::Raise(v@, false)
        } else {
            FlowView::Val(v@)
        }),
{
    let raised = match &v {
        Value::ErrTag { .. } => true,
        _ => false,
    };
    if raised {
        Flow::Raise(v, false)
    } else {
        Flow::Val(v)
    }
}

impl<'t> Machine<'t> {
    fn fewer_strong(&mut self, c: usize)
        requires
            old(self).inv(),
        ensures
            advanced(*old(self), *final(self)),
            final(self)@ == fewer_strong(old(self)@, c),
    {
        let ghost was = self@;
        if c < self.cells.len() && self.cells[c].strong > 0 {
            assert(was.cells[c as int] == self.cells@[c as int]@);
            self.cells[c].strong = self.cells[c].strong - 1;
            proof {
                assert(self@.cells =~= fewer_strong(was, c).cells);
                assert(self@ =~= fewer_strong(was, c));
                reveal(Machine::inv);
            }
        } else {
            assert(c < self.cells@.len() ==> was.cells[c as int] == self.cells@[c as int]@);
        }
    }

    fn fewer_weak(&mut self, c: usize)
        requires
            old(self).inv(),
        ensures
            advanced(*old(self), *final(self)),
            final(self)@ == fewer_weak(old(self)@, c),
    {
        let ghost was = self@;
        if c < self.cells.len() && self.cells[c].weak > 0 {
            assert(was.cells[c as int] == self.cells@[c as int]@);
            self.cells[c].weak = self.cells[c].weak - 1;
            proof {
                assert(self@.cells =~= fewer_weak(was, c).cells);
                assert(self@ =~= fewer_weak(was, c));
                reveal(Machine::inv);
            }
        } else {
            assert(c < self.cells@.len() ==> was.cells[c as int] == self.cells@[c as int]@);
        }
    }

    pub(crate) fn free_region(&mut self, r: usize)
        requires
            old(self).inv(),
        ensures
            advanced(*old(self), *final(self)),
            final(self)@ == old(self)@.with_shadow(old(self)@.sh.free_region(r as int)),
    {
        let ghost was = self@;
        proof {
            reveal(Machine::inv);
        }
        self.sh.free_region(r);
        assert(self@ =~= was.with_shadow(was.sh.free_region(r as int)));
    }

    /// A plain duty: drop a cell or free a region.
    fn discharge(&mut self, d: Duty<'t>)
        requires
            old(self).inv(),
        ensures
            advanced(*old(self), *final(self)),
            final(self)@ == (match d {
                Duty::Defer(..) => old(self)@,
                Duty::DropLocal(i) => match old(self)@.top_local(i) {
                    ValueView::Shared(c) => fewer_strong(old(self)@, c),
                    ValueView::Weak(c) => fewer_weak(old(self)@, c),
                    _ => old(self)@,
                },
                Duty::FreeRegionLocal(i) => match old(self)@.top_local(i) {
                    ValueView::Region(r) => if r < old(self)@.sh.regions.len()
                        && old(self)@.sh.regions[r as int].live
                        && !old(self)@.sh.regions[r as int].frozen {
                        old(self)@.with_shadow(old(self)@.sh.free_region(r as int))
                    } else {
                        old(self)@
                    },
                    _ => old(self)@,
                },
            }),
    {
        match d {
            Duty::Defer(..) => {},
            Duty::DropLocal(i) => match self.top_local(i) {
                Value::Shared(c) => self.fewer_strong(c),
                Value::Weak(c) => self.fewer_weak(c),
                _ => {},
            },
            Duty::FreeRegionLocal(i) => match self.top_local(i) {
                Value::Region(r) => {
                    if r < self.sh.regions.len() && self.sh.regions[r].live
                        && !self.sh.regions[r].frozen {
                        self.free_region(r);
                    }
                },
                _ => {},
            },
        }
    }

    fn take_duties(&mut self) -> (r: Vec<Duty<'t>>)
        requires
            old(self).inv(),
        ensures
            advanced(*old(self), *final(self)),
            (final(self)@, r@) == taken_duties(old(self)@),
    {
        let ghost was = self@;
        let n: usize = self.frames.len();
        if n == 0 {
            return Vec::new();
        }
        assert(was.frames[n - 1] == self.frames@[n - 1]@);
        let k: usize = self.frames[n - 1].scopes.len();
        if k == 0 {
            return Vec::new();
        }
        assert(was.frames[n - 1].scopes[k - 1] == self.frames@[n - 1].scopes@[k - 1]@);
        let out = copy_duties(&self.frames[n - 1].scopes[k - 1].duties);
        let none: Vec<Duty<'t>> = Vec::new();
        self.frames[n - 1].scopes[k - 1].duties = none;
        proof {
            let m = taken_duties(was).0;
            assert(self.frames@[n - 1].scopes@[k - 1]@ =~= m.frames[n - 1].scopes[k - 1]);
            assert(self.frames@[n - 1]@.scopes =~= m.frames[n - 1].scopes);
            assert(self.frames@[n - 1]@ =~= m.frames[n - 1]);
            assert(self@.frames =~= m.frames);
            assert(self@ =~= m);
            reveal(Machine::inv);
        }
        out
    }

    /// Run scope-exit duties, last declared first.
    #[verifier::spinoff_prover]
    pub(crate) fn run_duties(
        &mut self,
        h: Here,
        ds: &Vec<Duty<'t>>,
        on_error: bool,
    ) -> (r: Result<(), Stop>)
        requires
            old(self).inv(),
        ensures
            advanced(*old(self), *final(self)),
            (final(self)@, done_result(r)) == run_duties(
                old(self).world(),
                h,
                old(self)@,
                ds@,
                ds@.len(),
                on_error,
            ),
        decreases h.depth, duty_level(h.in_defer), None::<nat>, 0nat, 0nat,
    {
        proof {
            reveal(run_duties);
        }
        let ghost start = *self;
        let ghost w = self.world();
        let mut n: usize = ds.len();
        while n > 0
            invariant
                n <= ds@.len(),
                start == *old(self),
                w == start.world(),
                advanced(start, *self),
                run_duties(w, h, start@, ds@, ds@.len(), on_error) == run_duties(
                    w,
                    h,
                    self@,
                    ds@,
                    n as nat,
                    on_error,
                ),
            decreases n,
        {
            proof {
                reveal(run_duties);
            }
            match ds[n - 1] {
                Duty::Defer(e, is_err) => {
                    if !((is_err && !on_error) || h.in_defer) {
                        match self.eval(Here { in_defer: true, ..h }, e) {
                            Err(s) => return Err(s),
                            Ok(_) => {},
                        }
                    }
                },
                d => self.discharge(d),
            }
            n = n - 1;
        }
        Ok(())
    }

    /// Run the innermost scope's duties and pop it.
    #[verifier::spinoff_prover]
    pub(crate) fn close_scope(&mut self, h: Here, on_error: bool) -> (r: Result<(), Stop>)
        requires
            old(self).inv(),
        ensures
            advanced(*old(self), *final(self)),
            (final(self)@, done_result(r)) == close_scope(old(self).world(), h, old(self)@, on_error),
        decreases h.depth, close_level(h.in_defer), None::<nat>, 0nat, 0nat,
    {
        proof {
            reveal(close_scope);
        }
        let ds = self.take_duties();
        match self.run_duties(h, &ds, on_error) {
            Err(s) => Err(s),
            Ok(_) => {
                self.pop_scope();
                Ok(())
            },
        }
    }

    /// Close the innermost scopes.
    #[verifier::spinoff_prover]
    pub(crate) fn exit_scopes(
        &mut self,
        h: Here,
        count: usize,
        on_error: bool,
    ) -> (r: Result<(), Stop>)
        requires
            old(self).inv(),
        ensures
            advanced(*old(self), *final(self)),
            (final(self)@, done_result(r)) == exit_scopes(
                old(self).world(),
                h,
                old(self)@,
                count as nat,
                on_error,
            ),
        decreases h.depth, close_level(h.in_defer), None::<nat>, 1nat, 0nat,
    {
        proof {
            reveal(exit_scopes);
        }
        let ghost start = *self;
        let ghost w = self.world();
        let mut n: usize = count;
        while n > 0
            invariant
                start == *old(self),
                w == start.world(),
                advanced(start, *self),
                exit_scopes(w, h, start@, count as nat, on_error) == exit_scopes(
                    w,
                    h,
                    self@,
                    n as nat,
                    on_error,
                ),
            decreases n,
        {
            proof {
                reveal(exit_scopes);
            }
            match self.close_scope(h, on_error) {
                Err(s) => return Err(s),
                Ok(_) => {},
            }
            n = n - 1;
        }
        Ok(())
    }

    /// Close the innermost scope behind a flow.
    #[verifier::spinoff_prover]
    pub(crate) fn leave(&mut self, h: Here, f: Flow) -> (r: Result<Flow, Stop>)
        requires
            old(self).inv(),
        ensures
            advanced(*old(self), *final(self)),
            (final(self)@, flow_result(r)) == leave(old(self).world(), h, old(self)@, f@),
        decreases h.depth, close_level(h.in_defer), None::<nat>, 1nat, 0nat,
    {
        proof {
            reveal(leave);
        }
        let raised = match &f {
            Flow::Raise(..) => true,
            _ => false,
        };
        match self.close_scope(h, raised) {
            Err(s) => Err(s),
            Ok(_) => Ok(f),
        }
    }

    fn enter(&mut self, ps: &'t Vec<FnParam>, args: Vec<Value>)
        requires
            old(self).inv(),
        ensures
            advanced(*old(self), *final(self)),
            final(self)@ == entered(old(self)@, ps@, vals(args@)),
    {
        let ghost was = self@;
        let ghost av = vals(args@);
        let names = arg_names(ps, args.len());
        let none: Vec<Duty<'t>> = Vec::new();
        let scope = Scope { names, duties: none };
        let mut scopes: Vec<Scope<'t>> = Vec::new();
        scopes.push(scope);
        let self_ty = self.pending_self.take();
        let rigids = match self.pending_rigids.take() {
            Some(r) => r,
            None => Vec::new(),
        };
        let frame = Frame { locals: args, scopes, self_ty, rigids };
        let ghost fv = frame@;
        self.frames.push(frame);
        proof {
            let m = entered(was, ps@, av);
            let want = m.frames.last();
            assert(scope@ =~= want.scopes[0]);
            assert(scope_views(scopes@) =~= want.scopes);
            assert(pair_views(rigids@) =~= want.rigids);
            assert(fv =~= want);
            assert(self@.frames =~= m.frames);
            assert(self@ =~= m);
            reveal(Machine::inv);
        }
    }

    fn leave_frame(&mut self)
        requires
            old(self).inv(),
        ensures
            advanced(*old(self), *final(self)),
            final(self)@ == left(old(self)@),
    {
        let ghost was = self@;
        if self.frames.len() > 0 {
            let _ = self.frames.pop();
            proof {
                assert(self@.frames =~= was.frames.drop_last());
                assert(self@ =~= left(was));
                reveal(Machine::inv);
            }
        }
    }

    fn open_scopes(&self) -> (r: usize)
        ensures
            r == open_scopes(self@),
    {
        let n: usize = self.frames.len();
        if n == 0 {
            0
        } else {
            assert(self@.frames[n - 1] == self.frames@[n - 1]@);
            self.frames[n - 1].scopes.len()
        }
    }

    /// What a finished body gives its caller, its scopes closed.
    #[verifier::spinoff_prover]
    pub(crate) fn finish(&mut self, h: Here, f: Flow) -> (r: Result<Value, Stop>)
        requires
            old(self).inv(),
        ensures
            advanced(*old(self), *final(self)),
            (final(self)@, value_result(r)) == (match f@ {
                FlowView::Val(v) | FlowView::Return(v) => closed_with(
                    exit_scopes(
                        old(self).world(),
                        h,
                        old(self)@,
                        open_scopes(old(self)@),
                        false,
                    ),
                    v,
                ),
                FlowView::Raise(v, _) => closed_with(
                    exit_scopes(
                        old(self).world(),
                        h,
                        old(self)@,
                        open_scopes(old(self)@),
                        true,
                    ),
                    v,
                ),
                _ => (old(self)@, Ok(ValueView::Unit)),
            }),
        decreases h.depth, close_level(h.in_defer), None::<nat>, 2nat, 0nat,
    {
        let count: usize = self.open_scopes();
        match f {
            Flow::Val(v) => match self.exit_scopes(h, count, false) {
                Err(s) => Err(s),
                Ok(_) => Ok(v),
            },
            Flow::Return(v) => match self.exit_scopes(h, count, false) {
                Err(s) => Err(s),
                Ok(_) => Ok(v),
            },
            Flow::Raise(v, _) => match self.exit_scopes(h, count, true) {
                Err(s) => Err(s),
                Ok(_) => Ok(v),
            },
            _ => Ok(Value::Unit),
        }
    }

    /// Call a body and release what its arguments protected.
    #[verifier::spinoff_prover]
    pub(crate) fn guarded_call(&mut self, h: Here, body: usize, args: Vec<Value>, mark: usize) -> (r:
        Result<Flow, Stop>)
        requires
            old(self).inv(),
        ensures
            advanced(*old(self), *final(self)),
            (final(self)@, flow_result(r)) == guarded_call(
                old(self).world(),
                h,
                old(self)@,
                body as int,
                vals(args@),
                mark as nat,
            ),
        decreases h.depth, call_level(h.in_defer), None::<nat>, 1nat, 0nat,
    {
        proof {
            reveal(guarded_call);
        }
        match self.call_body(h, body, args) {
            Err(s) => Err(s),
            Ok(v) => {
                self.release(mark);
                Ok(returned_flow(v))
            },
        }
    }

    /// Call a body with its argument values.
    #[verifier::spinoff_prover]
    pub(crate) fn call_body(
        &mut self,
        h: Here,
        body: usize,
        args: Vec<Value>,
    ) -> (r: Result<Value, Stop>)
        requires
            old(self).inv(),
        ensures
            advanced(*old(self), *final(self)),
            (final(self)@, value_result(r)) == call_body(
                old(self).world(),
                h,
                old(self)@,
                body as int,
                vals(args@),
            ),
        decreases h.depth, call_level(h.in_defer), None::<nat>, 0nat, 0nat,
    {
        proof {
            reveal(call_body);
        }
        if h.depth == 0 {
            return Err(Stop::Budget(NO_DEPTH));
        }
        let pkg: &'t Package = self.pkg;
        if body >= pkg.bodies.len() {
            return Err(Stop::Budget(NO_DEPTH));
        }
        match &pkg.bodies[body].kind {
            BodyKind::Fn(d) => match &d.body {
                None => Err(refuse(NO_BODY, d.span)),
                Some(block) => {
                    let inner = Here { body, depth: h.depth - 1, ..h };
                    self.enter(&d.params, args);
                    let out = match self.eval_block(inner, block, true) {
                        Err(s) => Err(s),
                        Ok(f) => self.finish(inner, f),
                    };
                    self.leave_frame();
                    out
                },
            },
            BodyKind::Init(e) => Err(refuse(NO_BODY, e.span)),
        }
    }
}

} // verus!

//! The process, environment, time, JSON and text built-ins, run.

use vstd::prelude::*;
use vstd::string::*;
use vstd::utf8::*;

use crate::builtin::{
    ARGV_ITEM, ByteArg, JSON_SHAPE, NO_JSON, NO_OS, NO_SIGNAL, NO_TIME, OS_SHAPE, TIME_SHAPE,
    UTF8_ITEMS, UTF8_SHAPE, ask_of, builtin_call, child_live, env_at, env_get, env_lines, env_put,
    env_set, env_slot, env_vars, fs_row_of, has_byte, host_env, is_builtin, is_json, is_os, is_time,
    json_builtin, lemma_env_lines_text, lemma_put_text, os_builtin, os_kill, os_random, os_signal,
    os_spawn, os_wait, overlaid, reaped, signal_at, sorted_env, str_from_utf8, str_in,
    texts_request, time_builtin, words_of,
};
use crate::diag::Span;
use crate::literal::extend;
use crate::machine::{HostView, Machine, advanced, env_views};
use crate::methods::{arg_at, int_values, raised};
use crate::runbase::opt_body;
use crate::runfile::{files, int_arg, prints, str_arg};
use crate::runnet::nets;
use crate::semantics::{BAD_REPLY, raises};
use crate::strs::is_text;
use crate::text::str_eq;
use crate::value::{
    Flow, HostOp, Reply, ReplyView, Request, RequestView, Stop, Value, ValueView, byte_views,
    bytes_before, bytes_equal, bytes_of, copy_bytes, flow_result, refuse, str_value, trap, vals,
};

verus! {

pub fn times(n: &str) -> (r: bool)
    ensures
        r == is_time(n@),
{
    str_eq(n, "time_now_ms") || str_eq(n, "time_unix_ms") || str_eq(n, "time_sleep_ms")
}

pub fn jsons(n: &str) -> (r: bool)
    ensures
        r == is_json(n@),
{
    str_eq(n, "json_valid") || str_eq(n, "json_get") || str_eq(n, "json_type") || str_eq(
        n,
        "json_len",
    )
}

pub fn processes(n: &str) -> (r: bool)
    ensures
        r == is_os(n@),
{
    str_eq(n, "env_args") || str_eq(n, "env_get") || str_eq(n, "env_set") || str_eq(n, "env_vars")
        || str_eq(n, "os_cwd") || str_eq(n, "os_exe") || str_eq(n, "os_exit") || str_eq(
        n,
        "os_spawn",
    ) || str_eq(n, "os_wait") || str_eq(n, "os_kill") || str_eq(n, "os_signal_listen") || str_eq(
        n,
        "os_signal_wait",
    ) || str_eq(n, "os_signal_raise") || str_eq(n, "os_random")
}

// ------------------------------------------------------------ environment --

fn find_env(v: &Vec<(Vec<u8>, Vec<u8>)>, key: &Vec<u8>) -> (r: Option<usize>)
    ensures
        opt_body(r) == env_at(env_views(v@), key@, 0),
        r matches Some(i) ==> i < v@.len(),
{
    let mut i: usize = 0;
    while i < v.len()
        invariant
            i <= v@.len(),
            env_at(env_views(v@), key@, 0) == env_at(env_views(v@), key@, i as int),
        decreases v.len() - i,
    {
        assert(env_views(v@)[i as int] == (v@[i as int].0@, v@[i as int].1@));
        if bytes_equal(&v[i].0, key) {
            return Some(i);
        }
        i = i + 1;
    }
    None
}

fn put_env(v: &mut Vec<(Vec<u8>, Vec<u8>)>, key: Vec<u8>, x: Vec<u8>)
    ensures
        env_views(final(v)@) == env_put(env_views(old(v)@), key@, x@),
{
    let ghost was = env_views(v@);
    let ghost kv = key@;
    let ghost xv = x@;
    match find_env(v, &key) {
        Some(i) => {
            v.set(i, (key, x));
            assert(env_views(v@) =~= was.update(i as int, (kv, xv)));
        },
        None => {
            v.push((key, x));
            assert(env_views(v@) =~= was.push((kv, xv)));
        },
    }
}

fn holds_byte(b: &Vec<u8>, c: u8) -> (r: bool)
    ensures
        r == has_byte(b@, c),
{
    let mut i: usize = 0;
    while i < b.len()
        invariant
            i <= b@.len(),
            forall|k: int| 0 <= k < i ==> #[trigger] b@[k] != c,
        decreases b.len() - i,
    {
        if b[i] == c {
            assert(b@[i as int] == c);
            return true;
        }
        i = i + 1;
    }
    false
}

fn base_env(v: &Vec<Vec<u8>>) -> (r: Vec<(Vec<u8>, Vec<u8>)>)
    ensures
        env_views(r@) == host_env(byte_views(v@), byte_views(v@).len() / 2),
{
    let ghost all = byte_views(v@);
    let half: usize = v.len() / 2;
    let mut out: Vec<(Vec<u8>, Vec<u8>)> = Vec::new();
    let mut i: usize = 0;
    assert(env_views(out@) =~= Seq::empty());
    while i < half
        invariant
            i <= half,
            half == v@.len() / 2,
            all == byte_views(v@),
            env_views(out@) == host_env(all, i as nat),
        decreases half - i,
    {
        let total: usize = v.len();
        assert(all[2 * i] == v@[2 * i]@);
        assert(all[2 * i + 1] == v@[2 * i + 1]@);
        if is_text(&v[2 * i]) && is_text(&v[2 * i + 1]) {
            let key = copy_bytes(&v[2 * i]);
            let x = copy_bytes(&v[2 * i + 1]);
            put_env(&mut out, key, x);
        }
        i = i + 1;
    }
    out
}

fn overlay(base: Vec<(Vec<u8>, Vec<u8>)>, own: &Vec<(Vec<u8>, Vec<u8>)>) -> (r: Vec<
    (Vec<u8>, Vec<u8>),
>)
    ensures
        env_views(r@) == overlaid(env_views(base@), env_views(own@), own@.len()),
{
    let ghost all = env_views(own@);
    let ghost first = env_views(base@);
    let mut out = base;
    let mut i: usize = 0;
    while i < own.len()
        invariant
            i <= own@.len(),
            all == env_views(own@),
            env_views(out@) == overlaid(first, all, i as nat),
        decreases own.len() - i,
    {
        assert(all[i as int] == (own@[i as int].0@, own@[i as int].1@));
        let key = copy_bytes(&own[i].0);
        let x = copy_bytes(&own[i].1);
        put_env(&mut out, key, x);
        i = i + 1;
    }
    out
}

fn sort_env(v: &Vec<(Vec<u8>, Vec<u8>)>) -> (r: Vec<(Vec<u8>, Vec<u8>)>)
    ensures
        env_views(r@) == sorted_env(env_views(v@), v@.len()),
{
    let ghost all = env_views(v@);
    let mut out: Vec<(Vec<u8>, Vec<u8>)> = Vec::new();
    let mut i: usize = 0;
    assert(env_views(out@) =~= sorted_env(all, 0));
    while i < v.len()
        invariant
            i <= v@.len(),
            all == env_views(v@),
            env_views(out@) == sorted_env(all, i as nat),
        decreases v.len() - i,
    {
        let ghost was = env_views(out@);
        let key = copy_bytes(&v[i].0);
        let x = copy_bytes(&v[i].1);
        let ghost kv = key@;
        let ghost xv = x@;
        assert((kv, xv) == all[i as int]);
        let mut k: usize = out.len();
        while k > 0 && bytes_before(&key, &out[k - 1].0)
            invariant
                k <= out@.len(),
                was == env_views(out@),
                kv == key@,
                env_slot(was, kv, was.len()) == env_slot(was, kv, k as nat),
            decreases k,
        {
            assert(was[k - 1] == (out@[k - 1].0@, out@[k - 1].1@));
            k = k - 1;
        }
        assert(k as nat == env_slot(was, kv, k as nat)) by {
            if k > 0 {
                assert(was[k - 1] == (out@[k - 1].0@, out@[k - 1].1@));
            }
        }
        out.insert(k, (key, x));
        assert(env_views(out@) =~= was.insert(k as int, (kv, xv)));
        i = i + 1;
    }
    out
}

fn lines_of(v: &Vec<(Vec<u8>, Vec<u8>)>) -> (r: Vec<Vec<u8>>)
    ensures
        byte_views(r@) == env_lines(env_views(v@)),
{
    let ghost all = env_views(v@);
    let mut out: Vec<Vec<u8>> = Vec::new();
    let mut i: usize = 0;
    while i < v.len()
        invariant
            i <= v@.len(),
            all == env_views(v@),
            out@.len() == i,
            forall|k: int| 0 <= k < i ==> (#[trigger] out@[k])@ == all[k].0.push(61) + all[k].1,
        decreases v.len() - i,
    {
        assert(all[i as int] == (v@[i as int].0@, v@[i as int].1@));
        let mut line = copy_bytes(&v[i].0);
        line.push(61);
        extend(&mut line, &v[i].1);
        out.push(line);
        i = i + 1;
    }
    assert(byte_views(out@) =~= env_lines(all));
    out
}

impl<'t> Machine<'t> {
    fn env_vars(&mut self, at: Span) -> (r: Result<Flow, Stop>)
        requires
            old(self).inv(),
        ensures
            advanced(*old(self), *final(self)),
            (final(self)@, flow_result(r)) == env_vars(old(self).world(), old(self)@, at),
    {
        match self.ask(Request::of(HostOp::EnvVars)) {
            Err(s) => Err(s),
            Ok(Reply::Names(v)) => {
                let base = base_env(v);
                let all = overlay(base, &self.host.env);
                let sorted = sort_env(&all);
                let lines = lines_of(&sorted);
                proof {
                    reveal(Machine::inv);
                    lemma_env_lines_text(byte_views(v@), self.host@.env);
                }
                self.texts_in(&lines)
            },
            Ok(_) => Err(refuse(BAD_REPLY, at)),
        }
    }

    fn env_get(&mut self, key: Vec<u8>, at: Span) -> (r: Result<Flow, Stop>)
        requires
            old(self).inv(),
        ensures
            advanced(*old(self), *final(self)),
            (final(self)@, flow_result(r)) == env_get(
                old(self).world(),
                old(self)@,
                key@,
                at,
            ),
    {
        if let Some(i) = find_env(&self.host.env, &key) {
            assert(self@.host.env[i as int] == (
                self.host.env@[i as int].0@,
                self.host.env@[i as int].1@,
            ));
            let b = copy_bytes(&self.host.env[i].1);
            proof {
                reveal(Machine::inv);
            }
            return self.str_in(b);
        }
        match self.ask(Request::of(HostOp::EnvGet).text(key)) {
            Err(s) => Err(s),
            Ok(Reply::Bytes(b)) => {
                if !is_text(b) {
                    return Ok(raised("utf8"));
                }
                let b = copy_bytes(b);
                self.str_in(b)
            },
            Ok(Reply::Absent) => Ok(raised("missing")),
            Ok(Reply::NotText) => Ok(raised("utf8")),
            Ok(_) => Err(refuse(BAD_REPLY, at)),
        }
    }

    fn env_set(&mut self, key: Vec<u8>, x: Vec<u8>) -> (r: Result<Flow, Stop>)
        requires
            old(self).inv(),
            valid_utf8(key@),
            valid_utf8(x@),
        ensures
            advanced(*old(self), *final(self)),
            (final(self)@, flow_result(r)) == env_set(old(self)@, key@, x@),
    {
        if key.len() == 0 || holds_byte(&key, 61) || holds_byte(&key, 0) || holds_byte(&x, 0) {
            return Ok(raised("invalid"));
        }
        match self.charge_wide((key.len() as u128) + (x.len() as u128)) {
            Err(s) => Err(s),
            Ok(_) => {
                let ghost mid = self@;
                let ghost kv = key@;
                let ghost xv = x@;
                put_env(&mut self.host.env, key, x);
                proof {
                    let h = HostView { env: env_put(mid.host.env, kv, xv), ..mid.host };
                    assert(self@.host =~= h);
                    assert(self@ =~= mid.with_host(h));
                    reveal(Machine::inv);
                    lemma_put_text(mid.host.env, kv, xv);
                }
                Ok(Flow::Val(Value::Unit))
            },
        }
    }
}

// --------------------------------------------------------------- children --

pub open spec fn opt_byte_lists(o: Option<Vec<Vec<u8>>>) -> Option<Seq<Seq<u8>>> {
    match o {
        Some(v) => Some(byte_views(v@)),
        None => None,
    }
}

proof fn lemma_words(vs: Seq<ValueView>, k: nat, n: nat)
    requires
        k <= n <= vs.len(),
        words_of(vs, k) is None,
    ensures
        words_of(vs, n) is None,
    decreases n,
{
    if n > k {
        lemma_words(vs, k, (n - 1) as nat);
    }
}

fn argv_of(vs: &Vec<Value>) -> (r: Option<Vec<Vec<u8>>>)
    ensures
        opt_byte_lists(r) == words_of(vals(vs@), vs@.len()),
{
    let ghost all = vals(vs@);
    let mut out: Vec<Vec<u8>> = Vec::new();
    let mut i: usize = 0;
    assert(byte_views(out@) =~= Seq::empty());
    while i < vs.len()
        invariant
            i <= vs@.len(),
            all == vals(vs@),
            words_of(all, i as nat) == Some(byte_views(out@)),
        decreases vs.len() - i,
    {
        assert(all[i as int] == vs@[i as int]@);
        let ghost was = byte_views(out@);
        match &vs[i] {
            Value::Str(s) => {
                out.push(bytes_of(s.as_str()));
                assert(byte_views(out@) =~= was.push(encode_utf8(s@)));
            },
            _ => {
                proof {
                    assert(words_of(all, (i + 1) as nat) is None);
                    lemma_words(all, (i + 1) as nat, vs@.len());
                }
                return None;
            },
        }
        i = i + 1;
    }
    Some(out)
}

fn with_texts(q: Request, ws: Vec<Vec<u8>>) -> (r: Request)
    ensures
        r@ == texts_request(q@, byte_views(ws@)),
{
    let ghost first = q@;
    let ghost all = byte_views(ws@);
    let mut q = q;
    let mut i: usize = 0;
    assert(q@ =~= texts_request(first, all.take(0)));
    while i < ws.len()
        invariant
            i <= ws@.len(),
            all == byte_views(ws@),
            q@ == texts_request(first, all.take(i as int)),
        decreases ws.len() - i,
    {
        assert(all[i as int] == ws@[i as int]@);
        let b = copy_bytes(&ws[i]);
        q = q.text(b);
        assert(q@.texts =~= first.texts + all.take(i + 1));
        assert(q@ =~= texts_request(first, all.take(i + 1)));
        i = i + 1;
    }
    assert(all.take(i as int) =~= all);
    q
}

impl<'t> Machine<'t> {
    #[verifier::truncate]
    #[verifier::spinoff_prover]
    fn os_spawn(&mut self, args: &Vec<Value>, at: Span) -> (r: Result<Flow, Stop>)
        requires
            old(self).inv(),
        ensures
            advanced(*old(self), *final(self)),
            (final(self)@, flow_result(r)) == os_spawn(
                old(self).world(),
                old(self)@,
                vals(args@),
                at,
            ),
    {
        let id = match arg_at(args, 0) {
            Value::List(id) => id,
            _ => return Err(refuse(OS_SHAPE, at)),
        };
        let none: Vec<Value> = Vec::new();
        let words = if id < self.lists.len() {
            assert(self@.lists[id as int] == vals(self.lists@[id as int]@));
            argv_of(&self.lists[id])
        } else {
            assert(vals(none@) =~= Seq::<ValueView>::empty());
            argv_of(&none)
        };
        let ws = match words {
            None => return Err(refuse(ARGV_ITEM, at)),
            Some(ws) => ws,
        };
        if ws.len() == 0 {
            return Ok(raised("not_found"));
        }
        let child: i64 = self.host.children.len() as i64;
        let q = with_texts(Request::of(HostOp::Spawn).num(child), ws);
        match self.ask(q) {
            Err(s) => Err(s),
            Ok(Reply::Done) => {
                let ghost mid = self@;
                self.host.children.push(true);
                proof {
                    let h = HostView { children: mid.host.children.push(true), ..mid.host };
                    assert(self@.host =~= h);
                    assert(self@ =~= mid.with_host(h));
                    reveal(Machine::inv);
                }
                Ok(Flow::Val(Value::Int(child)))
            },
            Ok(Reply::Failed(e)) => Ok(raised(fs_row_of(*e, true, true, false, false))),
            Ok(_) => Err(refuse(BAD_REPLY, at)),
        }
    }

    fn child_live(&self, h: i64) -> (r: bool)
        ensures
            r == child_live(self@, h),
    {
        h >= 0 && (h as u64) < (self.host.children.len() as u64) && self.host.children[h as usize]
    }

    fn reap(&mut self, h: i64)
        requires
            old(self).inv(),
            child_live(old(self)@, h),
        ensures
            advanced(*old(self), *final(self)),
            final(self)@ == reaped(old(self)@, h),
    {
        let ghost was = self@;
        let count: usize = self.host.children.len();
        assert(h < count);
        self.host.children.set(h as usize, false);
        proof {
            let n = HostView { children: was.host.children.update(h as int, false), ..was.host };
            assert(self@.host =~= n);
            assert(self@ =~= was.with_host(n));
            reveal(Machine::inv);
        }
    }

    fn os_wait(&mut self, h: i64, at: Span) -> (r: Result<Flow, Stop>)
        requires
            old(self).inv(),
        ensures
            advanced(*old(self), *final(self)),
            (final(self)@, flow_result(r)) == os_wait(old(self).world(), old(self)@, h, at),
    {
        if !self.child_live(h) {
            return Ok(raised("io"));
        }
        match self.ask(Request::of(HostOp::Wait).num(h)) {
            Err(s) => Err(s),
            Ok(Reply::Int(c)) => {
                self.reap(h);
                Ok(Flow::Val(Value::Int(*c)))
            },
            Ok(Reply::Absent) => {
                self.reap(h);
                Ok(raised("signal"))
            },
            Ok(_) => Ok(raised("io")),
        }
    }

    fn os_kill(&mut self, h: i64, at: Span) -> (r: Result<Flow, Stop>)
        requires
            old(self).inv(),
        ensures
            advanced(*old(self), *final(self)),
            (final(self)@, flow_result(r)) == os_kill(old(self).world(), old(self)@, h, at),
    {
        if !self.child_live(h) {
            return Ok(raised("io"));
        }
        match self.ask(Request::of(HostOp::Kill).num(h)) {
            Err(s) => Err(s),
            Ok(Reply::Done) => Ok(Flow::Val(Value::Unit)),
            Ok(_) => Ok(raised("io")),
        }
    }
}

// ---------------------------------------------------------------- signals --

#[verifier::truncate]
fn find_signal(v: &Vec<i64>, want: u64) -> (r: Option<usize>)
    ensures
        opt_body(r) == signal_at(v@, want, 0),
        r matches Some(i) ==> i < v@.len(),
{
    let mut i: usize = 0;
    while i < v.len()
        invariant
            i <= v@.len(),
            signal_at(v@, want, 0) == signal_at(v@, want, i as int),
        decreases v.len() - i,
    {
        if (v[i] as u64) & want != 0 {
            return Some(i);
        }
        i = i + 1;
    }
    None
}

impl<'t> Machine<'t> {
    #[verifier::truncate]
    #[verifier::spinoff_prover]
    fn os_signal(&mut self, n: &str, k: i64, at: Span) -> (r: Result<Flow, Stop>)
        requires
            old(self).inv(),
        ensures
            advanced(*old(self), *final(self)),
            (final(self)@, flow_result(r)) == os_signal(old(self)@, n@, k, at),
    {
        let ghost was = self@;
        proof {
            reveal(Machine::inv);
        }
        if str_eq(n, "os_signal_listen") {
            self.host.listening = ((self.host.listening as u64) | ((k as u64) & 15)) as i64;
            proof {
                let h = HostView {
                    listening: ((was.host.listening as u64) | ((k as u64) & 15)) as i64,
                    ..was.host
                };
                assert(self@.host =~= h);
                assert(self@ =~= was.with_host(h));
            }
            Ok(Flow::Val(Value::Unit))
        } else if str_eq(n, "os_signal_raise") {
            if k != 1 && k != 2 && k != 4 && k != 8 {
                return Ok(raised("io"));
            }
            if (self.host.listening as u64) & (k as u64) != 0 {
                self.host.signals.push(k);
                proof {
                    let h = HostView { signals: was.host.signals.push(k), ..was.host };
                    assert(self@.host =~= h);
                    assert(self@ =~= was.with_host(h));
                }
            }
            Ok(Flow::Val(Value::Unit))
        } else {
            let want: u64 = (k as u64) & 15;
            if want == 0 {
                return Ok(raised("io"));
            }
            match find_signal(&self.host.signals, want) {
                Some(i) => {
                    let s: i64 = self.host.signals.remove(i);
                    proof {
                        let h = HostView {
                            signals: was.host.signals.remove(i as int),
                            ..was.host
                        };
                        assert(self@.host =~= h);
                        assert(self@ =~= was.with_host(h));
                    }
                    Ok(Flow::Val(Value::Int(s)))
                },
                None => Err(refuse(NO_SIGNAL, at)),
            }
        }
    }

    fn os_random(&mut self, k: i64, at: Span) -> (r: Result<Flow, Stop>)
        requires
            old(self).inv(),
        ensures
            advanced(*old(self), *final(self)),
            (final(self)@, flow_result(r)) == os_random(old(self).world(), old(self)@, k, at),
    {
        if k < 0 {
            return Err(trap("assert", "os.random.fill", at));
        }
        match self.charge_mem(k as u64) {
            Err(s) => return Err(s),
            Ok(_) => {},
        }
        match self.ask(Request::of(HostOp::Random).num(k)) {
            Err(s) => Err(s),
            Ok(Reply::Bytes(b)) => if (b.len() as u64) == (k as u64) {
                let items = int_values(b);
                Ok(Flow::Val(self.new_list(items)))
            } else {
                Err(trap("assert", "os.random.trap", at))
            },
            Ok(_) => Err(trap("assert", "os.random.trap", at)),
        }
    }

    fn os_where(&mut self, op: HostOp) -> (r: Result<Flow, Stop>)
        requires
            old(self).inv(),
        ensures
            advanced(*old(self), *final(self)),
            (final(self)@, flow_result(r)) == (match ask_of(
                old(self).world(),
                old(self)@,
                RequestView::of(op),
            ) {
                (m1, Err(s)) => (m1, Err(s)),
                (m1, Ok(ReplyView::Bytes(b))) => if valid_utf8(b) {
                    str_in(m1, b)
                } else {
                    raises(m1, "io"@)
                },
                (m1, Ok(_)) => raises(m1, "io"@),
            }),
    {
        match self.ask(Request::of(op)) {
            Err(s) => Err(s),
            Ok(Reply::Bytes(b)) => {
                if !is_text(b) {
                    return Ok(raised("io"));
                }
                let b = copy_bytes(b);
                self.str_in(b)
            },
            Ok(_) => Ok(raised("io")),
        }
    }

    /// The process and environment built-ins; another name is refused.
    #[verifier::spinoff_prover]
    pub fn os_builtin(&mut self, n: &str, args: &Vec<Value>, at: Span) -> (r: Result<Flow, Stop>)
        requires
            old(self).inv(),
        ensures
            advanced(*old(self), *final(self)),
            (final(self)@, flow_result(r)) == os_builtin(
                old(self).world(),
                old(self)@,
                n@,
                vals(args@),
                at,
            ),
    {
        if !processes(n) {
            return Err(refuse(NO_OS, at));
        }
        if str_eq(n, "env_args") {
            let words = copy_lists(&self.host.args);
            proof {
                reveal(Machine::inv);
            }
            return self.texts_in(&words);
        }
        if str_eq(n, "env_get") {
            return match str_arg(args, 0) {
                Some(key) => self.env_get(key, at),
                None => Err(refuse(OS_SHAPE, at)),
            };
        }
        if str_eq(n, "env_set") {
            return match (str_arg(args, 0), str_arg(args, 1)) {
                (Some(key), Some(x)) => self.env_set(key, x),
                _ => Err(refuse(OS_SHAPE, at)),
            };
        }
        if str_eq(n, "env_vars") {
            return self.env_vars(at);
        }
        if str_eq(n, "os_cwd") {
            return self.os_where(HostOp::Cwd);
        }
        if str_eq(n, "os_exe") {
            return self.os_where(HostOp::Exe);
        }
        if str_eq(n, "os_spawn") {
            return self.os_spawn(args, at);
        }
        let k = match int_arg(args, 0) {
            None => return Err(refuse(OS_SHAPE, at)),
            Some(k) => k,
        };
        if str_eq(n, "os_exit") {
            let code: i128 = (k as i128 + 0x8000_0000_0000_0000) % 256;
            assert(code == k as int % 256);
            Err(Stop::Exit(code as u8))
        } else if str_eq(n, "os_wait") {
            self.os_wait(k, at)
        } else if str_eq(n, "os_kill") {
            self.os_kill(k, at)
        } else if str_eq(n, "os_random") {
            self.os_random(k, at)
        } else {
            self.os_signal(n, k, at)
        }
    }
}

fn copy_lists(v: &Vec<Vec<u8>>) -> (r: Vec<Vec<u8>>)
    ensures
        byte_views(r@) == byte_views(v@),
{
    let mut out: Vec<Vec<u8>> = Vec::new();
    let mut i: usize = 0;
    while i < v.len()
        invariant
            i <= v@.len(),
            out@.len() == i,
            forall|k: int| 0 <= k < i ==> (#[trigger] out@[k])@ == v@[k]@,
        decreases v.len() - i,
    {
        out.push(copy_bytes(&v[i]));
        i = i + 1;
    }
    assert(byte_views(out@) =~= byte_views(v@));
    out
}

// --------------------------------------------------------- time and text --

impl<'t> Machine<'t> {
    fn time_builtin(&mut self, n: &str, args: &Vec<Value>, at: Span) -> (r: Result<Flow, Stop>)
        requires
            old(self).inv(),
        ensures
            advanced(*old(self), *final(self)),
            (final(self)@, flow_result(r)) == time_builtin(
                old(self).world(),
                old(self)@,
                n@,
                vals(args@),
                at,
            ),
    {
        if !times(n) {
            return Err(refuse(NO_TIME, at));
        }
        if str_eq(n, "time_sleep_ms") {
            return match int_arg(args, 0) {
                Some(ms) => if ms > 0 {
                    match self.ask(Request::of(HostOp::SleepMs).num(ms)) {
                        Err(s) => Err(s),
                        Ok(_) => Ok(Flow::Val(Value::Unit)),
                    }
                } else {
                    Ok(Flow::Val(Value::Unit))
                },
                None => Err(refuse(TIME_SHAPE, at)),
            };
        }
        let op = if str_eq(n, "time_now_ms") {
            HostOp::NowMs
        } else {
            HostOp::UnixMs
        };
        match self.ask(Request::of(op)) {
            Err(s) => Err(s),
            Ok(Reply::Int(k)) => Ok(Flow::Val(Value::Int(*k))),
            Ok(_) => Err(refuse(BAD_REPLY, at)),
        }
    }

    #[verifier::spinoff_prover]
    fn json_builtin(&mut self, n: &str, args: &Vec<Value>, at: Span) -> (r: Result<Flow, Stop>)
        requires
            old(self).inv(),
        ensures
            advanced(*old(self), *final(self)),
            (final(self)@, flow_result(r)) == json_builtin(
                old(self).world(),
                old(self)@,
                n@,
                vals(args@),
                at,
            ),
    {
        if !jsons(n) {
            return Err(refuse(NO_JSON, at));
        }
        if str_eq(n, "json_valid") {
            return match str_arg(args, 0) {
                Some(s) => match self.ask(Request::of(HostOp::JsonValid).text(s)) {
                    Err(x) => Err(x),
                    Ok(Reply::Flag(b)) => Ok(Flow::Val(Value::Bool(*b))),
                    Ok(_) => Err(refuse(BAD_REPLY, at)),
                },
                None => Err(refuse(JSON_SHAPE, at)),
            };
        }
        match (str_arg(args, 0), str_arg(args, 1)) {
            (Some(s), Some(path)) => {
                let get = str_eq(n, "json_get");
                let op = if get {
                    HostOp::JsonGet
                } else if str_eq(n, "json_type") {
                    HostOp::JsonType
                } else {
                    HostOp::JsonLen
                };
                match self.ask(Request::of(op).text(s).text(path)) {
                    Err(x) => Err(x),
                    Ok(Reply::NotText) => Ok(raised("parse")),
                    Ok(Reply::Absent) => Ok(raised("missing")),
                    Ok(Reply::BadKind) => Ok(raised("kind")),
                    Ok(Reply::Int(k)) => Ok(Flow::Val(Value::Int(*k))),
                    Ok(Reply::Bytes(b)) => {
                        if !is_text(b) {
                            return Err(refuse(BAD_REPLY, at));
                        }
                        let b = copy_bytes(b);
                        if get {
                            self.str_in(b)
                        } else {
                            Ok(Flow::Val(str_value(&b)))
                        }
                    },
                    Ok(_) => Err(refuse(BAD_REPLY, at)),
                }
            },
            _ => Err(refuse(JSON_SHAPE, at)),
        }
    }

    fn str_from_utf8(&mut self, args: &Vec<Value>, at: Span) -> (r: Result<Flow, Stop>)
        requires
            old(self).inv(),
        ensures
            advanced(*old(self), *final(self)),
            (final(self)@, flow_result(r)) == str_from_utf8(old(self)@, vals(args@), at),
    {
        let v = arg_at(args, 0);
        match &v {
            Value::List(_) => match self.bytes_arg(&v) {
                ByteArg::NotInts => Err(refuse(UTF8_ITEMS, at)),
                ByteArg::NotByte => Ok(raised("utf8")),
                ByteArg::Bytes(b) => if is_text(&b) {
                    self.str_in(b)
                } else {
                    Ok(raised("utf8"))
                },
            },
            _ => Err(refuse(UTF8_SHAPE, at)),
        }
    }

    /// A built-in on its argument values.
    #[verifier::spinoff_prover]
    pub fn builtin_call(&mut self, n: &str, args: &Vec<Value>, at: Span) -> (r: Result<Flow, Stop>)
        requires
            old(self).inv(),
        ensures
            advanced(*old(self), *final(self)),
            (final(self)@, flow_result(r)) == builtin_call(
                old(self).world(),
                old(self)@,
                n@,
                vals(args@),
                at,
            ),
    {
        proof {
            reveal(builtin_call);
        }
        if prints(n) {
            self.print_call(n, args, at)
        } else if files(n) {
            self.io_fs_builtin(n, args, at)
        } else if nets(n) {
            self.net_builtin(n, args, at)
        } else if str_eq(n, "str_from_utf8") {
            self.str_from_utf8(args, at)
        } else if jsons(n) {
            self.json_builtin(n, args, at)
        } else if times(n) {
            self.time_builtin(n, args, at)
        } else {
            self.os_builtin(n, args, at)
        }
    }
}

/// Is the name a built-in's?
pub fn names_builtin(n: &str) -> (r: bool)
    ensures
        r == is_builtin(n@),
{
    proof {
        reveal(is_builtin);
    }
    prints(n) || files(n) || nets(n) || processes(n) || times(n) || jsons(n) || str_eq(
        n,
        "str_from_utf8",
    )
}

} // verus!

//! The network built-ins, run.

use vstd::prelude::*;
use vstd::string::*;
use vstd::utf8::*;

use crate::builtin::{
    ByteArg, NET_SHAPE, NO_NET, ask_of, deadline_at, deadlines_without, is_net, net_builtin,
    net_close, net_deadline, net_opened, net_receive, net_row_of, net_sent, sock_at,
};
use crate::diag::Span;
use crate::machine::{HostView, Machine, advanced};
use crate::methods::{arg_at, raised};
use crate::runfile::{clamped, int_arg, str_arg};
use crate::semantics::{BAD_REPLY, raises, val};
use crate::text::str_eq;
use crate::value::{
    Flow, HostOp, Reply, ReplyView, Request, RequestView, Stop, Value, ValueView, flow_result,
    refuse, vals,
};

verus! {

pub fn nets(n: &str) -> (r: bool)
    ensures
        r == is_net(n@),
{
    str_eq(n, "net_listen") || str_eq(n, "net_port") || str_eq(n, "net_accept") || str_eq(
        n,
        "net_connect",
    ) || str_eq(n, "net_read") || str_eq(n, "net_write") || str_eq(n, "net_read_bytes") || str_eq(
        n,
        "net_write_bytes",
    ) || str_eq(n, "net_close") || str_eq(n, "net_deadline")
}

fn find_deadline(v: &Vec<(i64, u64)>, fd: i64) -> (r: Option<u64>)
    ensures
        r == deadline_at(v@, fd, 0),
{
    let mut i: usize = 0;
    while i < v.len()
        invariant
            i <= v@.len(),
            deadline_at(v@, fd, 0) == deadline_at(v@, fd, i as int),
        decreases v.len() - i,
    {
        if v[i].0 == fd {
            return Some(v[i].1);
        }
        i = i + 1;
    }
    None
}

fn drop_deadline(v: &Vec<(i64, u64)>, fd: i64) -> (r: Vec<(i64, u64)>)
    ensures
        r@ == deadlines_without(v@, fd, v@.len()),
{
    let mut out: Vec<(i64, u64)> = Vec::new();
    let mut i: usize = 0;
    while i < v.len()
        invariant
            i <= v@.len(),
            out@ == deadlines_without(v@, fd, i as nat),
        decreases v.len() - i,
    {
        if v[i].0 != fd {
            out.push(v[i]);
        }
        i = i + 1;
    }
    out
}

impl<'t> Machine<'t> {
    fn sock_at(&self, fd: i64) -> (r: Option<bool>)
        ensures
            r == sock_at(self@, fd),
    {
        if fd >= 0 && (fd as u64) < (self.host.socks.len() as u64) {
            self.host.socks[fd as usize]
        } else {
            None
        }
    }

    fn is_stream(&self, fd: i64) -> (r: bool)
        ensures
            r == (sock_at(self@, fd) == Some(false)),
    {
        match self.sock_at(fd) {
            Some(listener) => !listener,
            None => false,
        }
    }

    fn is_listener(&self, fd: i64) -> (r: bool)
        ensures
            r == (sock_at(self@, fd) == Some(true)),
    {
        match self.sock_at(fd) {
            Some(listener) => listener,
            None => false,
        }
    }

    #[verifier::truncate]
    fn net_opened(
        &mut self,
        q: Request,
        listener: bool,
        refused_row: bool,
        timeout: bool,
        at: Span,
    ) -> (r: Result<Flow, Stop>)
        requires
            old(self).inv(),
        ensures
            advanced(*old(self), *final(self)),
            (final(self)@, flow_result(r)) == net_opened(
                old(self).world(),
                old(self)@,
                q@,
                listener,
                refused_row,
                timeout,
                at,
            ),
    {
        let fd: i64 = self.host.socks.len() as i64;
        match self.ask(q.num(fd)) {
            Err(s) => Err(s),
            Ok(Reply::Done) => {
                let ghost mid = self@;
                self.host.socks.push(Some(listener));
                proof {
                    let h = HostView { socks: mid.host.socks.push(Some(listener)), ..mid.host };
                    assert(self@.host =~= h);
                    assert(self@ =~= mid.with_host(h));
                    reveal(Machine::inv);
                }
                Ok(Flow::Val(Value::Int(fd)))
            },
            Ok(Reply::Failed(e)) => Ok(raised(net_row_of(*e, refused_row, timeout, false))),
            Ok(_) => Err(refuse(BAD_REPLY, at)),
        }
    }

    fn net_receive(&mut self, args: &Vec<Value>, as_text: bool, at: Span) -> (r: Result<
        Flow,
        Stop,
    >)
        requires
            old(self).inv(),
        ensures
            advanced(*old(self), *final(self)),
            (final(self)@, flow_result(r)) == net_receive(
                old(self).world(),
                old(self)@,
                vals(args@),
                as_text,
                at,
            ),
    {
        match (int_arg(args, 0), int_arg(args, 1)) {
            (Some(fd), Some(max)) => {
                if !self.is_stream(fd) {
                    return Ok(raised("io"));
                }
                if max <= 0 {
                    return Ok(Flow::Val(self.nothing_read(as_text)));
                }
                let q = Request::of(HostOp::Receive).num(fd).num(clamped(max));
                match self.ask(q) {
                    Err(s) => Err(s),
                    Ok(Reply::Failed(e)) => Ok(raised(net_row_of(*e, false, true, true))),
                    Ok(Reply::Bytes(b)) => if b.len() == 0 {
                        Ok(raised("closed"))
                    } else if as_text {
                        self.text_in(b)
                    } else {
                        self.bytes_in(b)
                    },
                    Ok(_) => Err(refuse(BAD_REPLY, at)),
                }
            },
            _ => Err(refuse(NET_SHAPE, at)),
        }
    }

    fn net_sent(&mut self, fd: i64, b: Vec<u8>, at: Span) -> (r: Result<Flow, Stop>)
        requires
            old(self).inv(),
        ensures
            advanced(*old(self), *final(self)),
            (final(self)@, flow_result(r)) == net_sent(
                old(self).world(),
                old(self)@,
                fd,
                b@,
                at,
            ),
    {
        if !self.is_stream(fd) {
            return Ok(raised("io"));
        }
        match self.ask(Request::of(HostOp::Send).text(b).num(fd)) {
            Err(s) => Err(s),
            Ok(Reply::Done) => Ok(Flow::Val(Value::Unit)),
            Ok(Reply::Failed(e)) => Ok(raised(net_row_of(*e, false, false, true))),
            Ok(_) => Err(refuse(BAD_REPLY, at)),
        }
    }

    fn set_deadlines(&mut self, v: Vec<(i64, u64)>)
        requires
            old(self).inv(),
        ensures
            advanced(*old(self), *final(self)),
            final(self)@ == old(self)@.with_host(
                (HostView { deadlines: v@, ..old(self)@.host }),
            ),
    {
        let ghost was = self@;
        let ghost vs = v@;
        self.host.deadlines = v;
        proof {
            let h = HostView { deadlines: vs, ..was.host };
            assert(self@.host =~= h);
            assert(self@ =~= was.with_host(h));
            reveal(Machine::inv);
        }
    }

    fn net_deadline(&mut self, fd: i64, ms: i64, at: Span) -> (r: Result<Flow, Stop>)
        requires
            old(self).inv(),
        ensures
            advanced(*old(self), *final(self)),
            (final(self)@, flow_result(r)) == net_deadline(
                old(self).world(),
                old(self)@,
                fd,
                ms,
                at,
            ),
    {
        match self.sock_at(fd) {
            Some(true) => {
                let mut rest = drop_deadline(&self.host.deadlines, fd);
                if ms > 0 {
                    rest.push((fd, ms as u64));
                }
                self.set_deadlines(rest);
                Ok(Flow::Val(Value::Unit))
            },
            Some(false) => {
                let wait: i64 = if ms > 0 {
                    ms
                } else {
                    0
                };
                match self.ask(Request::of(HostOp::Deadline).num(fd).num(wait)) {
                    Err(s) => Err(s),
                    Ok(Reply::Done) => Ok(Flow::Val(Value::Unit)),
                    Ok(Reply::Failed(_)) => Ok(raised("io")),
                    Ok(_) => Err(refuse(BAD_REPLY, at)),
                }
            },
            None => Ok(raised("io")),
        }
    }

    fn net_close(&mut self, fd: i64) -> (r: Result<Flow, Stop>)
        requires
            old(self).inv(),
        ensures
            advanced(*old(self), *final(self)),
            (final(self)@, flow_result(r)) == net_close(old(self).world(), old(self)@, fd),
    {
        let rest = drop_deadline(&self.host.deadlines, fd);
        let open = self.sock_at(fd).is_some();
        self.set_deadlines(rest);
        if !open {
            return Ok(raised("io"));
        }
        match self.ask(Request::of(HostOp::CloseSock).num(fd)) {
            Err(s) => Err(s),
            Ok(_) => {
                let ghost mid = self@;
                let count: usize = self.host.socks.len();
                assert(fd < count);
                self.host.socks.set(fd as usize, None);
                proof {
                    let h = HostView { socks: mid.host.socks.update(fd as int, None), ..mid.host };
                    assert(self@.host =~= h);
                    assert(self@ =~= mid.with_host(h));
                    reveal(Machine::inv);
                }
                Ok(Flow::Val(Value::Unit))
            },
        }
    }

    fn net_port(&mut self, fd: i64) -> (r: Result<Flow, Stop>)
        requires
            old(self).inv(),
        ensures
            advanced(*old(self), *final(self)),
            (final(self)@, flow_result(r)) == (if sock_at(old(self)@, fd) is None {
                raises(old(self)@, "io"@)
            } else {
                match ask_of(
                    old(self).world(),
                    old(self)@,
                    RequestView::of(HostOp::Port).num(fd),
                ) {
                    (m1, Err(s)) => (m1, Err(s)),
                    (m1, Ok(ReplyView::Int(p))) => val(m1, ValueView::Int(p)),
                    (m1, Ok(_)) => raises(m1, "io"@),
                }
            }),
    {
        if self.sock_at(fd).is_none() {
            return Ok(raised("io"));
        }
        match self.ask(Request::of(HostOp::Port).num(fd)) {
            Err(s) => Err(s),
            Ok(Reply::Int(p)) => Ok(Flow::Val(Value::Int(*p))),
            Ok(_) => Ok(raised("io")),
        }
    }

    /// The network built-ins; another name is refused.
    #[verifier::truncate]
    #[verifier::spinoff_prover]
    pub fn net_builtin(&mut self, n: &str, args: &Vec<Value>, at: Span) -> (r: Result<Flow, Stop>)
        requires
            old(self).inv(),
        ensures
            advanced(*old(self), *final(self)),
            (final(self)@, flow_result(r)) == net_builtin(
                old(self).world(),
                old(self)@,
                n@,
                vals(args@),
                at,
            ),
    {
        if !nets(n) {
            return Err(refuse(NO_NET, at));
        }
        if str_eq(n, "net_listen") || str_eq(n, "net_connect") {
            return match str_arg(args, 0) {
                Some(addr) => if str_eq(n, "net_listen") {
                    self.net_opened(
                        Request::of(HostOp::Listen).text(addr),
                        true,
                        false,
                        false,
                        at,
                    )
                } else {
                    self.net_opened(
                        Request::of(HostOp::Connect).text(addr),
                        false,
                        true,
                        true,
                        at,
                    )
                },
                None => Err(refuse(NET_SHAPE, at)),
            };
        }
        if str_eq(n, "net_read") {
            return self.net_receive(args, true, at);
        }
        if str_eq(n, "net_read_bytes") {
            return self.net_receive(args, false, at);
        }
        let fd = match int_arg(args, 0) {
            None => return Err(refuse(NET_SHAPE, at)),
            Some(k) => k,
        };
        if str_eq(n, "net_port") {
            self.net_port(fd)
        } else if str_eq(n, "net_accept") {
            if !self.is_listener(fd) {
                return Ok(raised("io"));
            }
            let wait: i64 = match find_deadline(&self.host.deadlines, fd) {
                Some(d) => d as i64,
                None => 0,
            };
            self.net_opened(
                Request::of(HostOp::Accept).num(fd).num(wait),
                false,
                false,
                true,
                at,
            )
        } else if str_eq(n, "net_write") {
            match str_arg(args, 1) {
                Some(b) => self.net_sent(fd, b, at),
                None => Err(refuse(NET_SHAPE, at)),
            }
        } else if str_eq(n, "net_write_bytes") {
            match self.bytes_arg(&arg_at(args, 1)) {
                ByteArg::Bytes(b) => self.net_sent(fd, b, at),
                ByteArg::NotByte => Ok(raised("invalid")),
                ByteArg::NotInts => Err(refuse(NET_SHAPE, at)),
            }
        } else if str_eq(n, "net_close") {
            self.net_close(fd)
        } else {
            match int_arg(args, 1) {
                Some(ms) => self.net_deadline(fd, ms, at),
                None => Err(refuse(NET_SHAPE, at)),
            }
        }
    }
}

} // verus!

//! Printing and the file built-ins, run.

use vstd::prelude::*;
use vstd::string::*;
use vstd::utf8::*;

use crate::builtin::{
    ByteArg, CHUNK, FS_SHAPE, NO_FS, ask_of, bytes_arg, bytes_in, clamp_chunk, file_open, fs_close,
    fs_done, fs_open, fs_path, fs_put, fs_read, fs_row, fs_row_of, fs_whole, io_fs_builtin, is_fs,
    is_print, lemma_names_text, list_bytes, newline_from, odd, path_op, path_query, print_call,
    read_line, show_all, sort_names, sorted_names, str_in, text_in, texts_in, to_int, to_str,
    total_len,
};
use crate::diag::Span;
use crate::literal::{NEWLINE, RETURN, extend, slice_of};
use crate::machine::{HostView, Machine, State, advanced};
use crate::methods::{arg_at, int_values, raised, str_values};
use crate::runheap::bytes_result;
use crate::semantics::{BAD_REPLY, nth, raises};
use crate::strs::{
    all_text, are_text, is_text, law_slice_is_text, lemma_behind_newline, lemma_newline_text,
};
use crate::text::str_eq;
use crate::value::{
    Flow, HostOp, Reply, ReplyView, Request, RequestView, Stop, Value, ValueView, byte_views,
    bytes_of, flow_result, refuse, str_value, vals,
};

verus! {

// ------------------------------------------------------------------ names --

pub fn prints(n: &str) -> (r: bool)
    ensures
        r == is_print(n@),
{
    str_eq(n, "print") || str_eq(n, "print_raw") || str_eq(n, "eprint") || str_eq(n, "eprint_raw")
}

pub fn files(n: &str) -> (r: bool)
    ensures
        r == is_fs(n@),
{
    str_eq(n, "read_line") || str_eq(n, "fs_read_text") || str_eq(n, "fs_write_text") || str_eq(
        n,
        "fs_open",
    ) || str_eq(n, "fs_create") || str_eq(n, "fs_read") || str_eq(n, "fs_write") || str_eq(
        n,
        "fs_close",
    ) || str_eq(n, "fs_remove") || str_eq(n, "fs_exists") || str_eq(n, "fs_open_mode") || str_eq(
        n,
        "fs_read_bytes",
    ) || str_eq(n, "fs_write_bytes") || str_eq(n, "fs_read_chunk") || str_eq(n, "fs_write_chunk")
        || str_eq(n, "fs_read_dir") || str_eq(n, "fs_create_dir") || str_eq(
        n,
        "fs_create_dir_all",
    ) || str_eq(n, "fs_remove_dir") || str_eq(n, "fs_remove_dir_all") || str_eq(n, "fs_rename")
        || str_eq(n, "fs_is_file") || str_eq(n, "fs_is_dir") || str_eq(n, "fs_size") || str_eq(
        n,
        "fs_modified_ms",
    )
}

// --------------------------------------------------------------- printing --

impl<'t> Machine<'t> {
    fn show_all(&mut self, vs: &Vec<Value>, at: Span) -> (r: Result<Vec<u8>, Stop>)
        requires
            old(self).inv(),
        ensures
            advanced(*old(self), *final(self)),
            (final(self)@, bytes_result(r)) == show_all(
                old(self).world(),
                old(self)@,
                vals(vs@),
                0,
                Seq::empty(),
                at,
            ),
            r matches Ok(b) ==> valid_utf8(b@),
    {
        let ghost start = *self;
        let ghost all = vals(vs@);
        let ghost w = self.world();
        let mut out: Vec<u8> = Vec::new();
        let mut i: usize = 0;
        assert(out@ =~= Seq::empty());
        while i < vs.len()
            invariant
                i <= vs@.len(),
                start == *old(self),
                all == vals(vs@),
                w == start.world(),
                advanced(start, *self),
                valid_utf8(out@),
                show_all(w, start@, all, 0, Seq::empty(), at) == show_all(
                    w,
                    self@,
                    all,
                    i as int,
                    out@,
                    at,
                ),
            decreases vs.len() - i,
        {
            assert(all[i as int] == vs@[i as int]@);
            match self.show_value(&vs[i], at) {
                Err(s) => return Err(s),
                Ok(b) => {
                    proof {
                        valid_utf8_concat(out@, b@);
                    }
                    extend(&mut out, &b);
                },
            }
            i = i + 1;
        }
        Ok(out)
    }

    pub(crate) fn print_call(&mut self, n: &str, args: &Vec<Value>, at: Span) -> (r: Result<Flow, Stop>)
        requires
            old(self).inv(),
        ensures
            advanced(*old(self), *final(self)),
            (final(self)@, flow_result(r)) == print_call(
                old(self).world(),
                old(self)@,
                n@,
                vals(args@),
                at,
            ),
    {
        let mut text = match self.show_all(args, at) {
            Err(s) => return Err(s),
            Ok(b) => b,
        };
        let ghost was = self@;
        if str_eq(n, "print") || str_eq(n, "eprint") {
            proof {
                lemma_newline_text();
                valid_utf8_concat(text@, seq![NEWLINE]);
                assert(text@.push(NEWLINE) =~= text@ + seq![NEWLINE]);
            }
            text.push(NEWLINE);
        }
        proof {
            reveal(Machine::inv);
            valid_utf8_concat(self.stdout@, text@);
            valid_utf8_concat(self.stderr@, text@);
        }
        if str_eq(n, "eprint") || str_eq(n, "eprint_raw") {
            extend(&mut self.stderr, &text);
            assert(self@ =~= State { stderr: was.stderr + text@, ..was });
        } else {
            extend(&mut self.stdout, &text);
            assert(self@ =~= State { stdout: was.stdout + text@, ..was });
        }
        proof {
            reveal(Machine::inv);
        }
        Ok(Flow::Val(Value::Unit))
    }
}

// ------------------------------------------------------------- arguments --

pub open spec fn opt_bytes(o: Option<Vec<u8>>) -> Option<Seq<u8>> {
    match o {
        Some(b) => Some(b@),
        None => None,
    }
}

pub fn str_arg(args: &Vec<Value>, i: usize) -> (r: Option<Vec<u8>>)
    ensures
        opt_bytes(r) == to_str(nth(vals(args@), i as int)),
        r matches Some(b) ==> valid_utf8(b@),
{
    match arg_at(args, i) {
        Value::Str(s) => {
            proof {
                encode_utf8_valid_utf8(s@);
            }
            Some(bytes_of(s.as_str()))
        },
        _ => None,
    }
}

pub fn int_arg(args: &Vec<Value>, i: usize) -> (r: Option<i64>)
    ensures
        r == to_int(nth(vals(args@), i as int)),
{
    match arg_at(args, i) {
        Value::Int(n) => Some(n),
        _ => None,
    }
}

fn bytes_from(vs: &Vec<Value>) -> (r: ByteArg)
    ensures
        r@ == list_bytes(vals(vs@), 0, Seq::empty()),
{
    let ghost all = vals(vs@);
    let mut out: Vec<u8> = Vec::new();
    let mut i: usize = 0;
    assert(out@ =~= Seq::empty());
    while i < vs.len()
        invariant
            i <= vs@.len(),
            all == vals(vs@),
            list_bytes(all, 0, Seq::empty()) == list_bytes(all, i as int, out@),
        decreases vs.len() - i,
    {
        assert(all[i as int] == vs@[i as int]@);
        match &vs[i] {
            Value::Int(n) => if 0 <= *n && *n <= 255 {
                out.push(*n as u8);
            } else {
                return ByteArg::NotByte;
            },
            _ => return ByteArg::NotInts,
        }
        i = i + 1;
    }
    ByteArg::Bytes(out)
}

impl<'t> Machine<'t> {
    pub fn bytes_arg(&self, v: &Value) -> (r: ByteArg)
        ensures
            r@ == bytes_arg(self@, v@),
    {
        match v {
            Value::List(id) => if *id < self.lists.len() {
                assert(self@.lists[*id as int] == vals(self.lists@[*id as int]@));
                bytes_from(&self.lists[*id])
            } else {
                ByteArg::NotInts
            },
            _ => ByteArg::NotInts,
        }
    }

    pub fn text_in(&mut self, b: &Vec<u8>) -> (r: Result<Flow, Stop>)
        requires
            old(self).inv(),
        ensures
            advanced(*old(self), *final(self)),
            (final(self)@, flow_result(r)) == text_in(old(self)@, b@),
    {
        match self.charge_mem(b.len() as u64) {
            Err(s) => Err(s),
            Ok(_) => if is_text(b) {
                Ok(Flow::Val(str_value(b)))
            } else {
                Ok(raised("utf8"))
            },
        }
    }

    pub fn bytes_in(&mut self, b: &Vec<u8>) -> (r: Result<Flow, Stop>)
        requires
            old(self).inv(),
        ensures
            advanced(*old(self), *final(self)),
            (final(self)@, flow_result(r)) == bytes_in(old(self)@, b@),
    {
        match self.charge_mem(b.len() as u64) {
            Err(s) => Err(s),
            Ok(_) => {
                let items = int_values(b);
                Ok(Flow::Val(self.new_list(items)))
            },
        }
    }

    pub fn str_in(&mut self, b: Vec<u8>) -> (r: Result<Flow, Stop>)
        requires
            old(self).inv(),
            valid_utf8(b@),
        ensures
            advanced(*old(self), *final(self)),
            (final(self)@, flow_result(r)) == str_in(old(self)@, b@),
    {
        match self.charge_mem(b.len() as u64) {
            Err(s) => Err(s),
            Ok(_) => Ok(Flow::Val(str_value(&b))),
        }
    }

    pub fn texts_in(&mut self, v: &Vec<Vec<u8>>) -> (r: Result<Flow, Stop>)
        requires
            old(self).inv(),
            all_text(byte_views(v@)),
        ensures
            advanced(*old(self), *final(self)),
            (final(self)@, flow_result(r)) == texts_in(old(self)@, byte_views(v@)),
    {
        match self.charge_wide(sum_len(v)) {
            Err(s) => Err(s),
            Ok(_) => {
                let items = str_values(v);
                Ok(Flow::Val(self.new_list(items)))
            },
        }
    }
}

fn sum_len(v: &Vec<Vec<u8>>) -> (r: u128)
    ensures
        r == total_len(byte_views(v@), v@.len()),
{
    let ghost all = byte_views(v@);
    let mut sum: u128 = 0;
    let mut i: usize = 0;
    while i < v.len()
        invariant
            i <= v@.len(),
            all == byte_views(v@),
            sum == total_len(all, i as nat),
            sum <= i * 0x1_0000_0000_0000_0000,
        decreases v.len() - i,
    {
        assert(all[i as int] == v@[i as int]@);
        let k: usize = v[i].len();
        assert(i * 0x1_0000_0000_0000_0000 <= 0xffff_ffff_ffff_ffff * 0x1_0000_0000_0000_0000)
            by (nonlinear_arith)
            requires
                0 <= i <= 0xffff_ffff_ffff_ffff,
        ;
        sum = sum + (k as u128);
        i = i + 1;
    }
    sum
}

// ------------------------------------------------------------------ files --

impl<'t> Machine<'t> {
    fn file_open(&self, fd: i64) -> (r: bool)
        ensures
            r == file_open(self@, fd),
    {
        fd >= 0 && (fd as u64) < (self.host.files.len() as u64) && self.host.files[fd as usize]
    }

    fn fs_done(
        &mut self,
        q: Request,
        not_found: bool,
        denied: bool,
        exists: bool,
        cross: bool,
        at: Span,
    ) -> (r: Result<Flow, Stop>)
        requires
            old(self).inv(),
        ensures
            advanced(*old(self), *final(self)),
            (final(self)@, flow_result(r)) == fs_done(
                old(self).world(),
                old(self)@,
                q@,
                not_found,
                denied,
                exists,
                cross,
                at,
            ),
    {
        match self.ask(q) {
            Err(s) => Err(s),
            Ok(Reply::Done) => Ok(Flow::Val(Value::Unit)),
            Ok(Reply::Failed(e)) => Ok(raised(fs_row_of(*e, not_found, denied, exists, cross))),
            Ok(_) => Err(refuse(BAD_REPLY, at)),
        }
    }

    #[verifier::spinoff_prover]
    fn read_line(&mut self) -> (r: Result<Flow, Stop>)
        requires
            old(self).inv(),
        ensures
            advanced(*old(self), *final(self)),
            (final(self)@, flow_result(r)) == read_line(old(self)@),
    {
        let ghost was = self@;
        let n: usize = self.host.stdin.len();
        let from: usize = self.host.stdin_pos;
        if from >= n {
            return Ok(raised("eof"));
        }
        let mut end: usize = from;
        while end < n && self.host.stdin[end] != NEWLINE
            invariant
                from <= end <= n,
                n == self.host.stdin@.len(),
                newline_from(self.host.stdin@, from as int) == newline_from(
                    self.host.stdin@,
                    end as int,
                ),
            decreases n - end,
        {
            end = end + 1;
        }
        let hi: usize = if end > from && self.host.stdin[end - 1] == RETURN {
            end - 1
        } else {
            end
        };
        proof {
            reveal(Machine::inv);
            if end < n {
                lemma_behind_newline(self.host.stdin@, end as int);
            }
            law_slice_is_text(self.host.stdin@, from as int, hi as int);
        }
        let line = slice_of(&self.host.stdin, from, hi);
        self.host.stdin_pos = if end < n {
            end + 1
        } else {
            end
        };
        proof {
            let h = HostView { stdin_pos: self.host.stdin_pos, ..was.host };
            assert(self@.host =~= h);
            assert(self@ =~= was.with_host(h));
            reveal(Machine::inv);
        }
        self.str_in(line)
    }

    #[verifier::truncate]
    #[verifier::spinoff_prover]
    fn fs_open(&mut self, n: &str, args: &Vec<Value>, at: Span) -> (r: Result<Flow, Stop>)
        requires
            old(self).inv(),
        ensures
            advanced(*old(self), *final(self)),
            (final(self)@, flow_result(r)) == fs_open(
                old(self).world(),
                old(self)@,
                n@,
                vals(args@),
                at,
            ),
    {
        let mode: Option<i64> = if str_eq(n, "fs_open") {
            Some(0)
        } else if str_eq(n, "fs_create") {
            Some(1)
        } else {
            int_arg(args, 1)
        };
        match (str_arg(args, 0), mode) {
            (Some(path), Some(mode)) => {
                if mode < 0 || mode > 4 {
                    return Ok(raised("invalid"));
                }
                let fd: i64 = self.host.files.len() as i64;
                let q = Request::of(HostOp::OpenFile).text(path).num(mode).num(fd);
                match self.ask(q) {
                    Err(s) => Err(s),
                    Ok(Reply::Done) => {
                        let ghost mid = self@;
                        self.host.files.push(true);
                        proof {
                            let h = HostView { files: mid.host.files.push(true), ..mid.host };
                            assert(self@.host =~= h);
                            assert(self@ =~= mid.with_host(h));
                            reveal(Machine::inv);
                        }
                        Ok(Flow::Val(Value::Int(fd)))
                    },
                    Ok(Reply::Failed(e)) => {
                        let create = str_eq(n, "fs_create");
                        let moded = str_eq(n, "fs_open_mode");
                        Ok(raised(fs_row_of(*e, !create, true, moded, false)))
                    },
                    Ok(_) => Err(refuse(BAD_REPLY, at)),
                }
            },
            _ => Err(refuse(FS_SHAPE, at)),
        }
    }

    fn fs_read(&mut self, args: &Vec<Value>, as_text: bool, at: Span) -> (r: Result<Flow, Stop>)
        requires
            old(self).inv(),
        ensures
            advanced(*old(self), *final(self)),
            (final(self)@, flow_result(r)) == fs_read(
                old(self).world(),
                old(self)@,
                vals(args@),
                as_text,
                at,
            ),
    {
        match (int_arg(args, 0), int_arg(args, 1)) {
            (Some(fd), Some(max)) => {
                if !self.file_open(fd) {
                    return Ok(raised("io"));
                }
                if max <= 0 {
                    return Ok(Flow::Val(self.nothing_read(as_text)));
                }
                let q = Request::of(HostOp::ReadFd).num(fd).num(clamped(max));
                match self.ask(q) {
                    Err(s) => Err(s),
                    Ok(Reply::Failed(_)) => Ok(raised("io")),
                    Ok(Reply::Bytes(b)) => if b.len() == 0 {
                        Ok(raised("eof"))
                    } else if as_text {
                        self.text_in(b)
                    } else {
                        self.bytes_in(b)
                    },
                    Ok(_) => Err(refuse(BAD_REPLY, at)),
                }
            },
            _ => Err(refuse(FS_SHAPE, at)),
        }
    }

    pub fn nothing_read(&mut self, as_text: bool) -> (r: Value)
        requires
            old(self).inv(),
        ensures
            advanced(*old(self), *final(self)),
            as_text ==> final(self)@ == old(self)@ && r@ == ValueView::Str(Seq::empty()),
            !as_text ==> final(self)@ == old(self)@.new_list(Seq::empty()) && r@
                == old(self)@.next_list(),
    {
        if as_text {
            let none: Vec<u8> = Vec::new();
            assert(none@ =~= Seq::<u8>::empty());
            str_value(&none)
        } else {
            let none: Vec<Value> = Vec::new();
            assert(vals(none@) =~= Seq::<ValueView>::empty());
            self.new_list(none)
        }
    }

    fn fs_close(&mut self, args: &Vec<Value>, at: Span) -> (r: Result<Flow, Stop>)
        requires
            old(self).inv(),
        ensures
            advanced(*old(self), *final(self)),
            (final(self)@, flow_result(r)) == fs_close(
                old(self).world(),
                old(self)@,
                vals(args@),
                at,
            ),
    {
        match int_arg(args, 0) {
            Some(fd) => {
                if !self.file_open(fd) {
                    return Ok(raised("io"));
                }
                match self.ask(Request::of(HostOp::CloseFd).num(fd)) {
                    Err(s) => Err(s),
                    Ok(_) => {
                        let ghost mid = self@;
                        let count: usize = self.host.files.len();
                        assert(fd < count);
                        self.host.files.set(fd as usize, false);
                        proof {
                            let h = HostView {
                                files: mid.host.files.update(fd as int, false),
                                ..mid.host
                            };
                            assert(self@.host =~= h);
                            assert(self@ =~= mid.with_host(h));
                            reveal(Machine::inv);
                        }
                        Ok(Flow::Val(Value::Unit))
                    },
                }
            },
            None => Err(refuse(FS_SHAPE, at)),
        }
    }

    fn fs_whole(&mut self, args: &Vec<Value>, as_text: bool, at: Span) -> (r: Result<Flow, Stop>)
        requires
            old(self).inv(),
        ensures
            advanced(*old(self), *final(self)),
            (final(self)@, flow_result(r)) == fs_whole(
                old(self).world(),
                old(self)@,
                vals(args@),
                as_text,
                at,
            ),
    {
        match str_arg(args, 0) {
            Some(path) => match self.ask(Request::of(HostOp::ReadFile).text(path)) {
                Err(s) => Err(s),
                Ok(Reply::Failed(e)) => Ok(raised(fs_row_of(*e, true, true, false, false))),
                Ok(Reply::Bytes(b)) => if as_text {
                    self.text_in(b)
                } else {
                    self.bytes_in(b)
                },
                Ok(_) => Err(refuse(BAD_REPLY, at)),
            },
            None => Err(refuse(FS_SHAPE, at)),
        }
    }

    #[verifier::spinoff_prover]
    fn fs_put(&mut self, n: &str, args: &Vec<Value>, at: Span) -> (r: Result<Flow, Stop>)
        requires
            old(self).inv(),
        ensures
            advanced(*old(self), *final(self)),
            (final(self)@, flow_result(r)) == fs_put(
                old(self).world(),
                old(self)@,
                n@,
                vals(args@),
                at,
            ),
    {
        if str_eq(n, "fs_write_text") {
            match (str_arg(args, 0), str_arg(args, 1)) {
                (Some(path), Some(b)) => self.fs_done(
                    Request::of(HostOp::WriteFile).text(path).text(b),
                    true,
                    true,
                    false,
                    false,
                    at,
                ),
                _ => Err(refuse(FS_SHAPE, at)),
            }
        } else if str_eq(n, "fs_write") {
            match (int_arg(args, 0), str_arg(args, 1)) {
                (Some(fd), Some(b)) => if self.file_open(fd) {
                    self.fs_done(
                        Request::of(HostOp::WriteFd).text(b).num(fd),
                        false,
                        false,
                        false,
                        false,
                        at,
                    )
                } else {
                    Ok(raised("io"))
                },
                _ => Err(refuse(FS_SHAPE, at)),
            }
        } else if str_eq(n, "fs_write_bytes") {
            let items = self.bytes_arg(&arg_at(args, 1));
            match (str_arg(args, 0), items) {
                (Some(path), ByteArg::Bytes(b)) => self.fs_done(
                    Request::of(HostOp::WriteFile).text(path).text(b),
                    true,
                    true,
                    false,
                    false,
                    at,
                ),
                (Some(_), ByteArg::NotByte) => Ok(raised("invalid")),
                _ => Err(refuse(FS_SHAPE, at)),
            }
        } else {
            let items = self.bytes_arg(&arg_at(args, 1));
            match (int_arg(args, 0), items) {
                (Some(fd), ByteArg::Bytes(b)) => if self.file_open(fd) {
                    self.fs_done(
                        Request::of(HostOp::WriteFd).text(b).num(fd),
                        false,
                        false,
                        false,
                        false,
                        at,
                    )
                } else {
                    Ok(raised("io"))
                },
                (Some(_), ByteArg::NotByte) => Ok(raised("invalid")),
                _ => Err(refuse(FS_SHAPE, at)),
            }
        }
    }

    fn read_dir(&mut self, path: Vec<u8>, at: Span) -> (r: Result<Flow, Stop>)
        requires
            old(self).inv(),
        ensures
            advanced(*old(self), *final(self)),
            (final(self)@, flow_result(r)) == (match ask_of(
                old(self).world(),
                old(self)@,
                RequestView::of(HostOp::ReadDir).text(path@),
            ) {
                (m1, Err(s)) => (m1, Err(s)),
                (m1, Ok(ReplyView::Names(v))) => if all_text(v) {
                    texts_in(m1, sorted_names(v, v.len()))
                } else {
                    raises(m1, "utf8"@)
                },
                (m1, Ok(ReplyView::NotText)) => raises(m1, "utf8"@),
                (m1, Ok(ReplyView::Failed(e))) => raises(m1, fs_row(e, true, true, false, false)),
                (m1, Ok(_)) => odd(m1, at),
            }),
    {
        match self.ask(Request::of(HostOp::ReadDir).text(path)) {
            Err(s) => Err(s),
            Ok(Reply::Names(v)) => {
                if !are_text(v) {
                    return Ok(raised("utf8"));
                }
                proof {
                    lemma_names_text(byte_views(v@), byte_views(v@).len());
                }
                let sorted = sort_names(v);
                self.texts_in(&sorted)
            },
            Ok(Reply::NotText) => Ok(raised("utf8")),
            Ok(Reply::Failed(e)) => Ok(raised(fs_row_of(*e, true, true, false, false))),
            Ok(_) => Err(refuse(BAD_REPLY, at)),
        }
    }

    #[verifier::spinoff_prover]
    fn fs_path(&mut self, n: &str, args: &Vec<Value>, at: Span) -> (r: Result<Flow, Stop>)
        requires
            old(self).inv(),
        ensures
            advanced(*old(self), *final(self)),
            (final(self)@, flow_result(r)) == fs_path(
                old(self).world(),
                old(self)@,
                n@,
                vals(args@),
                at,
            ),
    {
        let path = match str_arg(args, 0) {
            None => return Err(refuse(FS_SHAPE, at)),
            Some(p) => p,
        };
        if let Some(op) = path_change(n) {
            let deep = str_eq(n, "fs_create_dir_all");
            let create = str_eq(n, "fs_create_dir");
            return self.fs_done(Request::of(op).text(path), !deep, true, create, false, at);
        }
        if let Some(op) = path_question(n) {
            return match self.ask(Request::of(op).text(path)) {
                Err(s) => Err(s),
                Ok(Reply::Flag(b)) => Ok(Flow::Val(Value::Bool(*b))),
                Ok(_) => Ok(Flow::Val(Value::Bool(false))),
            };
        }
        if str_eq(n, "fs_read_dir") {
            return self.read_dir(path, at);
        }
        let op = if str_eq(n, "fs_size") {
            HostOp::FileSize
        } else {
            HostOp::ModifiedMs
        };
        match self.ask(Request::of(op).text(path)) {
            Err(s) => Err(s),
            Ok(Reply::Int(k)) => Ok(Flow::Val(Value::Int(*k))),
            Ok(Reply::Failed(e)) => Ok(raised(fs_row_of(*e, true, true, false, false))),
            Ok(_) => Ok(raised("io")),
        }
    }

    /// The file built-ins; another name is refused.
    #[verifier::spinoff_prover]
    pub fn io_fs_builtin(&mut self, n: &str, args: &Vec<Value>, at: Span) -> (r: Result<Flow, Stop>)
        requires
            old(self).inv(),
        ensures
            advanced(*old(self), *final(self)),
            (final(self)@, flow_result(r)) == io_fs_builtin(
                old(self).world(),
                old(self)@,
                n@,
                vals(args@),
                at,
            ),
    {
        if !files(n) {
            Err(refuse(NO_FS, at))
        } else if str_eq(n, "read_line") {
            self.read_line()
        } else if str_eq(n, "fs_read_text") {
            self.fs_whole(args, true, at)
        } else if str_eq(n, "fs_read_bytes") {
            self.fs_whole(args, false, at)
        } else if str_eq(n, "fs_open") || str_eq(n, "fs_create") || str_eq(n, "fs_open_mode") {
            self.fs_open(n, args, at)
        } else if str_eq(n, "fs_read") {
            self.fs_read(args, true, at)
        } else if str_eq(n, "fs_read_chunk") {
            self.fs_read(args, false, at)
        } else if str_eq(n, "fs_close") {
            self.fs_close(args, at)
        } else if str_eq(n, "fs_write_text") || str_eq(n, "fs_write") || str_eq(
            n,
            "fs_write_bytes",
        ) || str_eq(n, "fs_write_chunk") {
            self.fs_put(n, args, at)
        } else if str_eq(n, "fs_rename") {
            match (str_arg(args, 0), str_arg(args, 1)) {
                (Some(a), Some(b)) => self.fs_done(
                    Request::of(HostOp::Rename).text(a).text(b),
                    true,
                    true,
                    true,
                    true,
                    at,
                ),
                _ => Err(refuse(FS_SHAPE, at)),
            }
        } else {
            self.fs_path(n, args, at)
        }
    }
}

pub fn clamped(max: i64) -> (r: i64)
    ensures
        r == clamp_chunk(max),
{
    if max > CHUNK {
        CHUNK
    } else {
        max
    }
}

fn path_change(n: &str) -> (r: Option<HostOp>)
    ensures
        r == path_op(n@),
{
    if str_eq(n, "fs_remove") {
        Some(HostOp::RemoveFile)
    } else if str_eq(n, "fs_create_dir") {
        Some(HostOp::CreateDir)
    } else if str_eq(n, "fs_create_dir_all") {
        Some(HostOp::CreateDirAll)
    } else if str_eq(n, "fs_remove_dir") {
        Some(HostOp::RemoveDir)
    } else if str_eq(n, "fs_remove_dir_all") {
        Some(HostOp::RemoveDirAll)
    } else {
        None
    }
}

fn path_question(n: &str) -> (r: Option<HostOp>)
    ensures
        r == path_query(n@),
{
    if str_eq(n, "fs_exists") {
        Some(HostOp::Exists)
    } else if str_eq(n, "fs_is_file") {
        Some(HostOp::IsFile)
    } else if str_eq(n, "fs_is_dir") {
        Some(HostOp::IsDir)
    } else {
        None
    }
}

} // verus!

//! The built-in functions: printing, files, sockets, the process and its
//! environment, time, JSON and text decoding.
//!
//! What only the host can do is asked of it; what to ask, which handles
//! are good, how an answer is charged, decoded and mapped to the declared
//! error rows is decided here. A forged or closed handle is the `io` row,
//! never a trap.

use vstd::prelude::*;
use vstd::string::*;
use vstd::utf8::*;

use crate::diag::Span;
use crate::literal::{NEWLINE, RETURN};
use crate::machine::{HostView, State};
use crate::methods::{ints_of, strs_of};
use crate::semantics::{nth, raises, show_value, stops, unit, val, Ev, World, BAD_REPLY};
use crate::shadow::NO_MEMORY;
use crate::strs::all_text;
use crate::value::{
    byte_views, bytes_before, bytes_lt, copy_bytes, refused, trapped, FlowView, HostOp, ReplyView,
    RequestView, StopView, ValueView,
};
use crate::verdict::{fs_err_tag, fs_tag, net_err_tag, net_tag, HostError};

verus! {

pub const FS_SHAPE: &'static str = "this fs call shape";

pub const NET_SHAPE: &'static str = "this net call shape";

pub const OS_SHAPE: &'static str = "this os call shape";

pub const TIME_SHAPE: &'static str = "this time call shape";

pub const JSON_SHAPE: &'static str = "this json call shape";

pub const UTF8_SHAPE: &'static str = "this `str_from_utf8` call shape";

pub const UTF8_ITEMS: &'static str = "a `str_from_utf8` list of non-integers";

pub const NO_FS: &'static str = "this io/fs builtin";

pub const NO_NET: &'static str = "this net builtin";

pub const NO_OS: &'static str = "this os builtin";

pub const NO_TIME: &'static str = "this time builtin";

pub const NO_JSON: &'static str = "this json builtin";

pub const ARGV_ITEM: &'static str = "a non-str argv element";

pub const NO_SIGNAL: &'static str = "a blocking signal wait with no pending delivery in checked execution";

pub const CHUNK: i64 = 1_048_576;

// ------------------------------------------------------------------ names --

pub open spec fn is_print(n: Seq<char>) -> bool {
    n == "print"@ || n == "print_raw"@ || n == "eprint"@ || n == "eprint_raw"@
}

pub open spec fn is_fs(n: Seq<char>) -> bool {
    n == "read_line"@ || n == "fs_read_text"@ || n == "fs_write_text"@ || n == "fs_open"@ || n
        == "fs_create"@ || n == "fs_read"@ || n == "fs_write"@ || n == "fs_close"@ || n
        == "fs_remove"@ || n == "fs_exists"@ || n == "fs_open_mode"@ || n == "fs_read_bytes"@ || n
        == "fs_write_bytes"@ || n == "fs_read_chunk"@ || n == "fs_write_chunk"@ || n
        == "fs_read_dir"@ || n == "fs_create_dir"@ || n == "fs_create_dir_all"@ || n
        == "fs_remove_dir"@ || n == "fs_remove_dir_all"@ || n == "fs_rename"@ || n
        == "fs_is_file"@ || n == "fs_is_dir"@ || n == "fs_size"@ || n == "fs_modified_ms"@
}

pub open spec fn is_net(n: Seq<char>) -> bool {
    n == "net_listen"@ || n == "net_port"@ || n == "net_accept"@ || n == "net_connect"@ || n
        == "net_read"@ || n == "net_write"@ || n == "net_read_bytes"@ || n == "net_write_bytes"@
        || n == "net_close"@ || n == "net_deadline"@
}

pub open spec fn is_os(n: Seq<char>) -> bool {
    n == "env_args"@ || n == "env_get"@ || n == "env_set"@ || n == "env_vars"@ || n == "os_cwd"@
        || n == "os_exe"@ || n == "os_exit"@ || n == "os_spawn"@ || n == "os_wait"@ || n
        == "os_kill"@ || n == "os_signal_listen"@ || n == "os_signal_wait"@ || n
        == "os_signal_raise"@ || n == "os_random"@
}

pub open spec fn is_time(n: Seq<char>) -> bool {
    n == "time_now_ms"@ || n == "time_unix_ms"@ || n == "time_sleep_ms"@
}

pub open spec fn is_json(n: Seq<char>) -> bool {
    n == "json_valid"@ || n == "json_get"@ || n == "json_type"@ || n == "json_len"@
}

#[verifier::opaque]
pub open spec fn is_builtin(n: Seq<char>) -> bool {
    is_print(n) || is_fs(n) || is_net(n) || is_os(n) || is_time(n) || is_json(n) || n
        == "str_from_utf8"@
}

/// A built-in on its argument values.
#[verifier::opaque]
pub open spec fn builtin_call<'t>(
    w: World<'t>,
    m: State<'t>,
    n: Seq<char>,
    args: Seq<ValueView>,
    at: Span,
) -> Ev<'t> {
    if is_print(n) {
        print_call(w, m, n, args, at)
    } else if is_fs(n) {
        io_fs_builtin(w, m, n, args, at)
    } else if is_net(n) {
        net_builtin(w, m, n, args, at)
    } else if n == "str_from_utf8"@ {
        str_from_utf8(m, args, at)
    } else if is_json(n) {
        json_builtin(w, m, n, args, at)
    } else if is_time(n) {
        time_builtin(w, m, n, args, at)
    } else {
        os_builtin(w, m, n, args, at)
    }
}

// --------------------------------------------------------------- printing --

/// The renderings of the values from `i` on, in order.
pub open spec fn show_all<'t>(
    w: World<'t>,
    m: State<'t>,
    vs: Seq<ValueView>,
    i: int,
    acc: Seq<u8>,
    at: Span,
) -> (State<'t>, Result<Seq<u8>, StopView>)
    decreases vs.len() - i,
{
    if i >= vs.len() {
        (m, Ok(acc))
    } else {
        match show_value(w, m, vs[i], at) {
            (m1, Err(s)) => (m1, Err(s)),
            (m1, Ok(b)) => show_all(w, m1, vs, i + 1, acc + b, at),
        }
    }
}

pub open spec fn print_call<'t>(
    w: World<'t>,
    m: State<'t>,
    n: Seq<char>,
    args: Seq<ValueView>,
    at: Span,
) -> Ev<'t> {
    match show_all(w, m, args, 0, Seq::empty(), at) {
        (m1, Err(s)) => (m1, Err(s)),
        (m1, Ok(b)) => {
            let text = if n == "print"@ || n == "eprint"@ {
                b.push(NEWLINE)
            } else {
                b
            };
            if n == "eprint"@ || n == "eprint_raw"@ {
                unit(State { stderr: m1.stderr + text, ..m1 })
            } else {
                unit(State { stdout: m1.stdout + text, ..m1 })
            }
        },
    }
}

// ------------------------------------------------------------------ rows --

/// The file row of a failure; a tag the function does not declare is
/// `io`.
pub open spec fn fs_row(e: HostError, not_found: bool, denied: bool, exists: bool, cross: bool) -> Seq<
    char,
> {
    match e {
        HostError::NotFound => if not_found {
            fs_tag(e)
        } else {
            "io"@
        },
        HostError::PermissionDenied => if denied {
            fs_tag(e)
        } else {
            "io"@
        },
        HostError::AlreadyExists => if exists {
            fs_tag(e)
        } else {
            "io"@
        },
        HostError::CrossesDevices => if cross {
            fs_tag(e)
        } else {
            "io"@
        },
        _ => "io"@,
    }
}

pub fn fs_row_of(e: HostError, not_found: bool, denied: bool, exists: bool, cross: bool) -> (r: &'static str)
    ensures
        r@ == fs_row(e, not_found, denied, exists, cross),
{
    let keep = match e {
        HostError::NotFound => not_found,
        HostError::PermissionDenied => denied,
        HostError::AlreadyExists => exists,
        HostError::CrossesDevices => cross,
        _ => false,
    };
    if keep {
        fs_err_tag(e)
    } else {
        "io"
    }
}

/// The network row of a failure.
pub open spec fn net_row(e: HostError, refused: bool, timeout: bool, closed: bool) -> Seq<char> {
    match e {
        HostError::ConnectionRefused => if refused {
            net_tag(e)
        } else {
            "io"@
        },
        HostError::TimedOut | HostError::WouldBlock => if timeout {
            net_tag(e)
        } else {
            "io"@
        },
        HostError::ConnectionReset
        | HostError::ConnectionAborted
        | HostError::BrokenPipe
        | HostError::NotConnected => if closed {
            net_tag(e)
        } else {
            "io"@
        },
        _ => "io"@,
    }
}

pub fn net_row_of(e: HostError, refused: bool, timeout: bool, closed: bool) -> (r: &'static str)
    ensures
        r@ == net_row(e, refused, timeout, closed),
{
    let keep = match e {
        HostError::ConnectionRefused => refused,
        HostError::TimedOut | HostError::WouldBlock => timeout,
        HostError::ConnectionReset
        | HostError::ConnectionAborted
        | HostError::BrokenPipe
        | HostError::NotConnected => closed,
        _ => false,
    };
    if keep {
        net_err_tag(e)
    } else {
        "io"
    }
}

// ------------------------------------------------------------- arguments --

/// The bytes of a list of integers.
pub enum ByteList {
    Bytes(Seq<u8>),
    /// No list of integers.
    NotInts,
    /// An element that is no byte.
    NotByte,
}

pub open spec fn list_bytes(vs: Seq<ValueView>, i: int, acc: Seq<u8>) -> ByteList
    decreases vs.len() - i,
{
    if i >= vs.len() {
        ByteList::Bytes(acc)
    } else {
        match vs[i] {
            ValueView::Int(n) => if 0 <= n <= 255 {
                list_bytes(vs, i + 1, acc.push(n as u8))
            } else {
                ByteList::NotByte
            },
            _ => ByteList::NotInts,
        }
    }
}

pub open spec fn bytes_arg(m: State<'_>, v: ValueView) -> ByteList {
    match v {
        ValueView::List(id) => if id < m.lists.len() {
            list_bytes(m.lists[id as int], 0, Seq::empty())
        } else {
            ByteList::NotInts
        },
        _ => ByteList::NotInts,
    }
}

pub enum ByteArg {
    Bytes(Vec<u8>),
    NotInts,
    NotByte,
}

impl View for ByteArg {
    type V = ByteList;

    open spec fn view(&self) -> ByteList {
        match *self {
            ByteArg::Bytes(b) => ByteList::Bytes(b@),
            ByteArg::NotInts => ByteList::NotInts,
            ByteArg::NotByte => ByteList::NotByte,
        }
    }
}

/// An answered text: charged, and decoded or the `utf8` row.
pub open spec fn text_in<'t>(m: State<'t>, b: Seq<u8>) -> Ev<'t> {
    match m.charged(b.len()) {
        (m1, Err(s)) => (m1, Err(s)),
        (m1, Ok(_)) => if valid_utf8(b) {
            val(m1, ValueView::Str(b))
        } else {
            raises(m1, "utf8"@)
        },
    }
}

/// Answered bytes: charged, as a fresh list.
pub open spec fn bytes_in<'t>(m: State<'t>, b: Seq<u8>) -> Ev<'t> {
    match m.charged(b.len()) {
        (m1, Err(s)) => (m1, Err(s)),
        (m1, Ok(_)) => val(m1.new_list(ints_of(b)), m1.next_list()),
    }
}

/// An answered text as it is, charged.
pub open spec fn str_in<'t>(m: State<'t>, b: Seq<u8>) -> Ev<'t> {
    match m.charged(b.len()) {
        (m1, Err(s)) => (m1, Err(s)),
        (m1, Ok(_)) => val(m1, ValueView::Str(b)),
    }
}

pub open spec fn total_len(v: Seq<Seq<u8>>, n: nat) -> nat
    decreases n,
{
    if n == 0 {
        0
    } else {
        total_len(v, (n - 1) as nat) + v[n - 1].len()
    }
}

/// Texts as a fresh list, charged by their bytes.
pub open spec fn texts_in<'t>(m: State<'t>, v: Seq<Seq<u8>>) -> Ev<'t> {
    match m.charged(total_len(v, v.len())) {
        (m1, Err(s)) => (m1, Err(s)),
        (m1, Ok(_)) => val(m1.new_list(strs_of(v)), m1.next_list()),
    }
}

/// Where a name stands among sorted ones: behind all that are not
/// greater.
pub open spec fn name_slot(s: Seq<Seq<u8>>, x: Seq<u8>, n: nat) -> nat
    decreases n,
{
    if n == 0 {
        0
    } else if bytes_lt(x, s[n - 1], 0) {
        name_slot(s, x, (n - 1) as nat)
    } else {
        n
    }
}

/// The first `n` names, sorted.
pub open spec fn sorted_names(s: Seq<Seq<u8>>, n: nat) -> Seq<Seq<u8>>
    decreases n,
{
    if n == 0 {
        Seq::empty()
    } else {
        let rest = sorted_names(s, (n - 1) as nat);
        rest.insert(name_slot(rest, s[n - 1], rest.len()) as int, s[n - 1])
    }
}

pub fn sort_names(v: &Vec<Vec<u8>>) -> (r: Vec<Vec<u8>>)
    ensures
        byte_views(r@) == sorted_names(byte_views(v@), v@.len()),
{
    let ghost all = byte_views(v@);
    let mut out: Vec<Vec<u8>> = Vec::new();
    let mut i: usize = 0;
    assert(byte_views(out@) =~= sorted_names(all, 0));
    while i < v.len()
        invariant
            i <= v@.len(),
            all == byte_views(v@),
            byte_views(out@) == sorted_names(all, i as nat),
        decreases v.len() - i,
    {
        let ghost was = byte_views(out@);
        let x = copy_bytes(&v[i]);
        let ghost xv = x@;
        assert(xv == all[i as int]);
        let mut k: usize = out.len();
        while k > 0 && bytes_before(&x, &out[k - 1])
            invariant
                k <= out@.len(),
                was == byte_views(out@),
                xv == x@,
                name_slot(was, xv, was.len()) == name_slot(was, xv, k as nat),
            decreases k,
        {
            assert(was[k - 1] == out@[k - 1]@);
            k = k - 1;
        }
        assert(k as nat == name_slot(was, xv, k as nat)) by {
            if k > 0 {
                assert(was[k - 1] == out@[k - 1]@);
            }
        }
        out.insert(k, x);
        assert(byte_views(out@) =~= was.insert(k as int, xv));
        i = i + 1;
    }
    out
}

pub open spec fn ask_of<'t>(w: World<'t>, m: State<'t>, q: RequestView) -> (
    State<'t>,
    Result<ReplyView, StopView>,
) {
    m.asked(w.heard, q)
}

/// An answer of no expected kind.
pub open spec fn odd<'t>(m: State<'t>, at: Span) -> Ev<'t> {
    stops(m, refused(BAD_REPLY@, at))
}

pub open spec fn to_str(v: ValueView) -> Option<Seq<u8>> {
    match v {
        ValueView::Str(s) => Some(s),
        _ => None,
    }
}

pub open spec fn to_int(v: ValueView) -> Option<i64> {
    match v {
        ValueView::Int(n) => Some(n),
        _ => None,
    }
}

// ------------------------------------------------------------------ files --

pub open spec fn file_open(m: State<'_>, fd: i64) -> bool {
    0 <= fd < m.host.files.len() && m.host.files[fd as int]
}

/// A request that succeeds with nothing or fails with a file row.
pub open spec fn fs_done<'t>(
    w: World<'t>,
    m: State<'t>,
    q: RequestView,
    not_found: bool,
    denied: bool,
    exists: bool,
    cross: bool,
    at: Span,
) -> Ev<'t> {
    match ask_of(w, m, q) {
        (m1, Err(s)) => (m1, Err(s)),
        (m1, Ok(ReplyView::Done)) => unit(m1),
        (m1, Ok(ReplyView::Failed(e))) => raises(
            m1,
            fs_row(e, not_found, denied, exists, cross),
        ),
        (m1, Ok(_)) => odd(m1, at),
    }
}

/// The end of the line that begins at `i`: its terminator's position.
pub open spec fn newline_from(b: Seq<u8>, i: int) -> int
    decreases b.len() - i,
{
    if i >= b.len() || b[i] == NEWLINE {
        i
    } else {
        newline_from(b, i + 1)
    }
}

/// The next line of standard input, without its terminator.
pub open spec fn read_line<'t>(m: State<'t>) -> Ev<'t> {
    let b = m.host.stdin;
    let from = m.host.stdin_pos as int;
    if from >= b.len() {
        raises(m, "eof"@)
    } else {
        let end = newline_from(b, from);
        let hi = if end > from && b[end - 1] == RETURN {
            end - 1
        } else {
            end
        };
        let m1 = m.with_host(
            HostView {
                stdin_pos: if end < b.len() {
                    (end + 1) as usize
                } else {
                    end as usize
                },
                ..m.host
            },
        );
        str_in(m1, b.subrange(from, hi))
    }
}

/// The handle mode an open function asks for.
pub open spec fn open_mode(n: Seq<char>, args: Seq<ValueView>) -> Option<i64> {
    if n == "fs_open"@ {
        Some(0)
    } else if n == "fs_create"@ {
        Some(1)
    } else {
        to_int(nth(args, 1))
    }
}

pub open spec fn fs_open<'t>(
    w: World<'t>,
    m: State<'t>,
    n: Seq<char>,
    args: Seq<ValueView>,
    at: Span,
) -> Ev<'t> {
    match (to_str(nth(args, 0)), open_mode(n, args)) {
        (Some(path), Some(mode)) => if mode < 0 || mode > 4 {
            raises(m, "invalid"@)
        } else {
            let fd = m.host.files.len() as i64;
            match ask_of(w, m, RequestView::of(HostOp::OpenFile).text(path).num(mode).num(fd)) {
                (m1, Err(s)) => (m1, Err(s)),
                (m1, Ok(ReplyView::Done)) => val(
                    m1.with_host(HostView { files: m1.host.files.push(true), ..m1.host }),
                    ValueView::Int(fd),
                ),
                (m1, Ok(ReplyView::Failed(e))) => raises(
                    m1,
                    fs_row(e, n != "fs_create"@, true, n == "fs_open_mode"@, false),
                ),
                (m1, Ok(_)) => odd(m1, at),
            }
        },
        _ => stops(m, refused(FS_SHAPE@, at)),
    }
}

pub open spec fn clamp_chunk(max: i64) -> i64 {
    if max > CHUNK {
        CHUNK
    } else {
        max
    }
}

/// Read from a file handle, as text or as bytes.
pub open spec fn fs_read<'t>(
    w: World<'t>,
    m: State<'t>,
    args: Seq<ValueView>,
    as_text: bool,
    at: Span,
) -> Ev<'t> {
    match (to_int(nth(args, 0)), to_int(nth(args, 1))) {
        (Some(fd), Some(max)) => if !file_open(m, fd) {
            raises(m, "io"@)
        } else if max <= 0 {
            if as_text {
                val(m, ValueView::Str(Seq::empty()))
            } else {
                val(m.new_list(Seq::empty()), m.next_list())
            }
        } else {
            match ask_of(w, m, RequestView::of(HostOp::ReadFd).num(fd).num(clamp_chunk(max))) {
                (m1, Err(s)) => (m1, Err(s)),
                (m1, Ok(ReplyView::Failed(_))) => raises(m1, "io"@),
                (m1, Ok(ReplyView::Bytes(b))) => if b.len() == 0 {
                    raises(m1, "eof"@)
                } else if as_text {
                    text_in(m1, b)
                } else {
                    bytes_in(m1, b)
                },
                (m1, Ok(_)) => odd(m1, at),
            }
        },
        _ => stops(m, refused(FS_SHAPE@, at)),
    }
}

pub open spec fn fs_close<'t>(w: World<'t>, m: State<'t>, args: Seq<ValueView>, at: Span) -> Ev<'t> {
    match to_int(nth(args, 0)) {
        Some(fd) => if !file_open(m, fd) {
            raises(m, "io"@)
        } else {
            match ask_of(w, m, RequestView::of(HostOp::CloseFd).num(fd)) {
                (m1, Err(s)) => (m1, Err(s)),
                (m1, Ok(_)) => unit(
                    m1.with_host(
                        HostView { files: m1.host.files.update(fd as int, false), ..m1.host },
                    ),
                ),
            }
        },
        None => stops(m, refused(FS_SHAPE@, at)),
    }
}

/// A file's whole contents, as text or as bytes.
pub open spec fn fs_whole<'t>(
    w: World<'t>,
    m: State<'t>,
    args: Seq<ValueView>,
    as_text: bool,
    at: Span,
) -> Ev<'t> {
    match to_str(nth(args, 0)) {
        Some(path) => match ask_of(w, m, RequestView::of(HostOp::ReadFile).text(path)) {
            (m1, Err(s)) => (m1, Err(s)),
            (m1, Ok(ReplyView::Failed(e))) => raises(m1, fs_row(e, true, true, false, false)),
            (m1, Ok(ReplyView::Bytes(b))) => if as_text {
                text_in(m1, b)
            } else {
                bytes_in(m1, b)
            },
            (m1, Ok(_)) => odd(m1, at),
        },
        None => stops(m, refused(FS_SHAPE@, at)),
    }
}

/// Write a whole file or to a handle.
pub open spec fn fs_put<'t>(
    w: World<'t>,
    m: State<'t>,
    n: Seq<char>,
    args: Seq<ValueView>,
    at: Span,
) -> Ev<'t> {
    if n == "fs_write_text"@ {
        match (to_str(nth(args, 0)), to_str(nth(args, 1))) {
            (Some(path), Some(b)) => fs_done(
                w,
                m,
                RequestView::of(HostOp::WriteFile).text(path).text(b),
                true,
                true,
                false,
                false,
                at,
            ),
            _ => stops(m, refused(FS_SHAPE@, at)),
        }
    } else if n == "fs_write"@ {
        match (to_int(nth(args, 0)), to_str(nth(args, 1))) {
            (Some(fd), Some(b)) => if file_open(m, fd) {
                fs_done(
                    w,
                    m,
                    RequestView::of(HostOp::WriteFd).text(b).num(fd),
                    false,
                    false,
                    false,
                    false,
                    at,
                )
            } else {
                raises(m, "io"@)
            },
            _ => stops(m, refused(FS_SHAPE@, at)),
        }
    } else if n == "fs_write_bytes"@ {
        match (to_str(nth(args, 0)), bytes_arg(m, nth(args, 1))) {
            (Some(path), ByteList::Bytes(b)) => fs_done(
                w,
                m,
                RequestView::of(HostOp::WriteFile).text(path).text(b),
                true,
                true,
                false,
                false,
                at,
            ),
            (Some(_), ByteList::NotByte) => raises(m, "invalid"@),
            _ => stops(m, refused(FS_SHAPE@, at)),
        }
    } else {
        match (to_int(nth(args, 0)), bytes_arg(m, nth(args, 1))) {
            (Some(fd), ByteList::Bytes(b)) => if file_open(m, fd) {
                fs_done(
                    w,
                    m,
                    RequestView::of(HostOp::WriteFd).text(b).num(fd),
                    false,
                    false,
                    false,
                    false,
                    at,
                )
            } else {
                raises(m, "io"@)
            },
            (Some(_), ByteList::NotByte) => raises(m, "invalid"@),
            _ => stops(m, refused(FS_SHAPE@, at)),
        }
    }
}

/// The functions on a path that change the tree.
pub open spec fn path_op(n: Seq<char>) -> Option<HostOp> {
    if n == "fs_remove"@ {
        Some(HostOp::RemoveFile)
    } else if n == "fs_create_dir"@ {
        Some(HostOp::CreateDir)
    } else if n == "fs_create_dir_all"@ {
        Some(HostOp::CreateDirAll)
    } else if n == "fs_remove_dir"@ {
        Some(HostOp::RemoveDir)
    } else if n == "fs_remove_dir_all"@ {
        Some(HostOp::RemoveDirAll)
    } else {
        None
    }
}

/// The questions about a path.
pub open spec fn path_query(n: Seq<char>) -> Option<HostOp> {
    if n == "fs_exists"@ {
        Some(HostOp::Exists)
    } else if n == "fs_is_file"@ {
        Some(HostOp::IsFile)
    } else if n == "fs_is_dir"@ {
        Some(HostOp::IsDir)
    } else {
        None
    }
}

/// The file built-ins on one path.
pub open spec fn fs_path<'t>(
    w: World<'t>,
    m: State<'t>,
    n: Seq<char>,
    args: Seq<ValueView>,
    at: Span,
) -> Ev<'t> {
    match to_str(nth(args, 0)) {
        None => stops(m, refused(FS_SHAPE@, at)),
        Some(path) => match path_op(n) {
            Some(op) => fs_done(
                w,
                m,
                RequestView::of(op).text(path),
                n != "fs_create_dir_all"@,
                true,
                n == "fs_create_dir"@,
                false,
                at,
            ),
            None => match path_query(n) {
                Some(op) => match ask_of(w, m, RequestView::of(op).text(path)) {
                    (m1, Err(s)) => (m1, Err(s)),
                    (m1, Ok(ReplyView::Flag(b))) => val(m1, ValueView::Bool(b)),
                    (m1, Ok(_)) => val(m1, ValueView::Bool(false)),
                },
                None => if n == "fs_read_dir"@ {
                    match ask_of(w, m, RequestView::of(HostOp::ReadDir).text(path)) {
                        (m1, Err(s)) => (m1, Err(s)),
                        (m1, Ok(ReplyView::Names(v))) => if all_text(v) {
                            texts_in(m1, sorted_names(v, v.len()))
                        } else {
                            raises(m1, "utf8"@)
                        },
                        (m1, Ok(ReplyView::NotText)) => raises(m1, "utf8"@),
                        (m1, Ok(ReplyView::Failed(e))) => raises(
                            m1,
                            fs_row(e, true, true, false, false),
                        ),
                        (m1, Ok(_)) => odd(m1, at),
                    }
                } else {
                    match ask_of(
                        w,
                        m,
                        RequestView::of(
                            if n == "fs_size"@ {
                                HostOp::FileSize
                            } else {
                                HostOp::ModifiedMs
                            },
                        ).text(path),
                    ) {
                        (m1, Err(s)) => (m1, Err(s)),
                        (m1, Ok(ReplyView::Int(k))) => val(m1, ValueView::Int(k)),
                        (m1, Ok(ReplyView::Failed(e))) => raises(
                            m1,
                            fs_row(e, true, true, false, false),
                        ),
                        (m1, Ok(_)) => raises(m1, "io"@),
                    }
                },
            },
        },
    }
}

/// The file built-ins; another name is refused.
pub open spec fn io_fs_builtin<'t>(
    w: World<'t>,
    m: State<'t>,
    n: Seq<char>,
    args: Seq<ValueView>,
    at: Span,
) -> Ev<'t> {
    if !is_fs(n) {
        stops(m, refused(NO_FS@, at))
    } else if n == "read_line"@ {
        read_line(m)
    } else if n == "fs_read_text"@ {
        fs_whole(w, m, args, true, at)
    } else if n == "fs_read_bytes"@ {
        fs_whole(w, m, args, false, at)
    } else if n == "fs_open"@ || n == "fs_create"@ || n == "fs_open_mode"@ {
        fs_open(w, m, n, args, at)
    } else if n == "fs_read"@ {
        fs_read(w, m, args, true, at)
    } else if n == "fs_read_chunk"@ {
        fs_read(w, m, args, false, at)
    } else if n == "fs_close"@ {
        fs_close(w, m, args, at)
    } else if n == "fs_write_text"@ || n == "fs_write"@ || n == "fs_write_bytes"@ || n
        == "fs_write_chunk"@ {
        fs_put(w, m, n, args, at)
    } else if n == "fs_rename"@ {
        match (to_str(nth(args, 0)), to_str(nth(args, 1))) {
            (Some(a), Some(b)) => fs_done(
                w,
                m,
                RequestView::of(HostOp::Rename).text(a).text(b),
                true,
                true,
                true,
                true,
                at,
            ),
            _ => stops(m, refused(FS_SHAPE@, at)),
        }
    } else {
        fs_path(w, m, n, args, at)
    }
}

// ---------------------------------------------------------------- sockets --

pub open spec fn sock_at(m: State<'_>, fd: i64) -> Option<bool> {
    if 0 <= fd < m.host.socks.len() {
        m.host.socks[fd as int]
    } else {
        None
    }
}

/// The armed deadline of a listener, from `i` on.
pub open spec fn deadline_at(v: Seq<(i64, u64)>, fd: i64, i: int) -> Option<u64>
    decreases v.len() - i,
{
    if i >= v.len() {
        None
    } else if v[i].0 == fd {
        Some(v[i].1)
    } else {
        deadline_at(v, fd, i + 1)
    }
}

/// The deadlines without those of a handle, among the first `n`.
pub open spec fn deadlines_without(v: Seq<(i64, u64)>, fd: i64, n: nat) -> Seq<(i64, u64)>
    decreases n,
{
    if n == 0 {
        Seq::empty()
    } else if v[n - 1].0 == fd {
        deadlines_without(v, fd, (n - 1) as nat)
    } else {
        deadlines_without(v, fd, (n - 1) as nat).push(v[n - 1])
    }
}

/// A request that opens a socket.
pub open spec fn net_opened<'t>(
    w: World<'t>,
    m: State<'t>,
    q: RequestView,
    listener: bool,
    refused_row: bool,
    timeout: bool,
    at: Span,
) -> Ev<'t> {
    let fd = m.host.socks.len() as i64;
    match ask_of(w, m, q.num(fd)) {
        (m1, Err(s)) => (m1, Err(s)),
        (m1, Ok(ReplyView::Done)) => val(
            m1.with_host(HostView { socks: m1.host.socks.push(Some(listener)), ..m1.host }),
            ValueView::Int(fd),
        ),
        (m1, Ok(ReplyView::Failed(e))) => raises(m1, net_row(e, refused_row, timeout, false)),
        (m1, Ok(_)) => odd(m1, at),
    }
}

/// Receive from a stream, as text or as bytes.
pub open spec fn net_receive<'t>(
    w: World<'t>,
    m: State<'t>,
    args: Seq<ValueView>,
    as_text: bool,
    at: Span,
) -> Ev<'t> {
    match (to_int(nth(args, 0)), to_int(nth(args, 1))) {
        (Some(fd), Some(max)) => if sock_at(m, fd) != Some(false) {
            raises(m, "io"@)
        } else if max <= 0 {
            if as_text {
                val(m, ValueView::Str(Seq::empty()))
            } else {
                val(m.new_list(Seq::empty()), m.next_list())
            }
        } else {
            match ask_of(w, m, RequestView::of(HostOp::Receive).num(fd).num(clamp_chunk(max))) {
                (m1, Err(s)) => (m1, Err(s)),
                (m1, Ok(ReplyView::Failed(e))) => raises(m1, net_row(e, false, true, true)),
                (m1, Ok(ReplyView::Bytes(b))) => if b.len() == 0 {
                    raises(m1, "closed"@)
                } else if as_text {
                    text_in(m1, b)
                } else {
                    bytes_in(m1, b)
                },
                (m1, Ok(_)) => odd(m1, at),
            }
        },
        _ => stops(m, refused(NET_SHAPE@, at)),
    }
}

/// Send over a stream.
pub open spec fn net_sent<'t>(w: World<'t>, m: State<'t>, fd: i64, b: Seq<u8>, at: Span) -> Ev<'t> {
    if sock_at(m, fd) != Some(false) {
        raises(m, "io"@)
    } else {
        match ask_of(w, m, RequestView::of(HostOp::Send).text(b).num(fd)) {
            (m1, Err(s)) => (m1, Err(s)),
            (m1, Ok(ReplyView::Done)) => unit(m1),
            (m1, Ok(ReplyView::Failed(e))) => raises(m1, net_row(e, false, false, true)),
            (m1, Ok(_)) => odd(m1, at),
        }
    }
}

/// Arm or clear a deadline.
pub open spec fn net_deadline<'t>(w: World<'t>, m: State<'t>, fd: i64, ms: i64, at: Span) -> Ev<'t> {
    let rest = deadlines_without(m.host.deadlines, fd, m.host.deadlines.len());
    match sock_at(m, fd) {
        Some(true) => unit(
            m.with_host(
                HostView {
                    deadlines: if ms > 0 {
                        rest.push((fd, ms as u64))
                    } else {
                        rest
                    },
                    ..m.host
                },
            ),
        ),
        Some(false) => match ask_of(
            w,
            m,
            RequestView::of(HostOp::Deadline).num(fd).num(
                if ms > 0 {
                    ms
                } else {
                    0
                },
            ),
        ) {
            (m1, Err(s)) => (m1, Err(s)),
            (m1, Ok(ReplyView::Done)) => unit(m1),
            (m1, Ok(ReplyView::Failed(_))) => raises(m1, "io"@),
            (m1, Ok(_)) => odd(m1, at),
        },
        None => raises(m, "io"@),
    }
}

pub open spec fn net_close<'t>(w: World<'t>, m: State<'t>, fd: i64) -> Ev<'t> {
    let m0 = m.with_host(
        HostView {
            deadlines: deadlines_without(m.host.deadlines, fd, m.host.deadlines.len()),
            ..m.host
        },
    );
    if sock_at(m, fd) is None {
        raises(m0, "io"@)
    } else {
        match ask_of(w, m0, RequestView::of(HostOp::CloseSock).num(fd)) {
            (m1, Err(s)) => (m1, Err(s)),
            (m1, Ok(_)) => unit(
                m1.with_host(
                    HostView { socks: m1.host.socks.update(fd as int, None), ..m1.host },
                ),
            ),
        }
    }
}

/// The network built-ins; another name is refused.
pub open spec fn net_builtin<'t>(
    w: World<'t>,
    m: State<'t>,
    n: Seq<char>,
    args: Seq<ValueView>,
    at: Span,
) -> Ev<'t> {
    if !is_net(n) {
        stops(m, refused(NO_NET@, at))
    } else if n == "net_listen"@ || n == "net_connect"@ {
        match to_str(nth(args, 0)) {
            Some(addr) => if n == "net_listen"@ {
                net_opened(
                    w,
                    m,
                    RequestView::of(HostOp::Listen).text(addr),
                    true,
                    false,
                    false,
                    at,
                )
            } else {
                net_opened(
                    w,
                    m,
                    RequestView::of(HostOp::Connect).text(addr),
                    false,
                    true,
                    true,
                    at,
                )
            },
            None => stops(m, refused(NET_SHAPE@, at)),
        }
    } else if n == "net_read"@ {
        net_receive(w, m, args, true, at)
    } else if n == "net_read_bytes"@ {
        net_receive(w, m, args, false, at)
    } else {
        match to_int(nth(args, 0)) {
            None => stops(m, refused(NET_SHAPE@, at)),
            Some(fd) => if n == "net_port"@ {
                if sock_at(m, fd) is None {
                    raises(m, "io"@)
                } else {
                    match ask_of(w, m, RequestView::of(HostOp::Port).num(fd)) {
                        (m1, Err(s)) => (m1, Err(s)),
                        (m1, Ok(ReplyView::Int(p))) => val(m1, ValueView::Int(p)),
                        (m1, Ok(_)) => raises(m1, "io"@),
                    }
                }
            } else if n == "net_accept"@ {
                if sock_at(m, fd) != Some(true) {
                    raises(m, "io"@)
                } else {
                    net_opened(
                        w,
                        m,
                        RequestView::of(HostOp::Accept).num(fd).num(
                            match deadline_at(m.host.deadlines, fd, 0) {
                                Some(d) => d as i64,
                                None => 0,
                            },
                        ),
                        false,
                        false,
                        true,
                        at,
                    )
                }
            } else if n == "net_write"@ {
                match to_str(nth(args, 1)) {
                    Some(b) => net_sent(w, m, fd, b, at),
                    None => stops(m, refused(NET_SHAPE@, at)),
                }
            } else if n == "net_write_bytes"@ {
                match bytes_arg(m, nth(args, 1)) {
                    ByteList::Bytes(b) => net_sent(w, m, fd, b, at),
                    ByteList::NotByte => raises(m, "invalid"@),
                    ByteList::NotInts => stops(m, refused(NET_SHAPE@, at)),
                }
            } else if n == "net_close"@ {
                net_close(w, m, fd)
            } else {
                match to_int(nth(args, 1)) {
                    Some(ms) => net_deadline(w, m, fd, ms, at),
                    None => stops(m, refused(NET_SHAPE@, at)),
                }
            },
        }
    }
}

// ---------------------------------------------------------------- process --

/// Where a key stands in the environment, from `i` on.
pub open spec fn env_at(v: Seq<(Seq<u8>, Seq<u8>)>, key: Seq<u8>, i: int) -> Option<int>
    decreases v.len() - i,
{
    if i >= v.len() {
        None
    } else if v[i].0 == key {
        Some(i)
    } else {
        env_at(v, key, i + 1)
    }
}

pub open spec fn env_put(v: Seq<(Seq<u8>, Seq<u8>)>, key: Seq<u8>, x: Seq<u8>) -> Seq<
    (Seq<u8>, Seq<u8>),
> {
    match env_at(v, key, 0) {
        Some(i) => v.update(i, (key, x)),
        None => v.push((key, x)),
    }
}

pub open spec fn has_byte(b: Seq<u8>, c: u8) -> bool {
    exists|i: int| 0 <= i < b.len() && #[trigger] b[i] == c
}

/// A name or value no environment can hold.
pub open spec fn bad_env(key: Seq<u8>, x: Seq<u8>) -> bool {
    key.len() == 0 || has_byte(key, 61) || has_byte(key, 0) || has_byte(x, 0)
}

/// The host's variables (names and values in turn), the first `n` pairs;
/// those that are no text are skipped.
pub open spec fn host_env(v: Seq<Seq<u8>>, n: nat) -> Seq<(Seq<u8>, Seq<u8>)>
    decreases n,
{
    if n == 0 {
        Seq::empty()
    } else if valid_utf8(v[2 * n - 2]) && valid_utf8(v[2 * n - 1]) {
        env_put(host_env(v, (n - 1) as nat), v[2 * n - 2], v[2 * n - 1])
    } else {
        host_env(v, (n - 1) as nat)
    }
}

/// The environment with the program's own writes over it, the first `n`.
pub open spec fn overlaid(
    base: Seq<(Seq<u8>, Seq<u8>)>,
    own: Seq<(Seq<u8>, Seq<u8>)>,
    n: nat,
) -> Seq<(Seq<u8>, Seq<u8>)>
    decreases n,
{
    if n == 0 {
        base
    } else {
        env_put(overlaid(base, own, (n - 1) as nat), own[n - 1].0, own[n - 1].1)
    }
}

pub open spec fn env_slot(s: Seq<(Seq<u8>, Seq<u8>)>, k: Seq<u8>, n: nat) -> nat
    decreases n,
{
    if n == 0 {
        0
    } else if bytes_lt(k, s[n - 1].0, 0) {
        env_slot(s, k, (n - 1) as nat)
    } else {
        n
    }
}

/// The first `n` variables by name.
pub open spec fn sorted_env(v: Seq<(Seq<u8>, Seq<u8>)>, n: nat) -> Seq<(Seq<u8>, Seq<u8>)>
    decreases n,
{
    if n == 0 {
        Seq::empty()
    } else {
        let rest = sorted_env(v, (n - 1) as nat);
        rest.insert(env_slot(rest, v[n - 1].0, rest.len()) as int, v[n - 1])
    }
}

pub open spec fn env_lines(v: Seq<(Seq<u8>, Seq<u8>)>) -> Seq<Seq<u8>> {
    Seq::new(v.len(), |i: int| v[i].0.push(61) + v[i].1)
}

pub open spec fn env_vars<'t>(w: World<'t>, m: State<'t>, at: Span) -> Ev<'t> {
    match ask_of(w, m, RequestView::of(HostOp::EnvVars)) {
        (m1, Err(s)) => (m1, Err(s)),
        (m1, Ok(ReplyView::Names(v))) => {
            let all = overlaid(host_env(v, v.len() / 2), m1.host.env, m1.host.env.len());
            texts_in(m1, env_lines(sorted_env(all, all.len())))
        },
        (m1, Ok(_)) => odd(m1, at),
    }
}

/// The words of a list of strings; `None` when one is no string.
pub open spec fn words_of(vs: Seq<ValueView>, n: nat) -> Option<Seq<Seq<u8>>>
    decreases n,
{
    if n == 0 {
        Some(Seq::empty())
    } else {
        match (words_of(vs, (n - 1) as nat), vs[n - 1]) {
            (Some(rest), ValueView::Str(s)) => Some(rest.push(s)),
            _ => None,
        }
    }
}

pub open spec fn texts_request(q: RequestView, ws: Seq<Seq<u8>>) -> RequestView {
    RequestView { texts: q.texts + ws, ..q }
}

pub open spec fn os_spawn<'t>(w: World<'t>, m: State<'t>, args: Seq<ValueView>, at: Span) -> Ev<'t> {
    match nth(args, 0) {
        ValueView::List(id) => {
            let items = if id < m.lists.len() {
                m.lists[id as int]
            } else {
                Seq::empty()
            };
            match words_of(items, items.len()) {
                None => stops(m, refused(ARGV_ITEM@, at)),
                Some(ws) => if ws.len() == 0 {
                    raises(m, "not_found"@)
                } else {
                    let child = m.host.children.len() as i64;
                    match ask_of(
                        w,
                        m,
                        texts_request(RequestView::of(HostOp::Spawn).num(child), ws),
                    ) {
                        (m1, Err(s)) => (m1, Err(s)),
                        (m1, Ok(ReplyView::Done)) => val(
                            m1.with_host(
                                HostView { children: m1.host.children.push(true), ..m1.host },
                            ),
                            ValueView::Int(child),
                        ),
                        (m1, Ok(ReplyView::Failed(e))) => raises(
                            m1,
                            fs_row(e, true, true, false, false),
                        ),
                        (m1, Ok(_)) => odd(m1, at),
                    }
                },
            }
        },
        _ => stops(m, refused(OS_SHAPE@, at)),
    }
}

pub open spec fn child_live(m: State<'_>, h: i64) -> bool {
    0 <= h < m.host.children.len() && m.host.children[h as int]
}

pub open spec fn reaped<'t>(m: State<'t>, h: i64) -> State<'t> {
    m.with_host(HostView { children: m.host.children.update(h as int, false), ..m.host })
}

/// A child's exit: its code, or the `signal` row; the handle is spent.
pub open spec fn os_wait<'t>(w: World<'t>, m: State<'t>, h: i64, at: Span) -> Ev<'t> {
    if !child_live(m, h) {
        raises(m, "io"@)
    } else {
        match ask_of(w, m, RequestView::of(HostOp::Wait).num(h)) {
            (m1, Err(s)) => (m1, Err(s)),
            (m1, Ok(ReplyView::Int(c))) => val(reaped(m1, h), ValueView::Int(c)),
            (m1, Ok(ReplyView::Absent)) => raises(reaped(m1, h), "signal"@),
            (m1, Ok(_)) => raises(m1, "io"@),
        }
    }
}

pub open spec fn os_kill<'t>(w: World<'t>, m: State<'t>, h: i64, at: Span) -> Ev<'t> {
    if !child_live(m, h) {
        raises(m, "io"@)
    } else {
        match ask_of(w, m, RequestView::of(HostOp::Kill).num(h)) {
            (m1, Err(s)) => (m1, Err(s)),
            (m1, Ok(ReplyView::Done)) => unit(m1),
            (m1, Ok(_)) => raises(m1, "io"@),
        }
    }
}

/// The first queued signal the mask wants, from `i` on.
pub open spec fn signal_at(v: Seq<i64>, want: u64, i: int) -> Option<int>
    decreases v.len() - i,
{
    if i >= v.len() {
        None
    } else if (v[i] as u64) & want != 0 {
        Some(i)
    } else {
        signal_at(v, want, i + 1)
    }
}

/// Signals are a queue inside the machine.
pub open spec fn os_signal<'t>(m: State<'t>, n: Seq<char>, k: i64, at: Span) -> Ev<'t> {
    if n == "os_signal_listen"@ {
        unit(
            m.with_host(
                HostView {
                    listening: ((m.host.listening as u64) | ((k as u64) & 15)) as i64,
                    ..m.host
                },
            ),
        )
    } else if n == "os_signal_raise"@ {
        if k != 1 && k != 2 && k != 4 && k != 8 {
            raises(m, "io"@)
        } else if (m.host.listening as u64) & (k as u64) != 0 {
            unit(m.with_host(HostView { signals: m.host.signals.push(k), ..m.host }))
        } else {
            unit(m)
        }
    } else {
        let want = (k as u64) & 15;
        if want == 0 {
            raises(m, "io"@)
        } else {
            match signal_at(m.host.signals, want, 0) {
                Some(i) => val(
                    m.with_host(HostView { signals: m.host.signals.remove(i), ..m.host }),
                    ValueView::Int(m.host.signals[i]),
                ),
                None => stops(m, refused(NO_SIGNAL@, at)),
            }
        }
    }
}

pub open spec fn os_random<'t>(w: World<'t>, m: State<'t>, k: i64, at: Span) -> Ev<'t> {
    if k < 0 {
        stops(m, trapped("assert"@, "os.random.fill"@, at))
    } else {
        match m.charged(k as nat) {
            (m1, Err(s)) => (m1, Err(s)),
            (m1, Ok(_)) => match ask_of(w, m1, RequestView::of(HostOp::Random).num(k)) {
                (m2, Err(s)) => (m2, Err(s)),
                (m2, Ok(ReplyView::Bytes(b))) => if b.len() == k {
                    val(m2.new_list(ints_of(b)), m2.next_list())
                } else {
                    stops(m2, trapped("assert"@, "os.random.trap"@, at))
                },
                (m2, Ok(_)) => stops(m2, trapped("assert"@, "os.random.trap"@, at)),
            },
        }
    }
}

pub open spec fn env_get<'t>(w: World<'t>, m: State<'t>, key: Seq<u8>, at: Span) -> Ev<'t> {
    match env_at(m.host.env, key, 0) {
        Some(i) => str_in(m, m.host.env[i].1),
        None => match ask_of(w, m, RequestView::of(HostOp::EnvGet).text(key)) {
            (m1, Err(s)) => (m1, Err(s)),
            (m1, Ok(ReplyView::Bytes(b))) => if valid_utf8(b) {
                str_in(m1, b)
            } else {
                raises(m1, "utf8"@)
            },
            (m1, Ok(ReplyView::Absent)) => raises(m1, "missing"@),
            (m1, Ok(ReplyView::NotText)) => raises(m1, "utf8"@),
            (m1, Ok(_)) => odd(m1, at),
        },
    }
}

/// Environment writes stay inside the machine.
pub open spec fn env_set<'t>(m: State<'t>, key: Seq<u8>, x: Seq<u8>) -> Ev<'t> {
    if bad_env(key, x) {
        raises(m, "invalid"@)
    } else {
        match m.charged(key.len() + x.len()) {
            (m1, Err(s)) => (m1, Err(s)),
            (m1, Ok(_)) => unit(
                m1.with_host(HostView { env: env_put(m1.host.env, key, x), ..m1.host }),
            ),
        }
    }
}

/// The process and environment built-ins; another name is refused.
pub open spec fn os_builtin<'t>(
    w: World<'t>,
    m: State<'t>,
    n: Seq<char>,
    args: Seq<ValueView>,
    at: Span,
) -> Ev<'t> {
    if !is_os(n) {
        stops(m, refused(NO_OS@, at))
    } else if n == "env_args"@ {
        texts_in(m, m.host.args)
    } else if n == "env_get"@ {
        match to_str(nth(args, 0)) {
            Some(key) => env_get(w, m, key, at),
            None => stops(m, refused(OS_SHAPE@, at)),
        }
    } else if n == "env_set"@ {
        match (to_str(nth(args, 0)), to_str(nth(args, 1))) {
            (Some(key), Some(x)) => env_set(m, key, x),
            _ => stops(m, refused(OS_SHAPE@, at)),
        }
    } else if n == "env_vars"@ {
        env_vars(w, m, at)
    } else if n == "os_cwd"@ || n == "os_exe"@ {
        match ask_of(
            w,
            m,
            RequestView::of(
                if n == "os_cwd"@ {
                    HostOp::Cwd
                } else {
                    HostOp::Exe
                },
            ),
        ) {
            (m1, Err(s)) => (m1, Err(s)),
            (m1, Ok(ReplyView::Bytes(b))) => if valid_utf8(b) {
                str_in(m1, b)
            } else {
                raises(m1, "io"@)
            },
            (m1, Ok(_)) => raises(m1, "io"@),
        }
    } else if n == "os_spawn"@ {
        os_spawn(w, m, args, at)
    } else {
        match to_int(nth(args, 0)) {
            None => stops(m, refused(OS_SHAPE@, at)),
            Some(k) => if n == "os_exit"@ {
                stops(m, StopView::Exit((k as int % 256) as u8))
            } else if n == "os_wait"@ {
                os_wait(w, m, k, at)
            } else if n == "os_kill"@ {
                os_kill(w, m, k, at)
            } else if n == "os_random"@ {
                os_random(w, m, k, at)
            } else {
                os_signal(m, n, k, at)
            },
        }
    }
}

// ------------------------------------------------------------------- time --

/// The clock built-ins; another name is refused.
pub open spec fn time_builtin<'t>(
    w: World<'t>,
    m: State<'t>,
    n: Seq<char>,
    args: Seq<ValueView>,
    at: Span,
) -> Ev<'t> {
    if !is_time(n) {
        stops(m, refused(NO_TIME@, at))
    } else if n == "time_sleep_ms"@ {
        match to_int(nth(args, 0)) {
            Some(ms) => if ms > 0 {
                match ask_of(w, m, RequestView::of(HostOp::SleepMs).num(ms)) {
                    (m1, Err(s)) => (m1, Err(s)),
                    (m1, Ok(_)) => unit(m1),
                }
            } else {
                unit(m)
            },
            None => stops(m, refused(TIME_SHAPE@, at)),
        }
    } else {
        match ask_of(
            w,
            m,
            RequestView::of(
                if n == "time_now_ms"@ {
                    HostOp::NowMs
                } else {
                    HostOp::UnixMs
                },
            ),
        ) {
            (m1, Err(s)) => (m1, Err(s)),
            (m1, Ok(ReplyView::Int(k))) => val(m1, ValueView::Int(k)),
            (m1, Ok(_)) => odd(m1, at),
        }
    }
}

/// A distance in milliseconds from the Unix epoch, negative before it;
/// nothing when it does not fit.
pub fn unix_ms(before: bool, millis: u128) -> (r: Option<i64>)
    ensures
        r is Some <==> millis <= i64::MAX,
        r matches Some(n) ==> n == (if before {
            -(millis as int)
        } else {
            millis as int
        }),
{
    if millis > 0x7fff_ffff_ffff_ffff {
        None
    } else if before {
        Some(-(millis as i64))
    } else {
        Some(millis as i64)
    }
}

/// A reading of a clock: milliseconds, at most what a program can hold.
pub fn clock_ms(millis: u128) -> (r: i64)
    ensures
        r == (if millis <= i64::MAX {
            millis as int
        } else {
            i64::MAX as int
        }),
{
    if millis > 0x7fff_ffff_ffff_ffff {
        i64::MAX
    } else {
        millis as i64
    }
}

// ------------------------------------------------------------------- json --

/// The JSON built-ins; another name is refused.
pub open spec fn json_builtin<'t>(
    w: World<'t>,
    m: State<'t>,
    n: Seq<char>,
    args: Seq<ValueView>,
    at: Span,
) -> Ev<'t> {
    if !is_json(n) {
        stops(m, refused(NO_JSON@, at))
    } else if n == "json_valid"@ {
        match to_str(nth(args, 0)) {
            Some(s) => match ask_of(w, m, RequestView::of(HostOp::JsonValid).text(s)) {
                (m1, Err(x)) => (m1, Err(x)),
                (m1, Ok(ReplyView::Flag(b))) => val(m1, ValueView::Bool(b)),
                (m1, Ok(_)) => odd(m1, at),
            },
            None => stops(m, refused(JSON_SHAPE@, at)),
        }
    } else {
        match (to_str(nth(args, 0)), to_str(nth(args, 1))) {
            (Some(s), Some(path)) => match ask_of(
                w,
                m,
                RequestView::of(
                    if n == "json_get"@ {
                        HostOp::JsonGet
                    } else if n == "json_type"@ {
                        HostOp::JsonType
                    } else {
                        HostOp::JsonLen
                    },
                ).text(s).text(path),
            ) {
                (m1, Err(x)) => (m1, Err(x)),
                (m1, Ok(ReplyView::NotText)) => raises(m1, "parse"@),
                (m1, Ok(ReplyView::Absent)) => raises(m1, "missing"@),
                (m1, Ok(ReplyView::BadKind)) => raises(m1, "kind"@),
                (m1, Ok(ReplyView::Int(k))) => val(m1, ValueView::Int(k)),
                (m1, Ok(ReplyView::Bytes(b))) => if !valid_utf8(b) {
                    odd(m1, at)
                } else if n == "json_get"@ {
                    str_in(m1, b)
                } else {
                    val(m1, ValueView::Str(b))
                },
                (m1, Ok(_)) => odd(m1, at),
            },
            _ => stops(m, refused(JSON_SHAPE@, at)),
        }
    }
}

// ------------------------------------------------------------------- text --

/// The only way to build a string out of numbers: it validates.
pub open spec fn str_from_utf8<'t>(m: State<'t>, args: Seq<ValueView>, at: Span) -> Ev<'t> {
    match nth(args, 0) {
        ValueView::List(id) => match bytes_arg(m, nth(args, 0)) {
            ByteList::NotInts => stops(m, refused(UTF8_ITEMS@, at)),
            ByteList::NotByte => raises(m, "utf8"@),
            ByteList::Bytes(b) => if valid_utf8(b) {
                str_in(m, b)
            } else {
                raises(m, "utf8"@)
            },
        },
        _ => stops(m, refused(UTF8_SHAPE@, at)),
    }
}

/// Every string a program builds out of numbers is valid text.
pub proof fn law_built_strings_are_text<'t>(m: State<'t>, args: Seq<ValueView>, at: Span)
    ensures
        str_from_utf8(m, args, at).1 matches Ok(FlowView::Val(v)) ==> (v matches ValueView::Str(s)
            && valid_utf8(s)),
{
}

/// Standard input is read line by line: a read consumes its line and
/// nothing else.
pub proof fn law_read_line_advances<'t>(m: State<'t>)
    requires
        m.host.stdin_pos < m.host.stdin.len(),
        m.host.stdin.len() < usize::MAX,
    ensures
        m.host.stdin_pos < read_line(m).0.host.stdin_pos <= m.host.stdin.len(),
        read_line(m).0.host.stdin == m.host.stdin,
{
    lemma_newline(m.host.stdin, m.host.stdin_pos as int);
}

proof fn lemma_newline(b: Seq<u8>, i: int)
    requires
        0 <= i <= b.len(),
    ensures
        i <= newline_from(b, i) <= b.len(),
        newline_from(b, i) == i ==> i == b.len() || b[i] == NEWLINE,
    decreases b.len() - i,
{
    if i < b.len() && b[i] != NEWLINE {
        lemma_newline(b, i + 1);
    }
}

// ----------------------------------------------------------------- order --

/// Not before, twice over, is not before.
proof fn lemma_bytes_chain(a: Seq<u8>, b: Seq<u8>, c: Seq<u8>, i: int)
    requires
        0 <= i,
        !bytes_lt(b, a, i),
        !bytes_lt(c, b, i),
    ensures
        !bytes_lt(c, a, i),
    decreases a.len() - i,
{
    if i < a.len() && i < b.len() && i < c.len() && a[i] == b[i] && b[i] == c[i] {
        lemma_bytes_chain(a, b, c, i + 1);
    }
}

/// Of two texts at most one is before the other.
proof fn lemma_bytes_apart(a: Seq<u8>, b: Seq<u8>, i: int)
    requires
        0 <= i,
        bytes_lt(a, b, i),
    ensures
        !bytes_lt(b, a, i),
    decreases a.len() - i,
{
    if i < a.len() && i < b.len() && a[i] == b[i] {
        lemma_bytes_apart(a, b, i + 1);
    }
}

/// Texts of which neither is before the other are one.
proof fn lemma_bytes_same(a: Seq<u8>, b: Seq<u8>, i: int)
    requires
        0 <= i <= a.len(),
        i <= b.len(),
        forall|k: int| 0 <= k < i ==> a[k] == b[k],
        !bytes_lt(a, b, i),
        !bytes_lt(b, a, i),
    ensures
        a == b,
    decreases a.len() - i,
{
    if i < a.len() && i < b.len() {
        lemma_bytes_same(a, b, i + 1);
    } else {
        assert(a =~= b);
    }
}

proof fn lemma_name_slot(s: Seq<Seq<u8>>, k: Seq<u8>, n: nat)
    requires
        n <= s.len(),
        forall|i: int, j: int|
            0 <= i < j < s.len() ==> !bytes_lt((#[trigger] s[j]), (#[trigger] s[i]), 0),
    ensures
        name_slot(s, k, n) <= n,
        forall|i: int| name_slot(s, k, n) <= i < n ==> bytes_lt(k, (#[trigger] s[i]), 0),
        forall|i: int| 0 <= i < name_slot(s, k, n) ==> !bytes_lt(k, (#[trigger] s[i]), 0),
    decreases n,
{
    if n > 0 {
        if bytes_lt(k, s[n - 1], 0) {
            lemma_name_slot(s, k, (n - 1) as nat);
        } else {
            assert forall|i: int| 0 <= i < n implies !bytes_lt(k, (#[trigger] s[i]), 0) by {
                if i < n - 1 {
                    lemma_bytes_chain(s[i], s[n - 1], k, 0);
                }
            }
        }
    }
}

/// A listing stands in ascending order, and no name is lost or made up.
pub proof fn law_names_sorted(s: Seq<Seq<u8>>, n: nat)
    requires
        n <= s.len(),
    ensures
        forall|i: int, j: int|
            0 <= i < j < sorted_names(s, n).len() ==> !bytes_lt(
                (#[trigger] sorted_names(s, n)[j]),
                (#[trigger] sorted_names(s, n)[i]),
                0,
            ),
        sorted_names(s, n).len() == n,
        sorted_names(s, n).to_multiset() =~= s.take(n as int).to_multiset(),
    decreases n,
{
    if n == 0 {
        assert(s.take(0) =~= Seq::empty());
    } else {
        law_names_sorted(s, (n - 1) as nat);
        let rest = sorted_names(s, (n - 1) as nat);
        let x = s[n - 1];
        lemma_name_slot(rest, x, rest.len());
        let k = name_slot(rest, x, rest.len()) as int;
        let r = rest.insert(k, x);
        assert forall|i: int, j: int| 0 <= i < j < r.len() implies !bytes_lt(
            (#[trigger] r[j]),
            (#[trigger] r[i]),
            0,
        ) by {
            if i == k {
                assert(r[j] == rest[j - 1]);
                assert(bytes_lt(x, rest[j - 1], 0));
                lemma_bytes_apart(x, rest[j - 1], 0);
            } else if j == k {
                assert(r[i] == rest[i]);
            } else {
                let i0 = if i < k {
                    i
                } else {
                    i - 1
                };
                let j0 = if j < k {
                    j
                } else {
                    j - 1
                };
                assert(r[i] == rest[i0] && r[j] == rest[j0]);
            }
        }
        vstd::seq_lib::to_multiset_insert(rest, k, x);
        assert(s.take(n as int) =~= s.take(n - 1).push(x));
        vstd::seq_lib::to_multiset_build(s.take(n - 1), x);
    }
}

proof fn lemma_env_slot(s: Seq<(Seq<u8>, Seq<u8>)>, k: Seq<u8>, n: nat)
    requires
        n <= s.len(),
        forall|i: int, j: int|
            0 <= i < j < s.len() ==> !bytes_lt((#[trigger] s[j]).0, (#[trigger] s[i]).0, 0),
    ensures
        env_slot(s, k, n) <= n,
        forall|i: int| env_slot(s, k, n) <= i < n ==> bytes_lt(k, (#[trigger] s[i]).0, 0),
        forall|i: int| 0 <= i < env_slot(s, k, n) ==> !bytes_lt(k, (#[trigger] s[i]).0, 0),
    decreases n,
{
    if n > 0 {
        if bytes_lt(k, s[n - 1].0, 0) {
            lemma_env_slot(s, k, (n - 1) as nat);
        } else {
            assert forall|i: int| 0 <= i < n implies !bytes_lt(k, (#[trigger] s[i]).0, 0) by {
                if i < n - 1 {
                    lemma_bytes_chain(s[i].0, s[n - 1].0, k, 0);
                }
            }
        }
    }
}

/// Variables stand by name, and none is lost or made up.
pub proof fn law_env_sorted(s: Seq<(Seq<u8>, Seq<u8>)>, n: nat)
    requires
        n <= s.len(),
    ensures
        forall|i: int, j: int|
            0 <= i < j < sorted_env(s, n).len() ==> !bytes_lt(
                (#[trigger] sorted_env(s, n)[j]).0,
                (#[trigger] sorted_env(s, n)[i]).0,
                0,
            ),
        sorted_env(s, n).len() == n,
        sorted_env(s, n).to_multiset() =~= s.take(n as int).to_multiset(),
    decreases n,
{
    if n == 0 {
        assert(s.take(0) =~= Seq::empty());
    } else {
        law_env_sorted(s, (n - 1) as nat);
        let rest = sorted_env(s, (n - 1) as nat);
        let x = s[n - 1];
        lemma_env_slot(rest, x.0, rest.len());
        let k = env_slot(rest, x.0, rest.len()) as int;
        let r = rest.insert(k, x);
        assert forall|i: int, j: int| 0 <= i < j < r.len() implies !bytes_lt(
            (#[trigger] r[j]).0,
            (#[trigger] r[i]).0,
            0,
        ) by {
            if i == k {
                assert(r[j] == rest[j - 1]);
                assert(bytes_lt(x.0, rest[j - 1].0, 0));
                lemma_bytes_apart(x.0, rest[j - 1].0, 0);
            } else if j == k {
                assert(r[i] == rest[i]);
            } else {
                let i0 = if i < k {
                    i
                } else {
                    i - 1
                };
                let j0 = if j < k {
                    j
                } else {
                    j - 1
                };
                assert(r[i] == rest[i0] && r[j] == rest[j0]);
            }
        }
        vstd::seq_lib::to_multiset_insert(rest, k, x);
        assert(s.take(n as int) =~= s.take(n - 1).push(x));
        vstd::seq_lib::to_multiset_build(s.take(n - 1), x);
    }
}

/// No name stands twice.
pub open spec fn distinct_names(v: Seq<(Seq<u8>, Seq<u8>)>) -> bool {
    forall|i: int, j: int|
        0 <= i < j < v.len() ==> (#[trigger] v[i]).0 != (#[trigger] v[j]).0
}

proof fn lemma_env_at(v: Seq<(Seq<u8>, Seq<u8>)>, key: Seq<u8>, i: int)
    requires
        0 <= i,
    ensures
        env_at(v, key, i) matches Some(k) ==> i <= k < v.len() && v[k].0 == key,
        env_at(v, key, i) matches Some(k) ==> forall|j: int|
            i <= j < k ==> (#[trigger] v[j]).0 != key,
        env_at(v, key, i) is None ==> forall|k: int|
            i <= k < v.len() ==> (#[trigger] v[k]).0 != key,
    decreases v.len() - i,
{
    if i < v.len() {
        lemma_env_at(v, key, i + 1);
    }
}

proof fn lemma_put_distinct(v: Seq<(Seq<u8>, Seq<u8>)>, key: Seq<u8>, x: Seq<u8>)
    requires
        distinct_names(v),
    ensures
        distinct_names(env_put(v, key, x)),
{
    lemma_env_at(v, key, 0);
    let r = env_put(v, key, x);
    assert forall|i: int, j: int| 0 <= i < j < r.len() implies (#[trigger] r[i]).0 != (
    #[trigger] r[j]).0 by {
        if env_at(v, key, 0) is Some {
            assert(v[i].0 != v[j].0);
        } else if j < v.len() {
            assert(v[i].0 != v[j].0);
        } else {
            assert(v[i].0 != key);
        }
    }
}

proof fn lemma_host_distinct(v: Seq<Seq<u8>>, n: nat)
    ensures
        distinct_names(host_env(v, n)),
    decreases n,
{
    if n > 0 {
        lemma_host_distinct(v, (n - 1) as nat);
        if valid_utf8(v[2 * n - 2]) && valid_utf8(v[2 * n - 1]) {
            lemma_put_distinct(host_env(v, (n - 1) as nat), v[2 * n - 2], v[2 * n - 1]);
        }
    }
}

proof fn lemma_overlaid_distinct(
    base: Seq<(Seq<u8>, Seq<u8>)>,
    own: Seq<(Seq<u8>, Seq<u8>)>,
    n: nat,
)
    requires
        distinct_names(base),
    ensures
        distinct_names(overlaid(base, own, n)),
    decreases n,
{
    if n > 0 {
        lemma_overlaid_distinct(base, own, (n - 1) as nat);
        lemma_put_distinct(
            overlaid(base, own, (n - 1) as nat),
            own[n - 1].0,
            own[n - 1].1,
        );
    }
}

/// The environment a program sees has one line per name, the names in
/// strictly ascending order.
pub proof fn law_one_line_per_name(v: Seq<Seq<u8>>, own: Seq<(Seq<u8>, Seq<u8>)>)
    ensures
        ({
            let all = overlaid(host_env(v, v.len() / 2), own, own.len());
            let s = sorted_env(all, all.len());
            &&& s.to_multiset() =~= all.to_multiset()
            &&& env_lines(s).len() == all.len()
            &&& forall|i: int, j: int|
                0 <= i < j < s.len() ==> bytes_lt((#[trigger] s[i]).0, (#[trigger] s[j]).0, 0)
        }),
{
    let all = overlaid(host_env(v, v.len() / 2), own, own.len());
    let s = sorted_env(all, all.len());
    lemma_host_distinct(v, v.len() / 2);
    lemma_overlaid_distinct(host_env(v, v.len() / 2), own, own.len());
    law_env_sorted(all, all.len());
    assert(all.take(all.len() as int) =~= all);
    lemma_sorted_distinct(all, all.len());
    assert forall|i: int, j: int| 0 <= i < j < s.len() implies bytes_lt(
        (#[trigger] s[i]).0,
        (#[trigger] s[j]).0,
        0,
    ) by {
        assert(!bytes_lt(s[j].0, s[i].0, 0));
        if !bytes_lt(s[i].0, s[j].0, 0) {
            lemma_bytes_same(s[i].0, s[j].0, 0);
        }
    }
}

proof fn lemma_sorted_distinct(v: Seq<(Seq<u8>, Seq<u8>)>, n: nat)
    requires
        n <= v.len(),
        distinct_names(v),
    ensures
        distinct_names(sorted_env(v, n)),
        forall|i: int|
            0 <= i < sorted_env(v, n).len() ==> exists|k: int|
                0 <= k < n && (#[trigger] sorted_env(v, n)[i]) == #[trigger] v[k],
    decreases n,
{
    if n > 0 {
        lemma_sorted_distinct(v, (n - 1) as nat);
        law_env_sorted(v, (n - 1) as nat);
        let rest = sorted_env(v, (n - 1) as nat);
        let x = v[n - 1];
        lemma_env_slot(rest, x.0, rest.len());
        let k = env_slot(rest, x.0, rest.len()) as int;
        let r = rest.insert(k, x);
        assert forall|i: int| 0 <= i < r.len() implies exists|q: int|
            0 <= q < n && (#[trigger] r[i]) == #[trigger] v[q] by {
            if i == k {
                assert(r[i] == v[n - 1]);
            } else {
                let i0 = if i < k {
                    i
                } else {
                    i - 1
                };
                assert(r[i] == rest[i0]);
                let q = choose|q: int| 0 <= q < n - 1 && rest[i0] == #[trigger] v[q];
                assert(r[i] == v[q]);
            }
        }
        assert forall|i: int, j: int| 0 <= i < j < r.len() implies (#[trigger] r[i]).0 != (
        #[trigger] r[j]).0 by {
            if i == k || j == k {
                let o = if i == k {
                    j - 1
                } else {
                    i
                };
                let q = choose|q: int| 0 <= q < n - 1 && rest[o] == #[trigger] v[q];
                assert(v[q].0 != v[n - 1].0);
            } else {
                let i0 = if i < k {
                    i
                } else {
                    i - 1
                };
                let j0 = if j < k {
                    j
                } else {
                    j - 1
                };
                assert(r[i] == rest[i0] && r[j] == rest[j0]);
                assert(rest[i0].0 != rest[j0].0);
            }
        }
    }
}

// --------------------------------------------------------------- validity --

/// Every name and value is text.
pub open spec fn env_text(v: Seq<(Seq<u8>, Seq<u8>)>) -> bool {
    forall|i: int|
        0 <= i < v.len() ==> valid_utf8((#[trigger] v[i]).0) && valid_utf8(v[i].1)
}

pub proof fn lemma_names_text(s: Seq<Seq<u8>>, n: nat)
    requires
        n <= s.len(),
        all_text(s),
    ensures
        all_text(sorted_names(s, n)),
    decreases n,
{
    if n > 0 {
        lemma_names_text(s, (n - 1) as nat);
        law_names_sorted(s, (n - 1) as nat);
        let rest = sorted_names(s, (n - 1) as nat);
        let x = s[n - 1];
        lemma_name_slot(rest, x, rest.len());
        let k = name_slot(rest, x, rest.len()) as int;
        let r = rest.insert(k, x);
        assert forall|i: int| 0 <= i < r.len() implies valid_utf8(#[trigger] r[i]) by {
            if i != k {
                let i0 = if i < k {
                    i
                } else {
                    i - 1
                };
                assert(r[i] == rest[i0]);
            }
        }
    }
}

pub proof fn lemma_put_text(v: Seq<(Seq<u8>, Seq<u8>)>, key: Seq<u8>, x: Seq<u8>)
    requires
        env_text(v),
        valid_utf8(key),
        valid_utf8(x),
    ensures
        env_text(env_put(v, key, x)),
{
    lemma_env_at(v, key, 0);
    let r = env_put(v, key, x);
    assert forall|i: int| 0 <= i < r.len() implies valid_utf8((#[trigger] r[i]).0) && valid_utf8(
        r[i].1,
    ) by {
        if i < v.len() && r[i] != (key, x) {
            assert(r[i] == v[i]);
        }
    }
}

proof fn lemma_host_text(v: Seq<Seq<u8>>, n: nat)
    ensures
        env_text(host_env(v, n)),
    decreases n,
{
    if n > 0 {
        lemma_host_text(v, (n - 1) as nat);
        if valid_utf8(v[2 * n - 2]) && valid_utf8(v[2 * n - 1]) {
            lemma_put_text(host_env(v, (n - 1) as nat), v[2 * n - 2], v[2 * n - 1]);
        }
    }
}

proof fn lemma_overlaid_text(
    base: Seq<(Seq<u8>, Seq<u8>)>,
    own: Seq<(Seq<u8>, Seq<u8>)>,
    n: nat,
)
    requires
        n <= own.len(),
        env_text(base),
        env_text(own),
    ensures
        env_text(overlaid(base, own, n)),
    decreases n,
{
    if n > 0 {
        lemma_overlaid_text(base, own, (n - 1) as nat);
        lemma_put_text(overlaid(base, own, (n - 1) as nat), own[n - 1].0, own[n - 1].1);
    }
}

proof fn lemma_sorted_env_text(v: Seq<(Seq<u8>, Seq<u8>)>, n: nat)
    requires
        n <= v.len(),
        env_text(v),
    ensures
        env_text(sorted_env(v, n)),
    decreases n,
{
    if n > 0 {
        lemma_sorted_env_text(v, (n - 1) as nat);
        law_env_sorted(v, (n - 1) as nat);
        let rest = sorted_env(v, (n - 1) as nat);
        let x = v[n - 1];
        lemma_env_slot(rest, x.0, rest.len());
        let k = env_slot(rest, x.0, rest.len()) as int;
        let r = rest.insert(k, x);
        assert forall|i: int| 0 <= i < r.len() implies valid_utf8((#[trigger] r[i]).0)
            && valid_utf8(r[i].1) by {
            if i != k {
                let i0 = if i < k {
                    i
                } else {
                    i - 1
                };
                assert(r[i] == rest[i0]);
            }
        }
    }
}

/// The lines of the environment a program sees are text.
pub proof fn lemma_env_lines_text(v: Seq<Seq<u8>>, own: Seq<(Seq<u8>, Seq<u8>)>)
    requires
        env_text(own),
    ensures
        ({
            let all = overlaid(host_env(v, v.len() / 2), own, own.len());
            all_text(env_lines(sorted_env(all, all.len())))
        }),
{
    let all = overlaid(host_env(v, v.len() / 2), own, own.len());
    let s = sorted_env(all, all.len());
    lemma_host_text(v, v.len() / 2);
    lemma_overlaid_text(host_env(v, v.len() / 2), own, own.len());
    lemma_sorted_env_text(all, all.len());
    assert forall|i: int| 0 <= i < s.len() implies valid_utf8(#[trigger] env_lines(s)[i]) by {
        let sign = seq![61u8];
        assert(valid_utf8(sign)) by {
            reveal_with_fuel(valid_utf8, 2);
            assert(pop_first_scalar(sign) =~= Seq::<u8>::empty());
            utf8_byte_ranges_bitwise(61);
        }
        valid_utf8_concat(s[i].0, sign);
        assert(s[i].0.push(61) =~= s[i].0 + sign);
        valid_utf8_concat(s[i].0.push(61), s[i].1);
    }
}

// ------------------------------------------------- environment, in time --

/// What the program wrote under a name, if it did.
pub open spec fn own_value(v: Seq<(Seq<u8>, Seq<u8>)>, key: Seq<u8>) -> Option<Seq<u8>> {
    match env_at(v, key, 0) {
        Some(i) => Some(v[i].1),
        None => None,
    }
}

proof fn lemma_first_at(v: Seq<(Seq<u8>, Seq<u8>)>, key: Seq<u8>, i: int, j: int)
    requires
        0 <= i <= j < v.len(),
        v[j].0 == key,
        forall|k: int| i <= k < j ==> (#[trigger] v[k]).0 != key,
    ensures
        env_at(v, key, i) == Some(j),
    decreases j - i,
{
    if i < j {
        assert(v[i].0 != key);
        lemma_first_at(v, key, i + 1, j);
    }
}

/// A written name reads back what was written last, and every other name
/// what it read before.
pub proof fn law_put_then_found(
    v: Seq<(Seq<u8>, Seq<u8>)>,
    key: Seq<u8>,
    x: Seq<u8>,
    other: Seq<u8>,
)
    ensures
        own_value(env_put(v, key, x), key) == Some(x),
        other != key ==> own_value(env_put(v, key, x), other) == own_value(v, other),
{
    let r = env_put(v, key, x);
    lemma_env_at(v, key, 0);
    let at = match env_at(v, key, 0) {
        Some(i) => i,
        None => v.len() as int,
    };
    assert(r[at] == (key, x));
    assert forall|k: int| 0 <= k < at implies (#[trigger] r[k]).0 != key by {
        assert(r[k] == v[k]);
    }
    lemma_first_at(r, key, 0, at);
    if other != key {
        lemma_env_at(v, other, 0);
        lemma_env_at(r, other, 0);
        match env_at(v, other, 0) {
            Some(j) => {
                assert(r[j] == v[j]);
                assert forall|k: int| 0 <= k < j implies (#[trigger] r[k]).0 != other by {
                    if k != at {
                        assert(r[k] == v[k]);
                    }
                }
                lemma_first_at(r, other, 0, j);
            },
            None => {
                if env_at(r, other, 0) is Some {
                    let j = env_at(r, other, 0).unwrap();
                    assert(j != at);
                    assert(r[j] == v[j]);
                }
            },
        }
    }
}

/// One call of a built-in.
pub struct BuiltinCall {
    pub name: Seq<char>,
    pub args: Seq<ValueView>,
    pub at: Span,
}

/// The call writes the variable of that name.
pub open spec fn writes_env(c: BuiltinCall, key: Seq<u8>) -> bool {
    c.name == "env_set"@ && to_str(nth(c.args, 0)) == Some(key)
}

/// The state after the first `n` calls.
pub open spec fn after_builtins<'t>(
    w: World<'t>,
    m: State<'t>,
    calls: Seq<BuiltinCall>,
    n: nat,
) -> State<'t>
    decreases n,
{
    if n == 0 {
        m
    } else {
        let c = calls[n - 1];
        builtin_call(w, after_builtins(w, m, calls, (n - 1) as nat), c.name, c.args, c.at).0
    }
}

proof fn lemma_show_keeps_env<'t>(
    w: World<'t>,
    m: State<'t>,
    vs: Seq<ValueView>,
    i: int,
    acc: Seq<u8>,
    at: Span,
)
    ensures
        show_all(w, m, vs, i, acc, at).0.host.env == m.host.env,
    decreases vs.len() - i,
{
    if i < vs.len() {
        match show_value(w, m, vs[i], at) {
            (m1, Ok(b)) => {
                lemma_show_keeps_env(w, m1, vs, i + 1, acc + b, at);
            },
            _ => {},
        }
    }
}

proof fn lemma_fs_keeps_env<'t>(
    w: World<'t>,
    m: State<'t>,
    n: Seq<char>,
    args: Seq<ValueView>,
    at: Span,
)
    ensures
        io_fs_builtin(w, m, n, args, at).0.host.env == m.host.env,
{
    assert(fs_path(w, m, n, args, at).0.host.env == m.host.env);
    assert(fs_put(w, m, n, args, at).0.host.env == m.host.env);
    assert(fs_open(w, m, n, args, at).0.host.env == m.host.env);
}

proof fn lemma_net_keeps_env<'t>(
    w: World<'t>,
    m: State<'t>,
    n: Seq<char>,
    args: Seq<ValueView>,
    at: Span,
)
    ensures
        net_builtin(w, m, n, args, at).0.host.env == m.host.env,
{
}

proof fn lemma_os_keeps_env<'t>(
    w: World<'t>,
    m: State<'t>,
    n: Seq<char>,
    args: Seq<ValueView>,
    at: Span,
)
    ensures
        n != "env_set"@ ==> os_builtin(w, m, n, args, at).0.host.env == m.host.env,
{
    assert(os_spawn(w, m, args, at).0.host.env == m.host.env);
    assert(env_vars(w, m, at).0.host.env == m.host.env);
}

/// Only a write of a variable changes what the program finds under its
/// name: every other built-in call leaves it.
pub proof fn law_only_env_set_writes<'t>(
    w: World<'t>,
    m: State<'t>,
    c: BuiltinCall,
    key: Seq<u8>,
)
    requires
        !writes_env(c, key),
    ensures
        own_value(builtin_call(w, m, c.name, c.args, c.at).0.host.env, key) == own_value(
            m.host.env,
            key,
        ),
{
    reveal(builtin_call);
    lemma_show_keeps_env(w, m, c.args, 0, Seq::empty(), c.at);
    lemma_fs_keeps_env(w, m, c.name, c.args, c.at);
    lemma_net_keeps_env(w, m, c.name, c.args, c.at);
    lemma_os_keeps_env(w, m, c.name, c.args, c.at);
    if c.name == "env_set"@ {
        lemma_os_names();
        match (to_str(nth(c.args, 0)), to_str(nth(c.args, 1))) {
            (Some(k), Some(x)) => {
                law_put_then_found(m.host.env, k, x, key);
            },
            _ => {},
        }
    }
}

proof fn lemma_kept_after<'t>(
    w: World<'t>,
    m: State<'t>,
    calls: Seq<BuiltinCall>,
    n: nat,
    key: Seq<u8>,
)
    requires
        n <= calls.len(),
        forall|i: int| 0 <= i < calls.len() ==> !writes_env(#[trigger] calls[i], key),
    ensures
        own_value(after_builtins(w, m, calls, n).host.env, key) == own_value(m.host.env, key),
    decreases n,
{
    if n > 0 {
        lemma_kept_after(w, m, calls, (n - 1) as nat, key);
        law_only_env_set_writes(
            w,
            after_builtins(w, m, calls, (n - 1) as nat),
            calls[n - 1],
            key,
        );
    }
}

proof fn lemma_os_names()
    ensures
        is_os("env_set"@),
        is_os("env_get"@),
        "env_set"@ != "env_get"@,
        "env_set"@ != "env_args"@,
        "env_get"@ != "env_args"@,
{
    reveal_strlit("env_set");
    reveal_strlit("env_get");
    reveal_strlit("env_args");
    assert("env_set"@[4] == 's');
    assert("env_get"@[4] == 'g');
}

/// `env_set` raises `invalid`, and changes nothing, exactly when the name
/// is empty or holds `=` or NUL, or the value holds NUL. Otherwise it is
/// charged and done inside the machine: it asks nothing of the host, whose
/// own environment is never written.
pub proof fn law_env_set_stays_inside<'t>(
    w: World<'t>,
    m: State<'t>,
    key: Seq<u8>,
    x: Seq<u8>,
    at: Span,
)
    ensures
        ({
            let args = seq![ValueView::Str(key), ValueView::Str(x)];
            let r = os_builtin(w, m, "env_set"@, args, at);
            &&& bad_env(key, x) ==> r == raises(m, "invalid"@)
            &&& r.1 == raises(m, "invalid"@).1 ==> bad_env(key, x)
            &&& !bad_env(key, x) && m.sh.affords(key.len() + x.len()) ==> r.1 == unit(m).1
            &&& !bad_env(key, x) && !m.sh.affords(key.len() + x.len()) ==> r.1 == Err::<
                FlowView,
                StopView,
            >(StopView::Budget(NO_MEMORY@))
            &&& r.0.host.pos == m.host.pos
        }),
{
    lemma_os_names();
}

/// A written variable reads back: after `env_set` of a name and a value,
/// `env_get` of the name gives that value, charged by its bytes, whatever
/// built-ins are called in between that do not set the name, and whatever
/// the host holds under it.
pub proof fn law_env_reads_back<'t>(
    w: World<'t>,
    m: State<'t>,
    key: Seq<u8>,
    x: Seq<u8>,
    at: Span,
    calls: Seq<BuiltinCall>,
    later: Span,
)
    requires
        !bad_env(key, x),
        m.sh.affords(key.len() + x.len()),
        forall|i: int| 0 <= i < calls.len() ==> !writes_env(#[trigger] calls[i], key),
    ensures
        ({
            let written = seq![ValueView::Str(key), ValueView::Str(x)];
            let (m1, done) = os_builtin(w, m, "env_set"@, written, at);
            let m2 = after_builtins(w, m1, calls, calls.len());
            let r = os_builtin(w, m2, "env_get"@, seq![ValueView::Str(key)], later);
            &&& done == unit(m).1
            &&& r == str_in(m2, x)
            &&& m2.sh.affords(x.len()) ==> r.1 == val(m2, ValueView::Str(x)).1
        }),
{
    lemma_os_names();
    let written = seq![ValueView::Str(key), ValueView::Str(x)];
    let m1 = os_builtin(w, m, "env_set"@, written, at).0;
    law_put_then_found(m.host.env, key, x, key);
    lemma_kept_after(w, m1, calls, calls.len(), key);
}

/// A write leaves the other names: `env_get` of one gives what it gave
/// before the write, unless the memory the write took is then missing.
pub proof fn law_env_set_keeps_others<'t>(
    w: World<'t>,
    m: State<'t>,
    key: Seq<u8>,
    x: Seq<u8>,
    at: Span,
    other: Seq<u8>,
    later: Span,
)
    requires
        other != key,
    ensures
        ({
            let written = seq![ValueView::Str(key), ValueView::Str(x)];
            let m1 = os_builtin(w, m, "env_set"@, written, at).0;
            let asks = seq![ValueView::Str(other)];
            let before = os_builtin(w, m, "env_get"@, asks, later).1;
            let after = os_builtin(w, m1, "env_get"@, asks, later).1;
            &&& own_value(m1.host.env, other) == own_value(m.host.env, other)
            &&& after == before || after == Err::<FlowView, StopView>(StopView::Budget(NO_MEMORY@))
        }),
{
    lemma_os_names();
    law_put_then_found(m.host.env, key, x, other);
}

proof fn lemma_print_names(n: Seq<char>)
    requires
        is_print(n),
    ensures
        n.len() > 1,
        n[0] == 'p' || n[0] == 'e' && n[1] == 'p',
{
    reveal_strlit("print");
    reveal_strlit("print_raw");
    reveal_strlit("eprint");
    reveal_strlit("eprint_raw");
    assert("print"@[0] == 'p');
    assert("print"@[1] == 'r');
    assert("print_raw"@[0] == 'p');
    assert("print_raw"@[1] == 'r');
    assert("eprint"@[0] == 'e');
    assert("eprint"@[1] == 'p');
    assert("eprint_raw"@[0] == 'e');
    assert("eprint_raw"@[1] == 'p');
}

proof fn lemma_fs_names(n: Seq<char>)
    requires
        is_fs(n),
    ensures
        n.len() > 1,
        n[0] == 'f' || n[0] == 'r',
{
    reveal_strlit("read_line");
    reveal_strlit("fs_read_text");
    reveal_strlit("fs_write_text");
    reveal_strlit("fs_open");
    reveal_strlit("fs_create");
    reveal_strlit("fs_read");
    reveal_strlit("fs_write");
    reveal_strlit("fs_close");
    reveal_strlit("fs_remove");
    reveal_strlit("fs_exists");
    reveal_strlit("fs_open_mode");
    reveal_strlit("fs_read_bytes");
    reveal_strlit("fs_write_bytes");
    reveal_strlit("fs_read_chunk");
    reveal_strlit("fs_write_chunk");
    reveal_strlit("fs_read_dir");
    reveal_strlit("fs_create_dir");
    reveal_strlit("fs_create_dir_all");
    reveal_strlit("fs_remove_dir");
    reveal_strlit("fs_remove_dir_all");
    reveal_strlit("fs_rename");
    reveal_strlit("fs_is_file");
    reveal_strlit("fs_is_dir");
    reveal_strlit("fs_size");
    reveal_strlit("fs_modified_ms");
    assert("read_line"@[0] == 'r');
    assert("fs_read_text"@[0] == 'f');
    assert("fs_write_text"@[0] == 'f');
    assert("fs_open"@[0] == 'f');
    assert("fs_create"@[0] == 'f');
    assert("fs_read"@[0] == 'f');
    assert("fs_write"@[0] == 'f');
    assert("fs_close"@[0] == 'f');
    assert("fs_remove"@[0] == 'f');
    assert("fs_exists"@[0] == 'f');
    assert("fs_open_mode"@[0] == 'f');
    assert("fs_read_bytes"@[0] == 'f');
    assert("fs_write_bytes"@[0] == 'f');
    assert("fs_read_chunk"@[0] == 'f');
    assert("fs_write_chunk"@[0] == 'f');
    assert("fs_read_dir"@[0] == 'f');
    assert("fs_create_dir"@[0] == 'f');
    assert("fs_create_dir_all"@[0] == 'f');
    assert("fs_remove_dir"@[0] == 'f');
    assert("fs_remove_dir_all"@[0] == 'f');
    assert("fs_rename"@[0] == 'f');
    assert("fs_is_file"@[0] == 'f');
    assert("fs_is_dir"@[0] == 'f');
    assert("fs_size"@[0] == 'f');
    assert("fs_modified_ms"@[0] == 'f');
}

proof fn lemma_net_names(n: Seq<char>)
    requires
        is_net(n),
    ensures
        n.len() > 1,
        n[0] == 'n',
{
    reveal_strlit("net_listen");
    reveal_strlit("net_port");
    reveal_strlit("net_accept");
    reveal_strlit("net_connect");
    reveal_strlit("net_read");
    reveal_strlit("net_write");
    reveal_strlit("net_read_bytes");
    reveal_strlit("net_write_bytes");
    reveal_strlit("net_close");
    reveal_strlit("net_deadline");
    assert("net_listen"@[0] == 'n');
    assert("net_port"@[0] == 'n');
    assert("net_accept"@[0] == 'n');
    assert("net_connect"@[0] == 'n');
    assert("net_read"@[0] == 'n');
    assert("net_write"@[0] == 'n');
    assert("net_read_bytes"@[0] == 'n');
    assert("net_write_bytes"@[0] == 'n');
    assert("net_close"@[0] == 'n');
    assert("net_deadline"@[0] == 'n');
}

proof fn lemma_json_names(n: Seq<char>)
    requires
        is_json(n),
    ensures
        n.len() > 1,
        n[0] == 'j',
{
    reveal_strlit("json_valid");
    reveal_strlit("json_get");
    reveal_strlit("json_type");
    reveal_strlit("json_len");
    assert("json_valid"@[0] == 'j');
    assert("json_get"@[0] == 'j');
    assert("json_type"@[0] == 'j');
    assert("json_len"@[0] == 'j');
}

proof fn lemma_time_names(n: Seq<char>)
    requires
        is_time(n),
    ensures
        n.len() > 1,
        n[0] == 't',
{
    reveal_strlit("time_now_ms");
    reveal_strlit("time_unix_ms");
    reveal_strlit("time_sleep_ms");
    assert("time_now_ms"@[0] == 't');
    assert("time_unix_ms"@[0] == 't');
    assert("time_sleep_ms"@[0] == 't');
}

proof fn lemma_process_names(n: Seq<char>)
    requires
        is_os(n),
    ensures
        n.len() > 1,
        n[0] == 'o' || n[0] == 'e' && n[1] == 'n',
{
    reveal_strlit("env_args");
    reveal_strlit("env_get");
    reveal_strlit("env_set");
    reveal_strlit("env_vars");
    reveal_strlit("os_cwd");
    reveal_strlit("os_exe");
    reveal_strlit("os_exit");
    reveal_strlit("os_spawn");
    reveal_strlit("os_wait");
    reveal_strlit("os_kill");
    reveal_strlit("os_signal_listen");
    reveal_strlit("os_signal_wait");
    reveal_strlit("os_signal_raise");
    reveal_strlit("os_random");
    assert("env_args"@[0] == 'e' && "env_args"@[1] == 'n');
    assert("env_get"@[0] == 'e' && "env_get"@[1] == 'n');
    assert("env_set"@[0] == 'e' && "env_set"@[1] == 'n');
    assert("env_vars"@[0] == 'e' && "env_vars"@[1] == 'n');
    assert("os_cwd"@[0] == 'o' && "os_cwd"@[1] == 's');
    assert("os_exe"@[0] == 'o' && "os_exe"@[1] == 's');
    assert("os_exit"@[0] == 'o' && "os_exit"@[1] == 's');
    assert("os_spawn"@[0] == 'o' && "os_spawn"@[1] == 's');
    assert("os_wait"@[0] == 'o' && "os_wait"@[1] == 's');
    assert("os_kill"@[0] == 'o' && "os_kill"@[1] == 's');
    assert("os_signal_listen"@[0] == 'o' && "os_signal_listen"@[1] == 's');
    assert("os_signal_wait"@[0] == 'o' && "os_signal_wait"@[1] == 's');
    assert("os_signal_raise"@[0] == 'o' && "os_signal_raise"@[1] == 's');
    assert("os_random"@[0] == 'o' && "os_random"@[1] == 's');
}

/// A process or environment name is no other built-in's: its call is the
/// one of `os_builtin`.
pub proof fn law_os_names_reach_os<'t>(
    w: World<'t>,
    m: State<'t>,
    n: Seq<char>,
    args: Seq<ValueView>,
    at: Span,
)
    requires
        is_os(n),
    ensures
        is_builtin(n),
        builtin_call(w, m, n, args, at) == os_builtin(w, m, n, args, at),
{
    reveal(builtin_call);
    reveal(is_builtin);
    lemma_process_names(n);
    if is_print(n) {
        lemma_print_names(n);
    }
    if is_fs(n) {
        lemma_fs_names(n);
    }
    if is_net(n) {
        lemma_net_names(n);
    }
    if is_json(n) {
        lemma_json_names(n);
    }
    if is_time(n) {
        lemma_time_names(n);
    }
    reveal_strlit("str_from_utf8");
    assert("str_from_utf8"@[0] == 's');
}

} // verus!

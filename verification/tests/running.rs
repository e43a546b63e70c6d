use wolf_mem::ast::{
    Arg, AssignOp, BinOp, Bind, Binder, Block, Body, BodyKind, CastInfo, CastKind, Expr, ExprKind,
    FnDecl, FnParam, Hole, Owner, PatKind, Pattern, PrefixOp, Statement, StrategySyntax,
};
use wolf_mem::cfg::ParamMode;
use wolf_mem::diag::Span;
use wolf_mem::machine::Machine;
use wolf_mem::package::{Package, SourceFile};
use wolf_mem::run::{
    discover_tests, find_entry, has_main, run_checked, run_checked_fn, run_checked_with_input, Halt,
};
use wolf_mem::types::{CallSig, ParamSig, Prim, SigTables, TyId, TyKind, TypeTable};
use wolf_mem::value::{Flow, HostOp, Reply, Stop, Value};
use wolf_mem::verdict::{Budget, HostError, RunOutcome, UbRow, Verdict};

const INT: u32 = 0;
const STR: u32 = 1;
const BOOL: u32 = 2;
const U8: u32 = 3;
const PTR: u32 = 4;
const LIST: u32 = 5;
const REGION: u32 = 6;
const POOL: u32 = 7;
const CHAR: u32 = 8;
const ROW: u32 = 9;
const UNION: u32 = 10;
const WRAP: u32 = 11;
const I8: u32 = 12;
const HANDLE: u32 = 13;
const F64: u32 = 14;
const SHARED: u32 = 15;
const WEAK: u32 = 16;

fn table() -> TypeTable {
    let kinds = vec![
        TyKind::Prim(Prim::Int),
        TyKind::Prim(Prim::Str),
        TyKind::Prim(Prim::Bool),
        TyKind::Prim(Prim::U8),
        TyKind::Ptr(TyId(U8)),
        TyKind::List(TyId(INT)),
        TyKind::RegionTy,
        TyKind::Pool(TyId(INT)),
        TyKind::Prim(Prim::Char),
        TyKind::Row { tags: vec![("oops".to_string(), vec![])], tail: None },
        TyKind::ErrUnion(TyId(INT), TyId(ROW)),
        TyKind::Wrapping(TyId(U8)),
        TyKind::Prim(Prim::I8),
        TyKind::Handle(TyId(INT)),
        TyKind::Prim(Prim::F64),
        TyKind::Shared(TyId(INT)),
        TyKind::Weak(TyId(INT)),
    ];
    let rendered = kinds.iter().map(|_| "t".to_string()).collect();
    TypeTable { kinds, rendered }
}

fn sigs() -> SigTables {
    SigTables { table: table(), modules: vec![vec![]], impls: vec![], traits: vec![] }
}

/// Builds trees in which every node has a span of its own.
struct Tree {
    next: u32,
}

impl Tree {
    fn new() -> Tree {
        Tree { next: 10 }
    }

    fn span(&mut self) -> Span {
        self.next += 1;
        Span { file: 0, lo: self.next, hi: self.next }
    }

    fn expr(&mut self, text: &str, ty: u32, kind: ExprKind) -> Expr {
        Expr { span: self.span(), text: text.to_string(), ty: Some(TyId(ty)), kind }
    }

    fn scalar(&mut self, text: &str, ty: u32) -> Expr {
        self.expr(text, ty, ExprKind::Literal { char_value: None, float_bits: None })
    }

    fn num(&mut self, n: i64) -> Expr {
        if n < 0 {
            let digits = n.to_string();
            let x = self.scalar(&digits[1..], INT);
            self.expr(&digits, INT, ExprKind::Prefix(PrefixOp::Minus, Box::new(x)))
        } else {
            self.scalar(&n.to_string(), INT)
        }
    }

    fn text(&mut self, s: &str) -> Expr {
        let quoted = format!("\"{}\"", s);
        self.expr(&quoted, STR, ExprKind::Str(vec![]))
    }

    fn name(&mut self, n: &str, ty: u32) -> Expr {
        self.expr(n, ty, ExprKind::Path(n.to_string()))
    }

    fn bin(&mut self, op: BinOp, l: Expr, r: Expr, ty: u32) -> Expr {
        self.expr("op", ty, ExprKind::Bin(op, Box::new(l), Box::new(r)))
    }

    fn call(&mut self, n: &str, args: Vec<Expr>, sig: Option<CallSig>, ty: u32) -> Expr {
        let callee = self.name(n, ty);
        self.expr(
            n,
            ty,
            ExprKind::Call {
                callee: Box::new(callee),
                args: args.into_iter().map(plain).collect(),
                sig,
                fold: None,
                dispatch: None,
            },
        )
    }

    fn method(&mut self, base: Expr, m: &str, args: Vec<Expr>, ty: u32) -> Expr {
        let callee = self.expr(m, ty, ExprKind::Member(Box::new(base), m.to_string()));
        let mut s = sig(m);
        s.has_self = true;
        self.expr(
            m,
            ty,
            ExprKind::Call {
                callee: Box::new(callee),
                args: args.into_iter().map(plain).collect(),
                sig: Some(s),
                fold: None,
                dispatch: None,
            },
        )
    }

    fn container(&mut self, head: &str, ty: u32) -> Expr {
        let h = self.name(head, ty);
        let elem = self.name("int", INT);
        let callee = self.expr(
            head,
            ty,
            ExprKind::Bracket { callee: Box::new(h), args: vec![elem], one_origin: false },
        );
        self.expr(
            head,
            ty,
            ExprKind::Call {
                callee: Box::new(callee),
                args: vec![],
                sig: None,
                fold: None,
                dispatch: None,
            },
        )
    }

    fn index(&mut self, base: Expr, i: Expr, ty: u32) -> Expr {
        self.expr(
            "index",
            ty,
            ExprKind::Bracket { callee: Box::new(base), args: vec![i], one_origin: false },
        )
    }

    fn pattern(&mut self, n: &str) -> Pattern {
        let span = self.span();
        Pattern {
            span,
            text: n.to_string(),
            kind: PatKind::Ident(Bind { name: n.to_string(), span, ty: None }),
        }
    }

    fn bind(&mut self, n: &str, init: Expr) -> Statement {
        let p = self.pattern(n);
        Statement::Bind(vec![Binder { pattern: Some(p), init: Some(init) }])
    }

    fn assign(&mut self, place: Expr, value: Expr) -> Statement {
        Statement::Assign { span: self.span(), op: AssignOp::Plain, place, value }
    }

    fn block(&mut self, stmts: Vec<Statement>) -> Block {
        let trailing = match stmts.last() {
            Some(Statement::Expr(e)) => Some(e.span),
            _ => None,
        };
        Block { span: self.span(), stmts, trailing }
    }

    fn func(&mut self, n: &str, params: Vec<&str>, stmts: Vec<Statement>) -> Body {
        let body = self.block(stmts);
        let span = self.span();
        let name_span = self.span();
        Body {
            name: n.to_string(),
            module: 0,
            file: 0,
            decl: 0,
            owner: Owner::Module,
            kind: BodyKind::Fn(FnDecl {
                span,
                name_span: Some(name_span),
                generics: vec![],
                params: params
                    .into_iter()
                    .map(|p| FnParam { name: p.to_string(), ty_text: None })
                    .collect(),
                body: Some(body),
            }),
            table: table(),
            imports: vec![],
        }
    }
}

fn plain(value: Expr) -> Arg {
    Arg { value, mode: None, mode_span: None }
}

fn sig(callee: &str) -> CallSig {
    CallSig {
        callee: callee.to_string(),
        has_self: false,
        ctor: false,
        c_call: false,
        params: vec![],
        decl_span: None,
    }
}

fn c_sig(callee: &str) -> CallSig {
    let mut s = sig(callee);
    s.c_call = true;
    s
}

const ROOT: Span = Span { file: 0, lo: 0, hi: 1000 };

fn package(bodies: Vec<Body>) -> Package {
    let fns = bodies
        .iter()
        .map(|b| {
            let n = match &b.kind {
                BodyKind::Fn(d) => d.params.len(),
                BodyKind::Init(_) => 0,
            };
            (b.name.clone(), n)
        })
        .collect();
    Package {
        sigs: sigs(),
        bodies,
        files: vec![SourceFile { lines: vec![], root: ROOT, fns }],
        modules: vec![vec!["m".to_string()]],
    }
}

fn run_main(t: &mut Tree, stmts: Vec<Statement>) -> Result<RunOutcome, Halt> {
    let main = t.func("main", vec![], stmts);
    run_checked(&package(vec![main]), Budget::default(), &vec![])
}

fn exit_of(r: Result<RunOutcome, Halt>) -> u8 {
    match r {
        Ok(RunOutcome { verdict: Verdict::Exit(c), .. }) => c,
        Ok(o) => panic!("no exit: {:?}", o),
        Err(Halt::Refuse(n)) => panic!("refused: {}", n.construct),
        Err(Halt::Ask(q)) => panic!("asked: {:?}", q),
    }
}

fn trap_of(r: Result<RunOutcome, Halt>) -> &'static str {
    match r {
        Ok(RunOutcome { verdict: Verdict::Trap(t), .. }) => t.kind,
        Ok(o) => panic!("no trap: {:?}", o),
        Err(Halt::Refuse(n)) => panic!("refused: {}", n.construct),
        Err(Halt::Ask(q)) => panic!("asked: {:?}", q),
    }
}

fn ub_of(r: Result<RunOutcome, Halt>) -> (UbRow, String) {
    match r {
        Ok(RunOutcome { verdict: Verdict::Ub(f), .. }) => (f.row, f.message),
        Ok(o) => panic!("no finding: {:?}", o),
        Err(Halt::Refuse(n)) => panic!("refused: {}", n.construct),
        Err(Halt::Ask(q)) => panic!("asked: {:?}", q),
    }
}

fn refusal_of(r: Result<RunOutcome, Halt>) -> (&'static str, Span) {
    match r {
        Err(Halt::Refuse(n)) => (n.construct, n.span),
        Err(Halt::Ask(q)) => panic!("asked: {:?}", q),
        Ok(o) => panic!("an outcome: {:?}", o),
    }
}

#[test]
fn main_returns_its_code() {
    let mut t = Tree::new();
    let (a, b) = (t.num(40), t.num(2));
    let sum = t.bin(BinOp::Plus, a, b, INT);
    assert_eq!(exit_of(run_main(&mut t, vec![Statement::Expr(sum)])), 42);
    let minus = t.num(-1);
    assert_eq!(exit_of(run_main(&mut t, vec![Statement::Expr(minus)])), 255);
    assert_eq!(exit_of(run_main(&mut t, vec![])), 0);
}

#[test]
fn printing_interpolates() {
    let mut t = Tree::new();
    let seven = t.num(7);
    let bind = t.bind("x", seven);
    let x = t.name("x", INT);
    let s = t.expr(
        "\"x is {x}\\n\"",
        STR,
        ExprKind::Str(vec![Hole { lo: 6, hi: 9, expr: Some(x), spec: None }]),
    );
    let p = t.call("print_raw", vec![s], None, INT);
    let e = t.text("warned");
    let q = t.call("eprint", vec![e], None, INT);
    match run_main(&mut t, vec![bind, Statement::Expr(p), Statement::Expr(q)]) {
        Ok(o) => {
            assert_eq!(o.stdout, "x is 7\n");
            assert_eq!(o.stderr, "warned\n");
        }
        Err(_) => panic!("no outcome"),
    }
}

#[test]
fn returned_error_is_printed() {
    let mut t = Tree::new();
    let oops = t.name("oops", UNION);
    match run_main(&mut t, vec![Statement::Expr(oops)]) {
        Ok(o) => {
            assert!(matches!(o.verdict, Verdict::Exit(1)));
            assert_eq!(o.stdout, "error: oops\n");
        }
        Err(_) => panic!("no outcome"),
    }
}

#[test]
fn arithmetic_traps() {
    let mut t = Tree::new();
    let (a, b) = (t.num(i64::MAX), t.num(1));
    let e = t.bin(BinOp::Plus, a, b, INT);
    assert_eq!(trap_of(run_main(&mut t, vec![Statement::Expr(e)])), "overflow");
    let (a, b) = (t.num(1), t.num(0));
    let e = t.bin(BinOp::Slash, a, b, INT);
    assert_eq!(trap_of(run_main(&mut t, vec![Statement::Expr(e)])), "div-zero");
    let (a, b) = (t.num(100), t.num(100));
    let e = t.bin(BinOp::Plus, a, b, I8);
    assert_eq!(trap_of(run_main(&mut t, vec![Statement::Expr(e)])), "overflow");
    let (a, b) = (t.num(200), t.num(100));
    let e = t.bin(BinOp::Plus, a, b, WRAP);
    assert_eq!(exit_of(run_main(&mut t, vec![Statement::Expr(e)])), 44);
}

#[test]
fn failed_assertion_traps() {
    let mut t = Tree::new();
    let f = t.scalar("false", BOOL);
    let e = t.call("assert", vec![f], None, INT);
    assert_eq!(trap_of(run_main(&mut t, vec![Statement::Expr(e)])), "assert");
    let f = t.scalar("true", BOOL);
    let e = t.call("assert", vec![f], None, INT);
    assert_eq!(exit_of(run_main(&mut t, vec![Statement::Expr(e)])), 0);
}

/// `let p = c.malloc(1); unsafe { p[0] = 65 }; let x = p[0]; c.free(p); x`
fn heap_program(t: &mut Tree, index: i64, free_first: bool) -> Vec<Statement> {
    let one = t.num(1);
    let m = t.call("c.malloc", vec![one], Some(c_sig("c.malloc")), PTR);
    let bind = t.bind("p", m);
    let (p, i) = (t.name("p", PTR), t.num(index));
    let place = t.index(p, i, U8);
    let value = t.num(65);
    let write = t.assign(place, value);
    let (p, i) = (t.name("p", PTR), t.num(index));
    let read = t.index(p, i, U8);
    let p = t.name("p", PTR);
    let free = t.call("c.free", vec![p], Some(c_sig("c.free")), INT);
    if free_first {
        vec![bind, Statement::Expr(free), write, Statement::Expr(read)]
    } else {
        let keep = t.bind("x", read);
        let x = t.name("x", INT);
        vec![bind, write, keep, Statement::Expr(free), Statement::Expr(x)]
    }
}

#[test]
fn written_bytes_are_read_back() {
    let mut t = Tree::new();
    let p = heap_program(&mut t, 0, false);
    assert_eq!(exit_of(run_main(&mut t, p)), 65);
}

#[test]
fn out_of_bounds_is_reported() {
    let mut t = Tree::new();
    let p = heap_program(&mut t, 1, false);
    let (row, message) = ub_of(run_main(&mut t, p));
    assert_eq!(row, UbRow::P3);
    assert!(message.starts_with("a raw pointer write"));
}

#[test]
fn use_after_free_is_reported() {
    let mut t = Tree::new();
    let p = heap_program(&mut t, 0, true);
    let (row, message) = ub_of(run_main(&mut t, p));
    assert_eq!(row, UbRow::P1);
    assert!(message.ends_with("(freed by `c.free`)"));
}

#[test]
fn double_free_is_reported() {
    let mut t = Tree::new();
    let one = t.num(1);
    let m = t.call("c.malloc", vec![one], Some(c_sig("c.malloc")), PTR);
    let bind = t.bind("p", m);
    let p = t.name("p", PTR);
    let first = t.call("c.free", vec![p], Some(c_sig("c.free")), INT);
    let p = t.name("p", PTR);
    let second = t.call("c.free", vec![p], Some(c_sig("c.free")), INT);
    let stmts = vec![bind, Statement::Expr(first), Statement::Expr(second)];
    assert_eq!(ub_of(run_main(&mut t, stmts)).0, UbRow::L2);
}

#[test]
fn false_noalias_is_reported() {
    let mut t = Tree::new();
    let one = t.num(4);
    let m = t.call("c.calloc", vec![one], Some(c_sig("c.calloc")), PTR);
    let bind = t.bind("p", m);
    let (a, b) = (t.name("p", PTR), t.name("p", PTR));
    let span = t.span();
    let claim = Statement::Assume { span, exprs: vec![a, b] };
    assert_eq!(ub_of(run_main(&mut t, vec![bind, claim])).0, UbRow::P5);
}

#[test]
fn lists_push_and_pop() {
    let mut t = Tree::new();
    let l = t.container("List", LIST);
    let bind = t.bind("l", l);
    let (r, v) = (t.name("l", LIST), t.num(3));
    let push = t.method(r, "push", vec![v], INT);
    let (r, v) = (t.name("l", LIST), t.num(4));
    let push2 = t.method(r, "push", vec![v], INT);
    let r = t.name("l", LIST);
    let len = t.expr("l.len", INT, ExprKind::Member(Box::new(r), "len".to_string()));
    let ten = t.num(10);
    let scaled = t.bin(BinOp::Star, len, ten, INT);
    let (r, i) = (t.name("l", LIST), t.num(0));
    let first = t.index(r, i, INT);
    let sum = t.bin(BinOp::Plus, scaled, first, INT);
    let stmts = vec![bind, Statement::Expr(push), Statement::Expr(push2), Statement::Expr(sum)];
    assert_eq!(exit_of(run_main(&mut t, stmts)), 23);
}

#[test]
fn index_out_of_range_traps() {
    let mut t = Tree::new();
    let l = t.container("List", LIST);
    let bind = t.bind("l", l);
    let (r, i) = (t.name("l", LIST), t.num(0));
    let first = t.index(r, i, INT);
    assert_eq!(trap_of(run_main(&mut t, vec![bind, Statement::Expr(first)])), "bounds");
}

#[test]
fn removed_handle_is_stale() {
    let mut t = Tree::new();
    let p = t.container("Pool", POOL);
    let bind = t.bind("p", p);
    let r = t.name("p", POOL);
    let reserved = t.method(r, "reserve", vec![], HANDLE);
    let keep = t.bind("h", reserved);
    let (r, h, v) = (t.name("p", POOL), t.name("h", HANDLE), t.num(9));
    let put = t.method(r, "init", vec![h, v], INT);
    let (r, h) = (t.name("p", POOL), t.name("h", HANDLE));
    let read = t.index(r, h, INT);
    let stmts = vec![bind, keep, Statement::Expr(put), Statement::Expr(read)];
    assert_eq!(exit_of(run_main(&mut t, stmts)), 9);

    let p = t.container("Pool", POOL);
    let bind = t.bind("p", p);
    let r = t.name("p", POOL);
    let reserved = t.method(r, "reserve", vec![], HANDLE);
    let keep = t.bind("h", reserved);
    let (r, h, v) = (t.name("p", POOL), t.name("h", HANDLE), t.num(9));
    let put = t.method(r, "init", vec![h, v], INT);
    let (r, h) = (t.name("p", POOL), t.name("h", HANDLE));
    let remove = t.method(r, "remove", vec![h], INT);
    let (r, h) = (t.name("p", POOL), t.name("h", HANDLE));
    let read = t.index(r, h, INT);
    let stmts =
        vec![bind, keep, Statement::Expr(put), Statement::Expr(remove), Statement::Expr(read)];
    assert_eq!(trap_of(run_main(&mut t, stmts)), "stale-handle");
}

#[test]
fn string_methods_run() {
    let mut t = Tree::new();
    let s = t.text("Wolf Den");
    let up = t.method(s, "upper", vec![], STR);
    let p = t.call("print", vec![up], None, INT);
    let s = t.text("ÄB");
    let low = t.method(s, "lower", vec![], STR);
    let q = t.call("print", vec![low], None, INT);
    match run_main(&mut t, vec![Statement::Expr(p), Statement::Expr(q)]) {
        Ok(o) => assert_eq!(o.stdout, "WOLF DEN\näb\n"),
        Err(Halt::Refuse(n)) => panic!("{}", n.construct),
        Err(_) => panic!("asked"),
    }
}

#[test]
fn slices_stay_on_character_boundaries() {
    let mut t = Tree::new();
    let slice = |t: &mut Tree, a: i64, b: i64| {
        let s = t.text("aÄb");
        let (lo, hi) = (t.num(a), t.num(b));
        let range = t.expr(
            "range",
            INT,
            ExprKind::Range { start: Some(Box::new(lo)), end: Some(Box::new(hi)), inclusive: false },
        );
        let cut = t.index(s, range, STR);
        let p = t.call("print", vec![cut], None, INT);
        run_main(t, vec![Statement::Expr(p)])
    };
    match slice(&mut t, 1, 3) {
        Ok(o) => assert_eq!(o.stdout, "Ä\n"),
        Err(_) => panic!("no outcome"),
    }
    assert_eq!(trap_of(slice(&mut t, 1, 2)), "bounds");
    assert_eq!(trap_of(slice(&mut t, 2, 9)), "bounds");
}

#[test]
fn bytes_become_text_only_when_valid() {
    let mut t = Tree::new();
    let attempt = |t: &mut Tree, n: i64| {
        let l = t.container("List", LIST);
        let bind = t.bind("l", l);
        let (r, v) = (t.name("l", LIST), t.num(n));
        let push = t.method(r, "push", vec![v], INT);
        let r = t.name("l", LIST);
        let made = t.call("str_from_utf8", vec![r], None, STR);
        let p = t.call("print", vec![made], None, INT);
        run_main(t, vec![bind, Statement::Expr(push), Statement::Expr(p)])
    };
    match attempt(&mut t, 87) {
        Ok(o) => assert_eq!(o.stdout, "W\n"),
        Err(_) => panic!("no outcome"),
    }
    match attempt(&mut t, 255) {
        Ok(o) => {
            assert!(matches!(o.verdict, Verdict::Exit(1)));
            assert_eq!(o.stdout, "error: utf8\n");
        }
        Err(_) => panic!("no outcome"),
    }
}

#[test]
fn loops_count_and_break() {
    let mut t = Tree::new();
    let zero = t.num(0);
    let bind = t.bind("n", zero);
    let (n, ten) = (t.name("n", INT), t.num(10));
    let cond = t.bin(BinOp::Lt, n, ten, BOOL);
    let (n, three) = (t.name("n", INT), t.num(3));
    let span = t.span();
    let step =
        Statement::Assign { span, op: AssignOp::Compound(BinOp::Plus), place: n, value: three };
    let body = t.block(vec![step]);
    let w = t.expr("while", INT, ExprKind::While { cond: Box::new(cond), body });
    let n = t.name("n", INT);
    let stmts = vec![bind, Statement::Expr(w), Statement::Expr(n)];
    assert_eq!(exit_of(run_main(&mut t, stmts)), 12);

    let forever = t.block(vec![]);
    let l = t.expr("loop", INT, ExprKind::Loop(forever));
    let (construct, span) = refusal_of(run_main(&mut t, vec![Statement::Expr(l)]));
    assert_eq!(construct, "step budget exhausted");
    assert_eq!(span, ROOT);
}

#[test]
fn for_walks_a_range() {
    let mut t = Tree::new();
    let zero = t.num(0);
    let bind = t.bind("sum", zero);
    let (lo, hi) = (t.num(1), t.num(4));
    let range = t.expr(
        "1..=4",
        INT,
        ExprKind::Range { start: Some(Box::new(lo)), end: Some(Box::new(hi)), inclusive: true },
    );
    let (s, i) = (t.name("sum", INT), t.name("i", INT));
    let span = t.span();
    let step = Statement::Assign { span, op: AssignOp::Compound(BinOp::Plus), place: s, value: i };
    let body = t.block(vec![step]);
    let pattern = Some(t.pattern("i"));
    let f = t.expr("for", INT, ExprKind::For { pattern, iterable: Box::new(range), body });
    let s = t.name("sum", INT);
    let stmts = vec![bind, Statement::Expr(f), Statement::Expr(s)];
    assert_eq!(exit_of(run_main(&mut t, stmts)), 10);
}

#[test]
fn calls_lend_and_return() {
    let mut t = Tree::new();
    let x = t.name("x", INT);
    let one = t.num(1);
    let span = t.span();
    let bump = Statement::Assign { span, op: AssignOp::Compound(BinOp::Plus), place: x, value: one };
    let callee = t.func("bump", vec!["x"], vec![bump]);
    let mut s = sig("bump");
    s.params.push(ParamSig {
        name: "x".to_string(),
        ty: TyId(INT),
        mode: Some(ParamMode::Mut),
        view: None,
        span: ROOT,
    });
    let five = t.num(5);
    let bind = t.bind("n", five);
    let n = t.name("n", INT);
    let call = t.call("bump", vec![n], Some(s), INT);
    let n = t.name("n", INT);
    let main = t.func("main", vec![], vec![bind, Statement::Expr(call), Statement::Expr(n)]);
    let pkg = package(vec![main, callee]);
    assert_eq!(exit_of(run_checked(&pkg, Budget::default(), &vec![])), 6);
}

#[test]
fn endless_recursion_exhausts_the_depth() {
    let mut t = Tree::new();
    let call = t.call("main", vec![], Some(sig("main")), INT);
    let (construct, span) = refusal_of(run_main(&mut t, vec![Statement::Expr(call)]));
    assert_eq!(construct, "call depth budget exhausted");
    assert_eq!(span, ROOT);
}

#[test]
fn deferred_expressions_run_last() {
    let mut t = Tree::new();
    let a = t.text("later");
    let later = t.call("print", vec![a], None, INT);
    let b = t.text("now");
    let now = t.call("print", vec![b], None, INT);
    let stmts = vec![Statement::Defer { expr: later, on_error: false }, Statement::Expr(now)];
    match run_main(&mut t, stmts) {
        Ok(o) => assert_eq!(o.stdout, "now\nlater\n"),
        Err(_) => panic!("no outcome"),
    }
}

#[test]
fn else_catches_a_row_error() {
    let mut t = Tree::new();
    let oops = t.name("oops", UNION);
    let nine = t.num(9);
    let e = t.expr(
        "else",
        INT,
        ExprKind::Else {
            scrutinized: Box::new(oops),
            handler: None,
            fallback: Some(Box::new(nine)),
        },
    );
    assert_eq!(exit_of(run_main(&mut t, vec![Statement::Expr(e)])), 9);
}

#[test]
fn freed_region_memory_is_dead() {
    let mut t = Tree::new();
    let nought = t.scalar("0", INT);
    let bind = t.bind("p", nought);
    let r = t.name("r", REGION);
    let cast = t.expr(
        "r as *u8",
        PTR,
        ExprKind::Cast(
            Box::new(r),
            Some(CastInfo { from: TyId(REGION), to: TyId(PTR), kind: CastKind::Raw }),
        ),
    );
    let p = t.name("p", PTR);
    let keep = t.assign(p, cast);
    let body = t.block(vec![keep]);
    let span = t.span();
    let block = t.expr(
        "region",
        INT,
        ExprKind::RegionBlock {
            name: Some(Bind { name: "r".to_string(), span, ty: None }),
            strategy: StrategySyntax::Absent,
            body,
        },
    );
    let (p, i) = (t.name("p", PTR), t.num(0));
    let read = t.index(p, i, U8);
    let stmts = vec![bind, Statement::Expr(block), Statement::Expr(read)];
    let (row, message) = ub_of(run_main(&mut t, stmts));
    assert_eq!(row, UbRow::P4);
    assert!(message.starts_with("a raw pointer read"));
}

#[test]
fn char_casts_check_the_scalar_range() {
    let mut t = Tree::new();
    let cast = |t: &mut Tree, n: i64| {
        let x = t.num(n);
        let c = t.expr(
            "cast",
            CHAR,
            ExprKind::Cast(
                Box::new(x),
                Some(CastInfo { from: TyId(INT), to: TyId(CHAR), kind: CastKind::IntToChar }),
            ),
        );
        let p = t.call("print", vec![c], None, INT);
        run_main(t, vec![Statement::Expr(p)])
    };
    match cast(&mut t, 0x1f43a) {
        Ok(o) => assert_eq!(o.stdout, "🐺\n"),
        Err(_) => panic!("no outcome"),
    }
    assert_eq!(trap_of(cast(&mut t, 0xd800)), "overflow");
    assert_eq!(trap_of(cast(&mut t, -1)), "overflow");
}

#[test]
fn host_answers_are_replayed() {
    let mut t = Tree::new();
    let path = t.text("notes.txt");
    let read = t.call("fs_read_text", vec![path], None, STR);
    let p = t.call("print", vec![read], None, INT);
    let main = t.func("main", vec![], vec![Statement::Expr(p)]);
    let pkg = package(vec![main]);
    match run_checked(&pkg, Budget::default(), &vec![]) {
        Err(Halt::Ask(q)) => {
            assert_eq!(q.op, HostOp::ReadFile);
            assert_eq!(q.texts, vec![b"notes.txt".to_vec()]);
        }
        _ => panic!("nothing was asked"),
    }
    let told = vec![Reply::Bytes(b"hi".to_vec())];
    match run_checked(&pkg, Budget::default(), &told) {
        Ok(o) => assert_eq!(o.stdout, "hi\n"),
        Err(_) => panic!("no outcome"),
    }
    let failed = vec![Reply::Failed(HostError::NotFound)];
    match run_checked(&pkg, Budget::default(), &failed) {
        Ok(o) => assert_eq!(o.stdout, "error: not_found\n"),
        Err(_) => panic!("no outcome"),
    }
    let broken = vec![Reply::Bytes(vec![0xff])];
    match run_checked(&pkg, Budget::default(), &broken) {
        Ok(o) => assert_eq!(o.stdout, "error: utf8\n"),
        Err(_) => panic!("no outcome"),
    }
}

#[test]
fn forged_handles_are_the_io_row() {
    let mut t = Tree::new();
    let (fd, max) = (t.num(3), t.num(10));
    let read = t.call("fs_read", vec![fd, max], None, STR);
    match run_main(&mut t, vec![Statement::Expr(read)]) {
        Ok(o) => assert_eq!(o.stdout, "error: io\n"),
        Err(_) => panic!("no outcome"),
    }
    let fd = t.num(0);
    let close = t.call("net_close", vec![fd], None, INT);
    match run_main(&mut t, vec![Statement::Expr(close)]) {
        Ok(o) => assert_eq!(o.stdout, "error: io\n"),
        Err(_) => panic!("no outcome"),
    }
    let child = t.num(0);
    let wait = t.call("os_wait", vec![child], None, INT);
    match run_main(&mut t, vec![Statement::Expr(wait)]) {
        Ok(o) => assert_eq!(o.stdout, "error: io\n"),
        Err(_) => panic!("no outcome"),
    }
}

#[test]
fn standard_input_is_read_by_lines() {
    let mut t = Tree::new();
    let line = t.call("read_line", vec![], None, STR);
    let first = t.call("print", vec![line], None, INT);
    let line = t.call("read_line", vec![], None, STR);
    let second = t.call("print", vec![line], None, INT);
    let main = t.func("main", vec![], vec![Statement::Expr(first), Statement::Expr(second)]);
    let pkg = package(vec![main]);
    match run_checked_with_input(&pkg, Budget::default(), "one\r\ntwo", &vec![]) {
        Ok(o) => assert_eq!(o.stdout, "one\ntwo\n"),
        Err(_) => panic!("no outcome"),
    }
    match run_checked_with_input(&pkg, Budget::default(), "one\n", &vec![]) {
        Ok(o) => assert_eq!(o.stdout, "one\nerror: eof\n"),
        Err(_) => panic!("no outcome"),
    }
}

#[test]
fn environment_writes_stay_inside() {
    let mut t = Tree::new();
    let (k, v) = (t.text("DEN"), t.text("deep"));
    let set = t.call("env_set", vec![k, v], None, INT);
    let k = t.text("DEN");
    let get = t.call("env_get", vec![k], None, STR);
    let p = t.call("print", vec![get], None, INT);
    match run_main(&mut t, vec![Statement::Expr(set), Statement::Expr(p)]) {
        Ok(o) => assert_eq!(o.stdout, "deep\n"),
        Err(_) => panic!("no outcome"),
    }
    let (k, v) = (t.text("A=B"), t.text("x"));
    let set = t.call("env_set", vec![k, v], None, INT);
    match run_main(&mut t, vec![Statement::Expr(set)]) {
        Ok(o) => assert_eq!(o.stdout, "error: invalid\n"),
        Err(_) => panic!("no outcome"),
    }
}

#[test]
fn exit_keeps_what_was_printed() {
    let mut t = Tree::new();
    let s = t.text("bye");
    let p = t.call("print", vec![s], None, INT);
    let n = t.num(300);
    let e = t.call("os_exit", vec![n], None, INT);
    let s = t.text("never");
    let q = t.call("print", vec![s], None, INT);
    match run_main(&mut t, vec![Statement::Expr(p), Statement::Expr(e), Statement::Expr(q)]) {
        Ok(o) => {
            assert!(matches!(o.verdict, Verdict::Exit(44)));
            assert_eq!(o.stdout, "bye\n");
        }
        Err(_) => panic!("no outcome"),
    }
}

#[test]
fn raised_signals_are_queued() {
    let mut t = Tree::new();
    let m = t.num(2);
    let listen = t.call("os_signal_listen", vec![m], None, INT);
    let k = t.num(2);
    let raise = t.call("os_signal_raise", vec![k], None, INT);
    let k = t.num(3);
    let wait = t.call("os_signal_wait", vec![k], None, INT);
    let stmts = vec![Statement::Expr(listen), Statement::Expr(raise), Statement::Expr(wait)];
    assert_eq!(exit_of(run_main(&mut t, stmts)), 2);
    let k = t.num(1);
    let wait = t.call("os_signal_wait", vec![k], None, INT);
    let (construct, _) = refusal_of(run_main(&mut t, vec![Statement::Expr(wait)]));
    assert!(construct.starts_with("a blocking signal wait"));
}

#[test]
fn float_work_is_the_hosts() {
    let mut t = Tree::new();
    let half = |t: &mut Tree| {
        t.expr(
            "0.5",
            F64,
            ExprKind::Literal { char_value: None, float_bits: Some(0.5f64.to_bits()) },
        )
    };
    let (a, b) = (half(&mut t), half(&mut t));
    let sum = t.bin(BinOp::Plus, a, b, F64);
    let one = t.expr(
        "1.0",
        F64,
        ExprKind::Literal { char_value: None, float_bits: Some(1.0f64.to_bits()) },
    );
    let eq = t.bin(BinOp::EqEq, sum, one, BOOL);
    let check = t.call("assert", vec![eq], None, INT);
    let main = t.func("main", vec![], vec![Statement::Expr(check)]);
    let pkg = package(vec![main]);
    match run_checked(&pkg, Budget::default(), &vec![]) {
        Err(Halt::Ask(q)) => {
            assert_eq!(q.op, HostOp::FloatAdd);
            assert_eq!(q.nums, vec![0.5f64.to_bits() as i64, 0.5f64.to_bits() as i64]);
        }
        _ => panic!("nothing was asked"),
    }
    let told = vec![Reply::Int(1.0f64.to_bits() as i64)];
    assert_eq!(exit_of(run_checked(&pkg, Budget::default(), &told)), 0);
}

#[test]
fn weak_references_see_the_last_owner_go() {
    let mut t = Tree::new();
    let program = |t: &mut Tree, inside: bool| {
        let nought = t.num(0);
        let bind = t.bind("w", nought);
        let five = t.num(5);
        let s = t.expr("shared 5", SHARED, ExprKind::Prefix(PrefixOp::Shared, Box::new(five)));
        let owner = t.bind("a", s);
        let a = t.name("a", SHARED);
        let down = t.method(a, "downgrade", vec![], WEAK);
        let w = t.name("w", WEAK);
        let keep = t.assign(w, down);
        let w = t.name("w", WEAK);
        let up = t.method(w, "upgrade", vec![], SHARED);
        let mut inner = vec![owner, keep];
        let mut outer = vec![bind];
        if inside {
            inner.push(Statement::Expr(up));
            let b = t.block(inner);
            outer.push(Statement::Expr(t.expr("block", INT, ExprKind::Block(b))));
        } else {
            let b = t.block(inner);
            outer.push(Statement::Expr(t.expr("block", INT, ExprKind::Block(b))));
            outer.push(Statement::Expr(up));
        }
        run_main(t, outer)
    };
    match program(&mut t, true) {
        Ok(o) => assert_eq!(o.stdout, ""),
        Err(_) => panic!("no outcome"),
    }
    match program(&mut t, false) {
        Ok(o) => assert_eq!(o.stdout, "error: gone\n"),
        Err(_) => panic!("no outcome"),
    }
}

#[test]
fn moved_local_is_not_read() {
    let mut t = Tree::new();
    let l = t.container("List", LIST);
    let bind = t.bind("l", l);
    let l = t.name("l", LIST);
    let moved = t.bind("k", l);
    let (r, i) = (t.name("l", LIST), t.num(0));
    let read = t.index(r, i, INT);
    let stmts = vec![bind, moved, Statement::Expr(read)];
    assert_eq!(trap_of(run_main(&mut t, stmts)), "use-after-move");
}

#[test]
fn steps_and_memory_are_bounded() {
    let mut t = Tree::new();
    let n = t.num(1);
    let main = t.func("main", vec![], vec![Statement::Expr(n)]);
    let pkg = package(vec![main]);
    let none = Budget { steps: 0, mem_bytes: 0 };
    assert_eq!(refusal_of(run_checked(&pkg, none, &vec![])), ("step budget exhausted", ROOT));
    let enough = Budget { steps: 2, mem_bytes: 0 };
    assert_eq!(exit_of(run_checked(&pkg, enough, &vec![])), 1);

    let size = t.num(9);
    let m = t.call("c.malloc", vec![size], Some(c_sig("c.malloc")), PTR);
    let main = t.func("main", vec![], vec![Statement::Expr(m)]);
    let pkg = package(vec![main]);
    let small = Budget { steps: 100, mem_bytes: 8 };
    assert_eq!(refusal_of(run_checked(&pkg, small, &vec![])).1, ROOT);
}

#[test]
fn entries_are_found_by_name() {
    let mut t = Tree::new();
    let seven = t.num(7);
    let helper = t.func("test_seven", vec![], vec![Statement::Expr(seven)]);
    let with = t.func("test_with", vec!["x"], vec![]);
    let mut elsewhere = t.func("main", vec![], vec![]);
    elsewhere.file = 1;
    elsewhere.module = 1;
    let one = t.num(1);
    let main = t.func("main", vec![], vec![Statement::Expr(one)]);
    let pkg = package(vec![elsewhere, helper, with, main]);
    assert_eq!(find_entry(&pkg, "main"), Some(3));
    assert_eq!(find_entry(&pkg, "absent"), None);
    assert!(has_main(&pkg));
    assert_eq!(
        discover_tests(&pkg),
        vec![("test_seven".to_string(), 0), ("test_with".to_string(), 1)]
    );
    let told = vec![];
    let run = |name: &str| run_checked_fn(&pkg, Budget::default(), "", name, &told);
    assert_eq!(exit_of(run("test_seven")), 7);
    assert_eq!(
        refusal_of(run("test_with")).0,
        "a test entry with parameters (only zero-parameter tests run)"
    );
    assert_eq!(
        refusal_of(run("absent")),
        ("checked execution without the requested entry fn", ROOT)
    );
    let none = package(vec![]);
    assert!(!has_main(&none));
    assert_eq!(
        refusal_of(run_checked(&none, Budget::default(), &vec![])),
        ("checked execution without a `main` entry", ROOT)
    );
}

#[test]
fn questions_do_not_run_deferred_work() {
    let mut t = Tree::new();
    let f = t.scalar("false", BOOL);
    let trap = t.call("assert", vec![f], None, INT);
    let path = t.text("a");
    let read = t.call("fs_exists", vec![path], None, BOOL);
    let body = t.block(vec![Statement::Defer { expr: trap, on_error: false }, Statement::Expr(read)]);
    let block = t.expr(
        "region",
        INT,
        ExprKind::RegionBlock { name: None, strategy: StrategySyntax::Absent, body },
    );
    let main = t.func("main", vec![], vec![Statement::Expr(block)]);
    let pkg = package(vec![main]);
    match run_checked(&pkg, Budget::default(), &vec![]) {
        Err(Halt::Ask(q)) => assert_eq!(q.op, HostOp::Exists),
        _ => panic!("nothing was asked"),
    }
    let told = vec![Reply::Flag(true)];
    assert_eq!(trap_of(run_checked(&pkg, Budget::default(), &told)), "assert");
}

#[test]
fn more_answers_change_nothing() {
    let mut t = Tree::new();
    let path = t.text("a");
    let read = t.call("fs_exists", vec![path], None, BOOL);
    let p = t.call("print", vec![read], None, INT);
    let main = t.func("main", vec![], vec![Statement::Expr(p)]);
    let pkg = package(vec![main]);
    let enough = vec![Reply::Flag(true)];
    let more = vec![Reply::Flag(true), Reply::Int(3), Reply::Absent];
    let (a, b) = (
        run_checked(&pkg, Budget::default(), &enough),
        run_checked(&pkg, Budget::default(), &more),
    );
    match (a, b) {
        (Ok(a), Ok(b)) => {
            assert_eq!(a.stdout, "true\n");
            assert_eq!(a.stdout, b.stdout);
        }
        _ => panic!("no outcome"),
    }
}

#[test]
fn text_that_is_cut_apart_is_read_lossily() {
    let mut t = Tree::new();
    let s = t.expr(
        "\"aÄ\"",
        STR,
        ExprKind::Str(vec![Hole { lo: 3, hi: 4, expr: None, spec: None }]),
    );
    let p = t.call("print", vec![s], None, INT);
    match run_main(&mut t, vec![Statement::Expr(p)]) {
        Ok(o) => assert_eq!(o.stdout, "a\u{fffd}\n"),
        Err(_) => panic!("no outcome"),
    }
}

#[test]
fn answers_that_are_no_text_are_refused() {
    let mut t = Tree::new();
    let k = t.text("HOME");
    let get = t.call("env_get", vec![k], None, STR);
    let main = t.func("main", vec![], vec![Statement::Expr(get)]);
    let pkg = package(vec![main]);
    let broken = vec![Reply::Bytes(vec![0xc3])];
    match run_checked(&pkg, Budget::default(), &broken) {
        Ok(o) => assert_eq!(o.stdout, "error: utf8\n"),
        Err(_) => panic!("no outcome"),
    }
}

/// `let p = c.calloc(1); p[0] = start; p[0] op= by; p[0]`
fn compound(t: &mut Tree, op: BinOp, start: i64, by: i64, ty: u32) -> Result<RunOutcome, Halt> {
    let n = t.num(8);
    let m = t.call("c.calloc", vec![n], Some(c_sig("c.calloc")), PTR);
    let bind = t.bind("p", m);
    let (p, i) = (t.name("p", PTR), t.num(0));
    let place = t.index(p, i, ty);
    let value = t.num(start);
    let first = t.assign(place, value);
    let (p, i) = (t.name("p", PTR), t.num(0));
    let place = t.index(p, i, ty);
    let value = t.num(by);
    let span = t.span();
    let second = Statement::Assign { span, op: AssignOp::Compound(op), place, value };
    let (p, i) = (t.name("p", PTR), t.num(0));
    let read = t.index(p, i, U8);
    run_main(t, vec![bind, first, second, Statement::Expr(read)])
}

#[test]
fn compound_raw_writes_are_checked() {
    let mut t = Tree::new();
    assert_eq!(exit_of(compound(&mut t, BinOp::Plus, 40, 2, U8)), 42);
    assert_eq!(exit_of(compound(&mut t, BinOp::Minus, 44, 2, U8)), 42);
    assert_eq!(exit_of(compound(&mut t, BinOp::Star, 21, 2, U8)), 42);
    assert_eq!(trap_of(compound(&mut t, BinOp::Minus, 0, 1, U8)), "overflow");
    assert_eq!(trap_of(compound(&mut t, BinOp::Plus, 250, 6, U8)), "overflow");
    assert_eq!(trap_of(compound(&mut t, BinOp::Slash, 1, 0, U8)), "div-zero");
    assert_eq!(exit_of(compound(&mut t, BinOp::Plus, -1, 1, I8)), 0);
    assert_eq!(trap_of(compound(&mut t, BinOp::Plus, 127, 1, I8)), "overflow");
}

#[test]
fn inclusive_ranges_need_a_successor() {
    let mut t = Tree::new();
    let (lo, hi) = (t.num(0), t.num(i64::MAX));
    let range = t.expr(
        "0..=max",
        INT,
        ExprKind::Range { start: Some(Box::new(lo)), end: Some(Box::new(hi)), inclusive: true },
    );
    assert_eq!(trap_of(run_main(&mut t, vec![Statement::Expr(range)])), "overflow");
}

#[test]
fn a_read_pointer_is_protected_during_the_call() {
    // fn touch(a, mut b) { b[0] = 1 }
    let mut t = Tree::new();
    let (b, i) = (t.name("b", PTR), t.num(0));
    let place = t.index(b, i, U8);
    let one = t.num(1);
    let write = t.assign(place, one);
    let callee = t.func("touch", vec!["a", "b"], vec![write]);
    let mut s = sig("touch");
    for (name, mode) in [("a", None), ("b", Some(ParamMode::Mut))] {
        s.params.push(ParamSig {
            name: name.to_string(),
            ty: TyId(PTR),
            mode,
            view: None,
            span: ROOT,
        });
    }
    let n = t.num(1);
    let m = t.call("c.calloc", vec![n], Some(c_sig("c.calloc")), PTR);
    let bind = t.bind("p", m);
    let (x, y) = (t.name("p", PTR), t.name("p", PTR));
    let call = t.call("touch", vec![x, y], Some(s), INT);
    let main = t.func("main", vec![], vec![bind, Statement::Expr(call)]);
    let pkg = package(vec![main, callee]);
    let (row, message) = ub_of(run_checked(&pkg, Budget::default(), &vec![]));
    assert_eq!(row, UbRow::P1);
    assert!(message.ends_with("foreign write invalidates a protected tag"));
}

#[test]
fn protection_ends_with_the_call() {
    // fn look(a) { }  look(p); p[0] = 7; p[0]
    let mut t = Tree::new();
    let callee = t.func("look", vec!["a"], vec![]);
    let mut s = sig("look");
    s.params.push(ParamSig {
        name: "a".to_string(),
        ty: TyId(PTR),
        mode: None,
        view: None,
        span: ROOT,
    });
    let n = t.num(1);
    let m = t.call("c.calloc", vec![n], Some(c_sig("c.calloc")), PTR);
    let bind = t.bind("p", m);
    let x = t.name("p", PTR);
    let call = t.call("look", vec![x], Some(s), INT);
    let (p, i) = (t.name("p", PTR), t.num(0));
    let place = t.index(p, i, U8);
    let seven = t.num(7);
    let write = t.assign(place, seven);
    let (p, i) = (t.name("p", PTR), t.num(0));
    let read = t.index(p, i, U8);
    let main =
        t.func("main", vec![], vec![bind, Statement::Expr(call), write, Statement::Expr(read)]);
    let pkg = package(vec![main, callee]);
    assert_eq!(exit_of(run_checked(&pkg, Budget::default(), &vec![])), 7);
}

#[test]
fn a_rebased_dangling_pointer_has_no_tag() {
    let mut t = Tree::new();
    let n = t.num(0);
    let cast = t.expr(
        "0 as *u8",
        PTR,
        ExprKind::Cast(
            Box::new(n),
            Some(CastInfo { from: TyId(INT), to: TyId(PTR), kind: CastKind::Raw }),
        ),
    );
    let bind = t.bind("p", cast);
    let (p, a) = (t.name("p", PTR), t.num(5));
    let moved = t.method(p, "with_addr", vec![a], PTR);
    let keep = t.bind("q", moved);
    let q = t.name("q", PTR);
    let addr = t.method(q, "addr", vec![], INT);
    let stmts = vec![bind, keep, Statement::Expr(addr)];
    assert_eq!(exit_of(run_main(&mut t, stmts)), 5);
}

fn shown_range(start: Option<i64>, end: Option<i64>, inclusive: bool) -> String {
    let mut t = Tree::new();
    let start = start.map(|n| Box::new(t.num(n)));
    let end = end.map(|n| Box::new(t.num(n)));
    let range = t.expr("range", INT, ExprKind::Range { start, end, inclusive });
    let p = t.call("print", vec![range], None, INT);
    match run_main(&mut t, vec![Statement::Expr(p)]) {
        Ok(o) => o.stdout,
        Err(_) => panic!("no outcome"),
    }
}

#[test]
fn a_lone_endpoint_is_the_start() {
    assert_eq!(shown_range(Some(2), Some(5), false), "2..5\n");
    assert_eq!(shown_range(Some(2), Some(5), true), "2..6\n");
    assert_eq!(shown_range(None, Some(5), false), "5..0\n");
    assert_eq!(shown_range(None, Some(5), true), "5..1\n");
    assert_eq!(shown_range(Some(5), None, false), "5..0\n");
    assert_eq!(shown_range(None, None, false), "0..0\n");

    // So `get(..5)` misses, where `get(0..5)` hits.
    let mut t = Tree::new();
    for (open, want) in [(true, "error: none\n"), (false, "hello\n")] {
        let s = t.text("hello wolf");
        let start = if open { None } else { Some(Box::new(t.num(0))) };
        let end = Some(Box::new(t.num(5)));
        let range = t.expr("range", INT, ExprKind::Range { start, end, inclusive: false });
        let got = t.method(s, "get", vec![range], STR);
        let p = t.call("print", vec![got], None, INT);
        match run_main(&mut t, vec![Statement::Expr(p)]) {
            Ok(o) => assert_eq!(o.stdout, want),
            Err(_) => panic!("no outcome"),
        }
    }
}

fn refused_as(r: Result<Flow, Stop>) -> &'static str {
    match r {
        Err(Stop::Refuse(n)) => n.construct,
        other => panic!("not refused: {:?}", other),
    }
}

#[test]
fn unknown_built_ins_are_refused() {
    let mut t = Tree::new();
    let main = t.func("main", vec![], vec![]);
    let pkg = package(vec![main]);
    let replies = vec![];
    let mut m = Machine::new(&pkg, &replies, Budget::default(), "");
    for args in [vec![], vec![Value::Str("p".to_string())], vec![Value::Int(0), Value::Int(1)]] {
        assert_eq!(refused_as(m.io_fs_builtin("fs_other", &args, ROOT)), "this io/fs builtin");
        assert_eq!(refused_as(m.net_builtin("net_other", &args, ROOT)), "this net builtin");
        assert_eq!(refused_as(m.os_builtin("os_other", &args, ROOT)), "this os builtin");
    }
    // A known name of another family is unknown here too.
    assert_eq!(refused_as(m.io_fs_builtin("net_port", &vec![], ROOT)), "this io/fs builtin");
    assert_eq!(refused_as(m.net_builtin("net_port", &vec![], ROOT)), "this net call shape");
}

#[test]
fn written_variables_read_back() {
    let mut t = Tree::new();
    let main = t.func("main", vec![], vec![]);
    let pkg = package(vec![main]);
    let replies = vec![Reply::Absent];
    let mut m = Machine::new(&pkg, &replies, Budget::default(), "");
    let text = |s: &str| Value::Str(s.to_string());
    let set = |m: &mut Machine, k: &str, v: &str| {
        matches!(m.os_builtin("env_set", &vec![text(k), text(v)], ROOT), Ok(Flow::Val(Value::Unit)))
    };
    assert!(set(&mut m, "DEN", "deep"));
    assert!(set(&mut m, "PACK", "grey"));
    assert!(!set(&mut m, "", "x"));
    assert!(!set(&mut m, "DEN\0", "x"));
    assert!(!set(&mut m, "DEN", "x\0"));
    assert!(m.builtin_call("print", &vec![text("between")], ROOT).is_ok());
    match m.os_builtin("env_get", &vec![text("DEN")], ROOT) {
        Ok(Flow::Val(Value::Str(s))) => assert_eq!(s, "deep"),
        other => panic!("{:?}", other),
    }
    assert!(set(&mut m, "PACK", "white"));
    match m.os_builtin("env_get", &vec![text("DEN")], ROOT) {
        Ok(Flow::Val(Value::Str(s))) => assert_eq!(s, "deep"),
        other => panic!("{:?}", other),
    }
    match m.os_builtin("env_get", &vec![text("PACK")], ROOT) {
        Ok(Flow::Val(Value::Str(s))) => assert_eq!(s, "white"),
        other => panic!("{:?}", other),
    }
    // Another name is still the host's.
    assert!(matches!(m.os_builtin("env_get", &vec![text("LAIR")], ROOT), Ok(Flow::Raise(_, _))));
    assert!(matches!(m.os_builtin("env_get", &vec![text("LAIR")], ROOT), Err(Stop::Ask(_))));
}

#[test]
fn removed_handles_stay_stale() {
    let mut t = Tree::new();
    let p = t.container("Pool", POOL);
    let bind = t.bind("p", p);
    let r = t.name("p", POOL);
    let reserved = t.method(r, "reserve", vec![], HANDLE);
    let keep = t.bind("h", reserved);
    let (r, h) = (t.name("p", POOL), t.name("h", HANDLE));
    let remove = t.method(r, "remove", vec![h], INT);
    let r = t.name("p", POOL);
    let again = t.method(r, "reserve", vec![], HANDLE);
    let next = t.bind("g", again);
    let (r, g) = (t.name("p", POOL), t.name("g", HANDLE));
    let young = t.method(r, "alive", vec![g], BOOL);
    let shown = t.call("print", vec![young], None, INT);
    let (r, h) = (t.name("p", POOL), t.name("h", HANDLE));
    let alive = t.method(r, "alive", vec![h], BOOL);
    let told = t.call("print", vec![alive], None, INT);
    let (r, h, v) = (t.name("p", POOL), t.name("h", HANDLE), t.num(1));
    let fill = t.method(r, "init", vec![h, v], INT);
    let stmts = vec![
        bind,
        keep,
        Statement::Expr(remove),
        next,
        Statement::Expr(shown),
        Statement::Expr(told),
        Statement::Expr(fill),
    ];
    let r = run_main(&mut t, stmts);
    match &r {
        Ok(o) => assert_eq!(o.stdout, "true\nfalse\n"),
        Err(_) => panic!("no outcome"),
    }
    assert_eq!(trap_of(r), "stale-handle");
}

#[test]
fn type_tables_are_interned_parts_first() {
    assert!(table().is_wf());
    let mut late = table();
    late.kinds[0] = TyKind::List(TyId(1));
    assert!(!late.is_wf());
    let mut own = table();
    own.kinds[10] = TyKind::ErrUnion(TyId(0), TyId(10));
    assert!(!own.is_wf());
    let mut tags = table();
    tags.kinds[9] =
        TyKind::Row { tags: vec![("oops".to_string(), vec![TyId(0), TyId(12)])], tail: None };
    assert!(!tags.is_wf());
    let mut unrendered = table();
    unrendered.rendered.pop();
    assert!(!unrendered.is_wf());
}

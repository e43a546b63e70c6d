use wolf_mem::ast::{
    Arg, Body, BodyKind, Block, Expr, ExprKind, FnDecl, FnParam, Owner, Statement,
};
use wolf_mem::boundary::unsafe_sig_check;
use wolf_mem::byteview::{check_body, is_byte_list, view_recv, Lend, Lender};
use wolf_mem::cfg::ParamMode;
use wolf_mem::diag::{Code, Span};
use wolf_mem::package::{check_package, dump_package, Package, SourceFile};
use wolf_mem::types::{
    CallSig, FnSig, ItemEntry, ItemSig, ParamSig, Prim, SigTables, TyId, TyKind, TypeTable,
};

fn span(lo: u32) -> Span {
    Span { file: 0, lo, hi: lo + 1 }
}

fn table() -> TypeTable {
    TypeTable {
        kinds: vec![
            TyKind::Prim(Prim::Int),
            TyKind::Prim(Prim::Str),
            TyKind::List(TyId(0)),
            TyKind::List(TyId(1)),
        ],
        rendered: vec!["int".into(), "str".into(), "List[int]".into(), "List[str]".into()],
    }
}

fn expr(lo: u32, text: &str, ty: u32, kind: ExprKind) -> Expr {
    Expr { span: span(lo), text: text.to_string(), ty: Some(TyId(ty)), kind }
}

fn path(lo: u32, n: &str, ty: u32) -> Expr {
    expr(lo, n, ty, ExprKind::Path(n.to_string()))
}

fn arg(value: Expr) -> Arg {
    Arg { value, mode: None, mode_span: None }
}

fn call(lo: u32, callee: Expr, args: Vec<Arg>, name: &str) -> Expr {
    let sig = CallSig {
        callee: name.to_string(),
        has_self: false,
        ctor: false,
        c_call: false,
        params: vec![],
        decl_span: None,
    };
    expr(
        lo,
        name,
        0,
        ExprKind::Call {
            callee: Box::new(callee),
            args,
            sig: Some(sig),
            fold: None,
            dispatch: None,
        },
    )
}

fn sig(lo: u32) -> FnSig {
    FnSig {
        params: vec![ParamSig {
            name: "v".to_string(),
            ty: TyId(2),
            mode: None,
            view: None,
            span: span(lo + 1),
        }],
        ret: TyId(0),
        ret_span: None,
        name_span: span(lo),
    }
}

fn func(name: &str, lo: u32, stmts: Vec<Statement>) -> Body {
    let trailing = match stmts.last() {
        Some(Statement::Expr(e)) => Some(e.span),
        _ => None,
    };
    Body {
        name: name.to_string(),
        module: 0,
        file: 0,
        decl: 0,
        owner: Owner::Module,
        kind: BodyKind::Fn(FnDecl {
            span: span(lo + 2),
            name_span: Some(span(lo)),
            generics: vec![],
            params: vec![FnParam { name: "v".to_string(), ty_text: None }],
            body: Some(Block { span: span(lo + 3), stmts, trailing }),
        }),
        table: table(),
        imports: vec![],
    }
}

fn package(fns: Vec<(&str, u32)>, bodies: Vec<Body>) -> Package {
    let items = fns
        .into_iter()
        .map(|(n, lo)| ItemEntry { name: n.to_string(), exported: false, sig: ItemSig::Fn(sig(lo)) })
        .collect();
    Package {
        sigs: SigTables { table: table(), modules: vec![items], impls: vec![], traits: vec![] },
        bodies,
        files: vec![SourceFile { lines: vec![], root: span(0), fns: vec![] }],
        modules: vec![vec!["m".to_string()]],
    }
}

fn bytes_of(lo: u32) -> Expr {
    let s = path(lo, "s", 1);
    let m = expr(lo + 1, "s.bytes", 2, ExprKind::Member(Box::new(s), "bytes".to_string()));
    call(lo + 2, m, vec![], "bytes")
}

#[test]
fn byte_lists_are_lists_of_int() {
    assert!(is_byte_list(&table(), TyId(2)));
    assert!(!is_byte_list(&table(), TyId(3)));
    assert!(!is_byte_list(&table(), TyId(0)));
}

#[test]
fn views_are_bytes_of_a_str() {
    let body = func("f", 100, vec![]);
    assert!(view_recv(&body, &bytes_of(10)).is_some());
    assert!(view_recv(&body, &path(10, "s", 1)).is_none());
}

#[test]
fn reads_lend() {
    // v[0]; v.len
    let v = path(10, "v", 2);
    let i = path(11, "i", 0);
    let read = expr(
        12,
        "v[i]",
        0,
        ExprKind::Bracket { callee: Box::new(v), args: vec![i], one_origin: false },
    );
    let v = path(13, "v", 2);
    let len = expr(14, "v.len", 0, ExprKind::Member(Box::new(v), "len".to_string()));
    let f = func("f", 100, vec![Statement::Expr(read), Statement::Expr(len)]);
    let pkg = package(vec![("f", 100)], vec![f]);
    assert_eq!(Lender::new(&pkg).param(&sig(100), 0), Lend::Lendable);
    assert_eq!(Lender::new(&pkg).param(&sig(100), 1), Lend::Opaque);
}

#[test]
fn returned_views_escape() {
    let f = func("f", 100, vec![Statement::Expr(path(10, "v", 2))]);
    let pkg = package(vec![("f", 100)], vec![f]);
    assert_eq!(Lender::new(&pkg).param(&sig(100), 0), Lend::Escapes(span(10)));
}

#[test]
fn other_uses_are_opaque() {
    let v = path(10, "v", 2);
    let t = expr(11, "(v,)", 2, ExprKind::Tuple(vec![v]));
    let f = func("f", 100, vec![Statement::Expr(t), Statement::Expr(path(20, "x", 0))]);
    let pkg = package(vec![("f", 100)], vec![f]);
    assert_eq!(Lender::new(&pkg).param(&sig(100), 0), Lend::Opaque);
}

#[test]
fn cycles_lend() {
    let again = call(12, path(10, "f", 0), vec![arg(path(11, "v", 2))], "f");
    let f = func("f", 100, vec![Statement::Expr(again)]);
    let pkg = package(vec![("f", 100)], vec![f]);
    assert_eq!(Lender::new(&pkg).param(&sig(100), 0), Lend::Lendable);
}

#[test]
fn taken_views_escape_through_a_re_lend() {
    let mut a = arg(path(11, "v", 2));
    a.mode = Some(ParamMode::Take);
    let inner = call(12, path(10, "g", 0), vec![a], "g");
    let f = func("f", 100, vec![Statement::Expr(inner)]);
    let pkg = package(vec![("f", 100)], vec![f]);
    assert_eq!(Lender::new(&pkg).param(&sig(100), 0), Lend::Escapes(span(11)));
}

#[test]
fn copied_lends_are_warned_about() {
    let keep = func("f", 100, vec![Statement::Expr(path(10, "v", 2))]);
    let lend = call(40, path(30, "f", 0), vec![arg(bytes_of(31))], "f");
    let main = func("main", 200, vec![Statement::Expr(lend)]);
    let pkg = package(vec![("f", 100)], vec![keep, main]);
    let mut diags = vec![];
    check_body(&Lender::new(&pkg), &pkg.bodies[1], &mut diags);
    assert_eq!(diags.len(), 1);
    assert_eq!(diags[0].code, Code::W1004);
    assert_eq!(diags[0].span(), span(33));
    assert_eq!(diags[0].secondary.len(), 2);
    assert_eq!(diags[0].secondary[0].0, span(10));
}

#[test]
fn packages_are_checked() {
    let use_it = func("f", 100, vec![Statement::Expr(path(10, "v", 2))]);
    let pkg = package(vec![("f", 100)], vec![use_it]);
    let checked = check_package(&pkg);
    assert!(checked.diagnostics.is_empty());
    assert!(checked.not_yet.is_empty());
    assert_eq!(checked.facts.len(), 1);
    assert_eq!(checked.facts[0].name, "f");
    assert!(dump_package(&pkg).contains("f"));
}

#[test]
fn the_callee_is_a_use_too() {
    // keep(v).len()
    let inner = call(12, path(10, "keep", 0), vec![arg(path(11, "v", 2))], "keep");
    let m = expr(13, "keep(v).len", 0, ExprKind::Member(Box::new(inner), "len".to_string()));
    let outer = call(14, m, vec![], "len");
    let f = func("f", 100, vec![Statement::Expr(outer), Statement::Expr(path(15, "x", 0))]);
    let keep = func("keep", 200, vec![Statement::Expr(path(20, "v", 2))]);
    let pkg = package(vec![("f", 100), ("keep", 200)], vec![f, keep]);
    assert_eq!(Lender::new(&pkg).param(&sig(100), 0), Lend::Escapes(span(11)));
}

#[test]
fn packages_report_copied_lends() {
    let keep = func("f", 100, vec![Statement::Expr(path(10, "v", 2))]);
    let lend = call(40, path(30, "f", 0), vec![arg(bytes_of(31))], "f");
    let main = func("main", 200, vec![Statement::Expr(lend)]);
    let pkg = package(vec![("f", 100)], vec![keep, main]);
    let codes: Vec<Code> = check_package(&pkg).diagnostics.iter().map(|d| d.code).collect();
    assert!(codes.contains(&Code::W1004));
}

#[test]
fn pointers_are_found_at_any_depth() {
    let mut t = table();
    t.kinds.push(TyKind::Ptr(TyId(0)));
    t.rendered.push("*int".into());
    for i in 0..40u32 {
        t.kinds.push(TyKind::List(TyId(4 + i)));
        t.rendered.push("List".into());
    }
    let mut f = sig(100);
    f.params[0].ty = TyId(44);
    let sigs = SigTables {
        table: t,
        modules: vec![vec![ItemEntry {
            name: "f".to_string(),
            exported: true,
            sig: ItemSig::Fn(f),
        }]],
        impls: vec![],
        traits: vec![],
    };
    let mut diags = vec![];
    unsafe_sig_check(&sigs, &mut diags);
    assert_eq!(diags.len(), 1);
    assert_eq!(diags[0].code, Code::E1302);
}

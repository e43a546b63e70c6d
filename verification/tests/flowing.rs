use wolf_mem::cfg::{Block, BlockId, CallSurface, Cfg, Local, Stmt};
use wolf_mem::diag::{Code, Diagnostic, Span};
use wolf_mem::excl;
use wolf_mem::moves;
use wolf_mem::package::check_cfg;
use wolf_mem::place::{Base, Place, PlaceId, PlaceTable, Proj};

fn span(lo: u32) -> Span {
    Span { file: 0, lo, hi: lo + 1 }
}

fn graph(blocks: Vec<Block>) -> (Cfg, PlaceId, PlaceId, PlaceId) {
    let mut places = PlaceTable::new();
    let v = Place { base: Base::Local(0), proj: vec![] };
    let x = Place { base: Base::Local(0), proj: vec![Proj::Field("x".to_string())] };
    let y = Place { base: Base::Local(0), proj: vec![Proj::Field("y".to_string())] };
    let v = places.intern(v, false);
    let x = places.intern(x, false);
    let y = places.intern(y, false);
    let exit = BlockId(blocks.len() as u32 - 1);
    let cfg = Cfg {
        name: "f".to_string(),
        blocks,
        locals: vec![Local {
            name: "v".to_string(),
            span: span(0),
            ty: "T".to_string(),
            is_copy: false,
            param_mode: None,
        }],
        places,
        loans: vec![],
        regions: vec![],
        sites: vec![],
        entry: BlockId(0),
        exit,
        pattern_moves: vec![],
    };
    (cfg, v, x, y)
}

fn moved(cfg: &Cfg) -> Vec<Diagnostic> {
    let mut out = vec![];
    moves::check(cfg, &mut out);
    out
}

#[test]
fn use_after_move_is_reported() {
    let (mut cfg, v, _, _) = graph(vec![Block::default()]);
    cfg.blocks[0].stmts.push(Stmt::Init { place: v, span: span(1) });
    cfg.blocks[0].stmts.push(Stmt::Move { place: v, span: span(2) });
    cfg.blocks[0].stmts.push(Stmt::Read { place: v, span: span(3) });
    let diags = moved(&cfg);
    assert_eq!(diags.len(), 1);
    assert_eq!(diags[0].code, Code::E1001);
    assert_eq!(diags[0].span(), span(3));
}

#[test]
fn initializing_revives() {
    let (mut cfg, v, _, _) = graph(vec![Block::default()]);
    cfg.blocks[0].stmts.push(Stmt::Init { place: v, span: span(1) });
    cfg.blocks[0].stmts.push(Stmt::Move { place: v, span: span(2) });
    cfg.blocks[0].stmts.push(Stmt::Init { place: v, span: span(3) });
    cfg.blocks[0].stmts.push(Stmt::Read { place: v, span: span(4) });
    assert!(moved(&cfg).is_empty());
}

#[test]
fn moving_a_field_leaves_its_sibling() {
    let (mut cfg, v, x, y) = graph(vec![Block::default()]);
    cfg.blocks[0].stmts.push(Stmt::Init { place: v, span: span(1) });
    cfg.blocks[0].stmts.push(Stmt::Move { place: x, span: span(2) });
    cfg.blocks[0].stmts.push(Stmt::Read { place: y, span: span(3) });
    assert!(moved(&cfg).is_empty());
    cfg.blocks[0].stmts.push(Stmt::Read { place: v, span: span(4) });
    let diags = moved(&cfg);
    assert_eq!(diags.len(), 1);
    assert_eq!(diags[0].span(), span(4));
}

#[test]
fn a_move_on_one_branch_counts_after_the_join() {
    let mut blocks: Vec<Block> = (0..4).map(|_| Block::default()).collect();
    blocks[0].succs = vec![BlockId(1), BlockId(2)];
    blocks[1].succs = vec![BlockId(3)];
    blocks[2].succs = vec![BlockId(3)];
    let (mut cfg, v, _, _) = graph(blocks);
    cfg.blocks[0].stmts.push(Stmt::Init { place: v, span: span(1) });
    cfg.blocks[1].stmts.push(Stmt::Move { place: v, span: span(2) });
    cfg.blocks[2].stmts.push(Stmt::Read { place: v, span: span(3) });
    cfg.blocks[3].stmts.push(Stmt::Read { place: v, span: span(4) });
    let diags = moved(&cfg);
    assert_eq!(diags.len(), 1);
    assert_eq!(diags[0].span(), span(4));
}

#[test]
fn overlapping_arguments_are_exclusive() {
    let surface = |mut_args: Vec<(PlaceId, Span)>, read_args: Vec<(PlaceId, Span)>| {
        Stmt::Call(CallSurface {
            callee: "g".to_string(),
            span: span(9),
            mut_args,
            read_args,
            take_args: vec![],
            c_call: false,
        })
    };
    let (mut cfg, v, x, y) = graph(vec![Block::default()]);
    cfg.blocks[0].stmts.push(surface(vec![(x, span(1)), (y, span(2))], vec![]));
    let mut out = vec![];
    excl::check(&cfg, &mut out);
    assert!(out.is_empty());
    cfg.blocks[0].stmts.push(surface(vec![(x, span(3))], vec![(v, span(4))]));
    excl::check(&cfg, &mut out);
    assert_eq!(out.len(), 1);
    assert_eq!(out[0].code, Code::E1002);
}

#[test]
fn dumps_and_checks_agree_on_an_empty_graph() {
    let (cfg, _, _, _) = graph(vec![Block::default()]);
    assert!(check_cfg(&cfg).is_empty());
    assert!(cfg.dump().contains("f"));
}

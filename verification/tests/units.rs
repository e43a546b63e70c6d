use wolf_mem::arith::{checked_arith, keep, le_bytes, le_number, low_mask, wrapping_arith, IntOut};
use wolf_mem::ast::BinOp;
use wolf_mem::builtin::{clock_ms, sort_names, unix_ms};
use wolf_mem::diag::{Code, Diagnostic, Severity, Span};
use wolf_mem::facts::FnFacts;
use wolf_mem::literal::{
    cooked_str_pattern, decode_codepoint_escape, decode_escapes, dedent_multiline, parse_int_literal, parse_uint_literal,
    prim_bits, prim_range, prim_size, raw_str_inner,
};
use wolf_mem::package::sort_diagnostics;
use wolf_mem::shadow::{base_of, PtrVal, Shadow, TagState};
use wolf_mem::strs::{characters, count, find, lines, lower, repeat, replace, rfind, split, trim, upper, words};
use wolf_mem::text::{contains_text, dec, dec_i128, join, lit, str_eq};
use wolf_mem::types::Prim;
use wolf_mem::value::{float_before, floats_equal, format_value, values_equal, Value};
use wolf_mem::verdict::{
    attribute, fs_err_tag, net_err_tag, ub_diagnostic, Budget, HostError, UbFinding, UbRow,
};

fn at(lo: u32) -> Span {
    Span { file: 0, lo, hi: lo + 1 }
}

fn bytes(s: &str) -> Vec<u8> {
    s.as_bytes().to_vec()
}

#[test]
fn numbers_render_in_decimal() {
    assert_eq!(dec(0), "0");
    assert_eq!(dec(u64::MAX), "18446744073709551615");
    assert_eq!(dec_i128(-42), "-42");
    assert_eq!(dec_i128(i64::MIN as i128), "-9223372036854775808");
    assert_eq!(join(&vec![lit("a"), lit("b"), lit("c")], ", "), "a, b, c");
    assert!(contains_text("wolf den", "f d"));
    assert!(!contains_text("wolf", "wolves"));
    assert!(str_eq("ä", "ä") && !str_eq("a", "ä"));
}

#[test]
fn literals_parse() {
    assert_eq!(parse_int_literal("1_000"), Some(1000));
    assert_eq!(parse_int_literal("0xff"), Some(255));
    assert_eq!(parse_int_literal("9223372036854775808"), None);
    assert_eq!(parse_uint_literal("9223372036854775808"), Some(1 << 63));
    assert_eq!(parse_uint_literal("18446744073709551616"), None);
}

#[test]
fn escapes_decode() {
    assert_eq!(decode_escapes(&bytes("a\\n\\t\\\\")), bytes("a\n\t\\"));
    assert_eq!(decode_escapes(&bytes("\\x41\\u{1f43a}")), bytes("A🐺"));
    assert_eq!(decode_escapes(&bytes("plain")), bytes("plain"));
    assert_eq!(cooked_str_pattern("\"x\\n\""), bytes("x\n"));
    assert_eq!(decode_codepoint_escape(&bytes("\\x+5"), 0), None);
    assert_eq!(decode_codepoint_escape(&bytes("\\u{+5}"), 0), None);
    assert_eq!(decode_codepoint_escape(&bytes("\\x05"), 0), Some(('\u{5}', 4)));
    assert_eq!(decode_codepoint_escape(&bytes("\\u{1F43a}"), 0), Some(('🐺', 9)));
    assert_eq!(decode_codepoint_escape(&bytes("\\u{}"), 0), None);
    assert_eq!(decode_codepoint_escape(&bytes("\\q00"), 0), None);
    assert_eq!(raw_str_inner(&bytes("\"plain\"")), None);
}

#[test]
fn multiline_strings_lose_their_indent() {
    assert_eq!(dedent_multiline(&bytes("\n    a\n      b\n    ")), bytes("a\n  b\n"));
}

#[test]
fn primitive_widths() {
    assert_eq!(prim_bits(Prim::U16), Some(16));
    assert_eq!(prim_bits(Prim::Bool), None);
    assert_eq!(prim_size(Prim::I32), 4);
    assert_eq!(prim_range(Prim::I8), Some((-128, 127)));
}

#[test]
fn integer_operations() {
    assert!(matches!(checked_arith(BinOp::Star, 6, 7, None), IntOut::Gives(42)));
    assert!(matches!(checked_arith(BinOp::Slash, -7, 2, None), IntOut::Gives(-3)));
    assert!(matches!(checked_arith(BinOp::Percent, -7, 2, None), IntOut::Gives(-1)));
    assert!(matches!(checked_arith(BinOp::Slash, i64::MIN, -1, None), IntOut::Overflow));
    assert!(matches!(checked_arith(BinOp::Percent, 1, 0, None), IntOut::DivZero));
    assert!(matches!(checked_arith(BinOp::Plus, 100, 100, Some((-128, 127))), IntOut::Overflow));
    assert!(matches!(checked_arith(BinOp::Amp, 1, 1, None), IntOut::Unruled));
    assert!(matches!(wrapping_arith(BinOp::Minus, 0, 1, 8, true), IntOut::Gives(255)));
    assert!(matches!(wrapping_arith(BinOp::Star, 16, 16, 8, true), IntOut::Gives(0)));
    assert_eq!(low_mask(64), u64::MAX);
    assert_eq!(keep(0x1ff, 8), 255);
    assert_eq!(le_bytes(0x0102, 4), vec![2, 1, 0, 0]);
    assert_eq!(le_number(&vec![2, 1, 0, 0]), 0x0102);
}

#[test]
fn text_operations() {
    let s = bytes("a,b,,c");
    assert_eq!(split(&s, &bytes(",")), vec![bytes("a"), bytes("b"), bytes(""), bytes("c")]);
    assert_eq!(replace(&s, &bytes(","), &bytes("; ")), bytes("a; b; ; c"));
    assert_eq!(replace(&s, &bytes(","), &bytes(",")), s);
    assert_eq!(count(&s, &bytes(",")), 3);
    assert_eq!(find(&s, &bytes("b"), 0), Some(2));
    assert_eq!(find(&s, &bytes("b"), 3), None);
    assert_eq!(rfind(&s, &bytes(",")), Some(4));
    assert_eq!(lines(&bytes("x\ny")), vec![bytes("x"), bytes("y")]);
    assert_eq!(words(&bytes("  x \t y ")), vec![bytes("x"), bytes("y")]);
    assert_eq!(trim(&bytes(" \u{a0}x "), true, true), bytes("x"));
    assert_eq!(trim(&bytes(" x "), true, false), bytes("x "));
    assert_eq!(repeat(&bytes("ab"), 3), bytes("ababab"));
    assert_eq!(lower(&bytes("ÀB")), bytes("àb"));
    assert_eq!(upper(&bytes("straße")), bytes("STRASSE"));
    assert_eq!(characters(&bytes("aÄ")), vec!['a', 'Ä']);
    assert_eq!(repeat(&bytes(""), u64::MAX), bytes(""));
}

#[test]
fn values_compare_and_render() {
    let pair = |n: i64| Value::Enum { variant: "V".to_string(), payload: vec![Value::Int(n)] };
    assert!(values_equal(&pair(1), &pair(1)));
    assert!(!values_equal(&pair(1), &pair(2)));
    assert!(!values_equal(&Value::Int(1), &Value::Bool(true)));
    assert_eq!(format_value(&Value::Int(-5)), bytes("-5"));
    assert_eq!(format_value(&Value::Bool(true)), bytes("true"));
    assert_eq!(format_value(&Value::Char('ä')), bytes("ä"));
    let nan = f64::NAN.to_bits();
    assert!(!floats_equal(nan, nan));
    assert!(floats_equal(0f64.to_bits(), (-0f64).to_bits()));
    assert!(float_before((-1.5f64).to_bits(), 0.25f64.to_bits()));
    assert!(!float_before(0.25f64.to_bits(), nan));
}

fn shadow() -> (Shadow, PtrVal) {
    let mut s = Shadow { allocs: vec![], regions: vec![], mem_used: 0, mem_limit: 1000 };
    let r = s.new_region(at(1));
    let a = s.new_alloc(4, r, true, false, true, at(2));
    assert_eq!(a, Some(0));
    (s, PtrVal { alloc: Some(0), tag: 0, offset: 0, addr: 0 })
}

#[test]
fn shadow_memory_reads_back() {
    let (mut s, p) = shadow();
    assert!(s.raw_write_bytes(p, &vec![1, 2, 3, 4], at(3), "a write").is_ok());
    match s.raw_read_bytes(p, 4, at(4), "a read") {
        Ok(b) => assert_eq!(b, vec![1, 2, 3, 4]),
        Err(f) => panic!("{:?}", f),
    }
    match s.raw_read_bytes(p, 5, at(5), "a read") {
        Ok(_) => panic!("read beyond the end"),
        Err(f) => assert_eq!(f.row, UbRow::P3),
    }
    let (mut s, p) = shadow();
    match s.raw_read_bytes(p, 1, at(6), "a read") {
        Ok(_) => panic!("read of nothing written"),
        Err(f) => assert_eq!(f.row, UbRow::L1),
    }
}

#[test]
fn frozen_tags_are_not_written() {
    let (mut s, p) = shadow();
    let q = s.retag(p, TagState::Frozen, at(3));
    match s.raw_write_bytes(q, &vec![1], at(4), "a write") {
        Ok(_) => panic!("a frozen tag was written"),
        Err(f) => assert_eq!((f.row, f.span), (UbRow::P2, at(4))),
    }
}

#[test]
fn exposed_addresses_resolve_to_a_usable_tag() {
    let (mut s, p) = shadow();
    assert!(s.raw_write_bytes(p, &vec![1, 2, 3, 4], at(3), "a write").is_ok());
    let dead = s.retag(p, TagState::Active, at(4));
    let live = s.retag(p, TagState::Active, at(5));
    s.expose(dead);
    s.expose(live);
    s.allocs[0].tags[0].exposed = false;
    s.allocs[0].tags[dead.tag as usize].state = TagState::Disabled;
    let base = base_of(0);
    let q = s.resolve_exposed(base + 1, at(6));
    assert_eq!((q.alloc, q.offset), (Some(0), 1));
    assert_eq!(s.allocs[0].tags[q.tag as usize].parent, Some(live.tag));
    match s.raw_read_bytes(q, 1, at(7), "a read") {
        Ok(b) => assert_eq!(b, vec![2]),
        Err(f) => panic!("{:?}", f),
    }
    assert_eq!(s.resolve_exposed(base + 4, at(8)).alloc, None);
}

#[test]
fn read_arguments_are_protected() {
    let (mut s, p) = shadow();
    assert!(s.raw_write_bytes(p, &vec![1, 2, 3, 4], at(3), "a write").is_ok());
    let q = s.retag(p, TagState::Frozen, at(4));
    match s.raw_write_bytes(p, &vec![9], at(5), "a write") {
        Ok(_) => panic!("a protected tag was invalidated"),
        Err(f) => assert_eq!(f.row, UbRow::P1),
    }
    s.unprotect(q);
    assert!(s.raw_write_bytes(p, &vec![9], at(6), "a write").is_ok());
}

#[test]
fn freed_regions_take_their_memory() {
    let (mut s, p) = shadow();
    s.free_region(0);
    match s.raw_read_bytes(p, 1, at(9), "a read") {
        Ok(_) => panic!("freed memory was read"),
        Err(f) => assert_eq!(f.row, UbRow::P4),
    }
}

#[test]
fn budget_bounds_shadow_memory() {
    let (mut s, _) = shadow();
    assert!(s.charge_mem(996));
    assert!(!s.charge_mem(1));
    assert_eq!(Budget::default().steps, 20_000_000);
    assert_eq!(Budget::default().mem_bytes, 256 * 1024 * 1024);
}

#[test]
fn rows_have_names() {
    assert_eq!(UbRow::L2.as_str(), "L2");
    assert!(UbRow::P5.clause().starts_with("mem."));
    assert!(!UbRow::T1.licensed().is_empty());
    let f = UbFinding { row: UbRow::L1, message: "too far".to_string(), span: at(1), tag_span: at(2) };
    let d = ub_diagnostic(&f);
    assert_eq!(d.code, Code::E1401);
    assert_eq!(d.span(), at(1));
    assert!(d.message.ends_with("too far"));
}

#[test]
fn host_failures_map_to_rows() {
    assert_eq!(net_err_tag(HostError::ConnectionRefused), "refused");
    assert_eq!(net_err_tag(HostError::WouldBlock), "timeout");
    assert_eq!(net_err_tag(HostError::BrokenPipe), "closed");
    assert_eq!(net_err_tag(HostError::NotFound), "io");
    assert_eq!(fs_err_tag(HostError::NotFound), "not_found");
    assert_eq!(fs_err_tag(HostError::PermissionDenied), "denied");
    assert_eq!(fs_err_tag(HostError::Other), "io");
}

#[test]
fn diagnostics_sort_by_position_then_code() {
    let d = |code: Code, lo: u32| Diagnostic::error(code, at(lo), "m".to_string());
    let sorted = sort_diagnostics(vec![d(Code::E1002, 9), d(Code::E1002, 4), d(Code::E1001, 4)]);
    let order: Vec<(u32, Code)> = sorted.iter().map(|x| (x.span().lo, x.code)).collect();
    assert_eq!(order, vec![(4, Code::E1001), (4, Code::E1002), (9, Code::E1002)]);
    assert!(sorted.iter().all(|x| x.severity == Severity::Error));
}

#[test]
fn clocks_fit_an_integer() {
    assert_eq!(unix_ms(false, 5), Some(5));
    assert_eq!(unix_ms(true, 5), Some(-5));
    assert_eq!(unix_ms(false, 1 << 63), None);
    assert_eq!(clock_ms(1 << 63), i64::MAX);
    assert_eq!(clock_ms(7), 7);
}

#[test]
fn listings_are_sorted() {
    let v = vec![bytes("b"), bytes("a"), bytes("ab"), bytes("a")];
    assert_eq!(sort_names(&v), vec![bytes("a"), bytes("a"), bytes("ab"), bytes("b")]);
}

fn facts() -> FnFacts {
    FnFacts {
        name: "f".to_string(),
        mut_params: vec![],
        read_params: vec![],
        take_params: vec![],
        move_sites: vec![],
        alloc_sites: vec![],
        promoted_regions: vec![],
        stack_allocs: vec![],
        dups: vec![],
        drops: vec![],
        cells: vec![],
        handle_checks: vec![],
        unsafe_blocks: vec![],
        assumes: vec![],
        raw_accesses: vec![],
        exposes: vec![],
        doors: vec![],
        prov_ops: vec![],
        c_calls: vec![],
    }
}

#[test]
fn findings_belong_to_an_operation_of_their_file() {
    let wide = |file: u32| Span { file, lo: 0, hi: 100 };
    let f = UbFinding { row: UbRow::L2, message: "m".to_string(), span: at(5), tag_span: at(5) };
    let mut elsewhere = facts();
    elsewhere.raw_accesses.push(("p".to_string(), true, wide(1)));
    let mut here = facts();
    here.c_calls.push(("c.free".to_string(), wide(0)));
    let all = vec![elsewhere, here];
    assert_eq!(attribute(&f, &all), Some(("c.free", wide(0))));
    let g = UbFinding { row: UbRow::L2, message: "m".to_string(), span: at(100), tag_span: at(5) };
    assert_eq!(attribute(&g, &all), None);
}

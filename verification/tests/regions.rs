use wolf_mem::cfg::{Region, RegionKind, Strategy};
use wolf_mem::diag::Span;
use wolf_mem::regions::{summarize, Binding, RegionTable, Unify};

fn region(kind: RegionKind) -> Region {
    Region {
        name: "r".to_string(),
        kind,
        strategy: Strategy::Arena,
        span: Span { file: 0, lo: 0, hi: 0 },
    }
}

#[test]
fn params_absorb_rigids_but_rigids_never_merge() {
    let mut rt = RegionTable::default();
    let caller = rt.new_region(region(RegionKind::Caller));
    let p1 = rt.new_region(region(RegionKind::Param));
    let p2 = rt.new_region(region(RegionKind::Param));
    let scope = rt.new_region(region(RegionKind::Scope));

    assert_eq!(rt.unify(p1, caller), Unify::Met);
    assert_eq!(rt.binding(p1), Some(Binding::Caller));
    // p2 joins p1 (now caller-bound): fine — the default effect.
    assert_eq!(rt.unify(p2, p1), Unify::Met);
    // Rigid–rigid is a conflict, both ways.
    assert_eq!(
        rt.unify(caller, scope),
        Unify::Conflict(Binding::Caller, Binding::Local(scope))
    );
    assert_eq!(
        rt.unify(scope, caller),
        Unify::Conflict(Binding::Local(scope), Binding::Caller)
    );
}

#[test]
fn direct_param_param_merge_is_the_annotation_case() {
    let mut rt = RegionTable::default();
    let p1 = rt.new_region(region(RegionKind::Param));
    let p2 = rt.new_region(region(RegionKind::Param));
    assert_eq!(rt.unify(p1, p2), Unify::ParamsMerged);
    // Idempotent afterwards.
    assert_eq!(rt.unify(p1, p2), Unify::Met);
}

#[test]
fn scope_regions_stay_distinct() {
    let mut rt = RegionTable::default();
    let a = rt.new_region(region(RegionKind::Scope));
    let b = rt.new_region(region(RegionKind::Scope));
    assert!(matches!(rt.unify(a, b), Unify::Conflict(..)));
    assert!(!rt.same(a, b));
}

#[test]
fn generalized_parameters_resolve_to_their_own_region() {
    let mut rt = RegionTable::default();
    rt.new_region(region(RegionKind::Param));
    let s = summarize("f", rt, &vec![], &vec![], &vec![], false);
    assert_eq!(s.name, "f");
    assert_eq!(s.resolved, vec!["own".to_string()]);
    assert_eq!(s.regions.len(), 1);
    assert!(s.sites.is_empty() && s.promoted.is_empty() && s.never_allocates.is_empty());
    assert!(!s.conflicted);
}

#[test]
fn a_class_has_one_binding() {
    let mut rt = RegionTable::default();
    let p = rt.new_region(region(RegionKind::Param));
    let q = rt.new_region(region(RegionKind::Param));
    let s = rt.new_region(region(RegionKind::Scope));
    assert_eq!(rt.unify(p, q), Unify::ParamsMerged);
    assert_eq!(rt.binding(p), None);
    assert_eq!(rt.unify(q, s), Unify::Met);
    assert_eq!(rt.binding(p), Some(Binding::Local(s)));
    assert_eq!(rt.binding(q), Some(Binding::Local(s)));
}

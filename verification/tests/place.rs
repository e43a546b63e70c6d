use wolf_mem::place::{covers, overlap, Base, Place, Proj};

fn p(base: u32, fields: &[&str]) -> Place {
    Place {
        base: Base::Local(base),
        proj: fields.iter().map(|f| Proj::Field(f.to_string())).collect(),
    }
}

#[test]
fn disjoint_fields_do_not_overlap() {
    assert!(!overlap(&p(0, &["x"]), &p(0, &["y"])));
    assert!(!overlap(&p(0, &["a", "n"]), &p(0, &["b", "n"])));
    assert!(!overlap(&p(0, &["x"]), &p(1, &["x"])));
}

#[test]
fn prefixes_overlap_both_ways() {
    assert!(overlap(&p(0, &[]), &p(0, &["x"])));
    assert!(overlap(&p(0, &["x"]), &p(0, &[])));
    assert!(overlap(&p(0, &["a"]), &p(0, &["a", "n"])));
    assert!(overlap(&p(0, &["x"]), &p(0, &["x"])));
}

#[test]
fn opaque_matches_everything_at_its_step() {
    let idx = Place {
        base: Base::Local(0),
        proj: vec![Proj::Opaque],
    };
    assert!(overlap(&idx, &p(0, &["x"])));
    assert!(overlap(&idx, &idx));
    assert!(!overlap(
        &idx,
        &Place {
            base: Base::Local(1),
            proj: vec![Proj::Opaque],
        }
    ));
}

#[test]
fn covers_is_prefix_only() {
    assert!(covers(&p(0, &[]), &p(0, &["x"])));
    assert!(!covers(&p(0, &["x"]), &p(0, &[])));
    assert!(covers(&p(0, &["x"]), &p(0, &["x"])));
    assert!(!covers(&p(0, &["x"]), &p(0, &["y"])));
}

use thanos::names::{container_coords, parse_i32, plan_file, FilePlan};

fn b(s: &str) -> Vec<u8> {
    s.as_bytes().to_vec()
}

#[test]
fn malformed_names_are_ignored() {
    for name in ["foo.txt", "r.1.2.3.mca", "r.a.b.mca", "r.1.2.mcc", "r.1.mca", "r..2.mca", "r.1.2.mca.bak"] {
        assert_eq!(container_coords(&b(name)), None, "{}", name);
        assert_eq!(plan_file(&b(name), 10000, true), FilePlan::Ignore);
    }
}

#[test]
fn container_names_give_coordinates() {
    assert_eq!(container_coords(&b("r.0.0.mca")), Some((0, 0)));
    assert_eq!(container_coords(&b("r.-1.25.mca")), Some((-1, 25)));
    assert_eq!(container_coords(&b("r.+3.-2147483648.mca")), Some((3, i32::MIN)));
    assert_eq!(container_coords(&b("r.2147483647.0.mca")), Some((i32::MAX, 0)));
    assert_eq!(container_coords(&b("r.2147483648.0.mca")), None);
    assert_eq!(container_coords(&b("r.99999999999999999999.0.mca")), None);
}

#[test]
fn integers_parse_like_decimals() {
    let s = b("x-42y");
    assert_eq!(parse_i32(&s, 1, 4), Some(-42));
    assert_eq!(parse_i32(&s, 1, 2), None);
    assert_eq!(parse_i32(&s, 2, 2), None);
    assert_eq!(parse_i32(&s, 0, 4), None);
}

#[test]
fn empty_containers_follow_mode() {
    assert_eq!(plan_file(&b("r.1.2.mca"), 0, true), FilePlan::RemoveEmpty);
    assert_eq!(plan_file(&b("r.1.2.mca"), 0, false), FilePlan::SkipEmpty);
    assert_eq!(plan_file(&b("r.1.2.mca"), 100, false), FilePlan::HeaderMissing);
    assert_eq!(plan_file(&b("r.1.2.mca"), 8191, true), FilePlan::HeaderMissing);
    assert_eq!(plan_file(&b("r.1.2.mca"), 8192, true), FilePlan::Compact { x: 1, z: 2 });
}

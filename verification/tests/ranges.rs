use retread_solve::solve::ranges::{
    bare_floor, exact_pin_version, extract_cap_clause, intersect_range_with_cap,
    is_exclusion_sentinel_version, leading_clause, next_major, next_minor, pack_emitted_pin_floor,
    pack_pin_interval, pack_pin_intervals_disjoint, strip_version_op,
    translate_conda_range_to_pep440, widen_spec, widenable, WidenCeilingPolicy,
};
use retread_solve::solve::repair::is_abi_anchor;

#[test]
fn translate_conda_range_to_pep440_basic_and_glob() {
    assert_eq!(translate_conda_range_to_pep440(">=68,<81"), ">=68,<81");
    assert_eq!(translate_conda_range_to_pep440("=68"), "==68");
    assert_eq!(translate_conda_range_to_pep440("==83.0.0.*"), "==83.0.0.*");
    assert_eq!(translate_conda_range_to_pep440(">=1,<=2"), ">=1,<=2");
    assert_eq!(translate_conda_range_to_pep440("garbage"), "garbage");
}

#[test]
fn intersect_range_with_cap_narrows_ceiling_only() {
    assert_eq!(
        intersect_range_with_cap(">=68,<81", "<", "76").unwrap(),
        ">=68,<76"
    );
}

#[test]
fn intersect_range_with_cap_is_noop_when_cap_looser_than_existing_ceiling() {
    assert_eq!(
        intersect_range_with_cap(">=68,<76", "<", "81").unwrap(),
        ">=68,<76"
    );
}

#[test]
fn intersect_range_with_cap_handles_bare_floor_with_no_existing_ceiling() {
    assert_eq!(
        intersect_range_with_cap(">=68", "<", "76").unwrap(),
        ">=68,<76"
    );
}

#[test]
fn intersect_range_with_cap_reports_empty_intersection() {
    let err = intersect_range_with_cap(">=76,<81", "<", "76").unwrap_err();
    assert!(
        err.contains("floor"),
        "error should explain the clash: {err}"
    );
}

#[test]
fn abi_guard_covers_exact_list_and_patterns() {
    assert!(is_abi_anchor("python"));
    assert!(is_abi_anchor("__linux"));
    assert!(is_abi_anchor("cxx_compiler"));
    assert!(is_abi_anchor("sysroot_linux-64"));
    assert!(!is_abi_anchor("numpy"));
}

#[test]
fn pack_emitted_pin_floor_accepts_exact_and_bounded_range_only() {
    assert_eq!(
        pack_emitted_pin_floor("==2.29.1").as_deref(),
        Some("2.29.1")
    );
    assert_eq!(
        pack_emitted_pin_floor(">=1.16.0,<2").as_deref(),
        Some("1.16.0"),
        "bounded-range emission form must be recognized as a pack pin"
    );
    assert_eq!(
        pack_emitted_pin_floor(">=0.20.1,<0.21").as_deref(),
        Some("0.20.1")
    );
    assert!(pack_emitted_pin_floor(">=2.0.0").is_none(), "bare floor");
    assert!(pack_emitted_pin_floor("<76").is_none(), "lone cap");
    assert!(pack_emitted_pin_floor("*").is_none());
    assert!(
        pack_emitted_pin_floor(">=1,<2,<3").is_none(),
        "three clauses"
    );
    assert!(
        pack_emitted_pin_floor("==1.0,<2").is_none(),
        "exact+cap mix"
    );
}

#[test]
fn intersect_range_with_cap_exact_pin_excluded_by_cap_is_empty() {
    assert!(intersect_range_with_cap("==2.7.0", "<", "0.0a0").is_err());
    assert!(intersect_range_with_cap("==2.7.0", "<", "2.7.0").is_err());
    assert!(intersect_range_with_cap("==2.7.0", "<=", "2.6").is_err());
}

#[test]
fn intersect_range_with_cap_exact_pin_within_cap_is_noop() {
    assert_eq!(
        intersect_range_with_cap("==2.7.0", "<", "3").unwrap(),
        "==2.7.0"
    );
    assert_eq!(
        intersect_range_with_cap("==2.7.0", "<=", "2.7.0").unwrap(),
        "==2.7.0"
    );
}

#[test]
fn exclusion_sentinel_version_matches_resolvo_prose_only() {
    assert!(is_exclusion_sentinel_version("0.0a0"));
    assert!(!is_exclusion_sentinel_version("0.1"));
    assert!(!is_exclusion_sentinel_version("3.11.0"));
    assert!(!is_exclusion_sentinel_version("not-a-version"));
}

#[test]
fn pack_pin_interval_disjointness_table() {
    let iv = |s: &str| pack_pin_interval(s);
    let dj = |a: &str, b: &str| pack_pin_intervals_disjoint(&iv(a).unwrap(), &iv(b).unwrap());
    assert!(dj(">=1.16.0,<2", ">=2.2.2,<3"));
    assert!(dj(">=2.2.2,<3", ">=1.16.0,<2"), "symmetric");
    assert!(dj(">=1.0,<2", ">=2.0,<3"));
    assert!(!dj(">=1.16.0,<3", ">=2.2.2,<3"));
    assert!(!dj(">=1.0,<2", ">=1.5,<3"));
    assert!(!dj("==2.2.2", ">=2.0,<3"));
    assert!(dj("==1.5.0", ">=2.0,<3"));
    assert!(dj("==1.0", "==2.0"));
    assert!(!dj("==2.0", "==2.0"));
    assert!(iv(">=2.64.0").is_none(), "bare floor: no proof");
    assert!(iv("<2").is_none());
    assert!(iv("*").is_none());
}

#[test]
fn narrowing_twice_by_one_cap_is_narrowing_once() {
    let once = intersect_range_with_cap(">=68,<81", "<=", "76").unwrap();
    assert_eq!(once, ">=68,<=76");
    assert_eq!(intersect_range_with_cap(&once, "<=", "76").unwrap(), once);
}

#[test]
fn versions_that_cannot_be_read_are_refused() {
    let err = intersect_range_with_cap(">=68", "<", "!!").unwrap_err();
    assert!(err.starts_with("unparseable cap version !!: "), "{err}");
    let err = intersect_range_with_cap("==!!", "<", "76").unwrap_err();
    assert!(err.starts_with("unparseable exact version !!: "), "{err}");
    let err = intersect_range_with_cap(">=!!", "<", "76").unwrap_err();
    assert!(err.starts_with("unparseable floor version !!: "), "{err}");
}

#[test]
fn versions_are_ordered_as_numbers() {
    assert_eq!(
        intersect_range_with_cap(">=9,<100", "<", "20").unwrap(),
        ">=9,<20"
    );
    assert!(intersect_range_with_cap(">=20", "<", "9").is_err());
}

#[test]
fn clauses_are_read() {
    assert_eq!(
        leading_clause(">=1.2, <2"),
        Some((">=".to_string(), "1.2".to_string()))
    );
    assert!(leading_clause("1.2").is_none());
    assert_eq!(
        extract_cap_clause(">=1.2,<2"),
        Some(("<".to_string(), "2".to_string()))
    );
    assert!(extract_cap_clause(">=1.2").is_none());
    assert_eq!(bare_floor(">=2.64.0").as_deref(), Some("2.64.0"));
    assert!(bare_floor(">=2.64.0,<3").is_none());
    assert_eq!(strip_version_op(">=3.10.3"), "3.10.3");
}

#[test]
fn exact_pins_agree_or_are_none() {
    let specs = |s: &[&str]| s.iter().map(|t| t.to_string()).collect::<Vec<_>>();
    assert_eq!(
        exact_pin_version(&specs(&["==2.10.0"])).as_deref(),
        Some("2.10.0")
    );
    assert!(exact_pin_version(&specs(&[">=2.10.0"])).is_none());
    assert!(exact_pin_version(&specs(&["==1", "==2"])).is_none());
}

#[test]
fn widening_follows_the_policy() {
    assert!(widenable("3.10.3", WidenCeilingPolicy::NextMajor));
    assert_eq!(
        widen_spec(">=", "3.10.3", WidenCeilingPolicy::NextMajor),
        ">=3.10.3,<4"
    );
    assert_eq!(
        widen_spec(">=", "3.10.3", WidenCeilingPolicy::SameMinor),
        ">=3.10.3,<3.11"
    );
    assert_eq!(
        widen_spec(">=", "3.10.3", WidenCeilingPolicy::Unbounded),
        ">=3.10.3"
    );
    assert_eq!(next_major("3.10.3").as_deref(), Some("4"));
    assert_eq!(next_minor("3.10.3").as_deref(), Some("3.11"));
    assert!(!widenable("18446744073709551615.0", WidenCeilingPolicy::NextMajor));
}

#[test]
fn range_closed_by_its_ceiling_is_no_emitted_pin() {
    assert_eq!(pack_emitted_pin_floor(">=1,<=2"), None);
    assert_eq!(pack_emitted_pin_floor(">=1,<2"), Some("1".to_string()));
}

#[test]
fn open_ceiling_is_tighter_than_a_closed_one_at_the_same_version() {
    let narrowed = intersect_range_with_cap(">=68,<=76", "<", "76");
    assert_eq!(narrowed, Ok(">=68,<76".to_string()));
    assert_eq!(intersect_range_with_cap(">=68,<76", "<", "76"), narrowed);
    let kept = intersect_range_with_cap(">=68,<76", "<=", "76");
    assert_eq!(kept, Ok(">=68,<76".to_string()));
}

#[test]
fn open_floor_and_closed_ceiling_at_one_version_leave_nothing() {
    assert_eq!(
        intersect_range_with_cap(">76", "<=", "76"),
        Err("floor >76 vs narrowed ceiling <=76".to_string())
    );
    let one = intersect_range_with_cap(">=76", "<=", "76");
    assert_eq!(one, Ok(">=76,<=76".to_string()));
}

#[test]
fn exact_pin_is_narrowed_once_and_for_all() {
    let once = intersect_range_with_cap("==75", "<", "76");
    assert_eq!(once, Ok("==75".to_string()));
}

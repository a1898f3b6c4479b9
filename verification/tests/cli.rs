use drft::cli::Depth;
use std::str::FromStr;

#[test]
fn depth_parses_hops_and_all() {
    assert_eq!(Depth::from_str("1").unwrap(), Depth::Hops(1));
    assert_eq!(Depth::from_str("3").unwrap(), Depth::Hops(3));
    assert_eq!(Depth::from_str("all").unwrap(), Depth::All);
    assert_eq!(Depth::from_str("ALL").unwrap(), Depth::All);
}

#[test]
fn depth_zero_is_rejected_with_a_pointer_to_all() {
    // `0` reads as "no traversal"; it must not silently mean the opposite.
    let err = Depth::from_str("0").unwrap_err();
    assert!(err.contains("--depth all"), "got: {err}");
}

#[test]
fn depth_rejects_nonsense() {
    assert!(Depth::from_str("banana").is_err());
    assert!(Depth::from_str("-1").is_err());
}

#[test]
fn max_hops_maps_all_to_unbounded() {
    assert_eq!(Depth::All.max_hops(), None);
    assert_eq!(Depth::Hops(2).max_hops(), Some(2));
}

#[test]
fn depth_accepts_mixed_case_all_and_names_bad_input() {
    assert_eq!(Depth::parse("aLl").unwrap(), Depth::All);
    assert_eq!(
        Depth::parse("x").unwrap_err(),
        "invalid depth `x` (expected a positive number or `all`)"
    );
    assert_eq!(
        Depth::parse("0").unwrap_err(),
        "depth 0 would traverse nothing; use `--depth all` for the full reachable set"
    );
}

use unitylan::release::is_newer;

#[test]
fn only_a_later_release_is_newer() {
    assert!(is_newer("1.2.10", "1.2.9"));
    assert!(is_newer("1.3.0", "1.2.9"));
    assert!(is_newer("2.0.0", "1.9.9"));
    assert!(!is_newer("1.2.9", "1.2.10"));
    assert!(!is_newer("1.2.3", "1.2.3"));
}

#[test]
fn what_spells_no_release_is_not_newer() {
    let odd = [
        "", "9.2", "9.2.3.4", "v9.2.3", "+9.0.0", "09.0.0", "9.0.0-", "9.0.0-a..b", "9.0.0-01",
        "9.0.0-a_b", "9.0.0+", "9.0.0+a+b", "18446744073709551616.0.0",
    ];
    for text in odd {
        assert!(!is_newer(text, "1.2.3"), "{text}");
        assert!(!is_newer("99.0.0", text), "{text}");
    }
    assert!(is_newer("18446744073709551615.0.0", "1.2.3"));
    assert!(is_newer("9.0.0-0", "1.2.3"));
    assert!(is_newer("9.0.0+01", "1.2.3"));
}

#[test]
fn a_pre_release_leads_up_to_its_release() {
    let rising = [
        "1.0.0-alpha",
        "1.0.0-alpha.1",
        "1.0.0-alpha.beta",
        "1.0.0-beta",
        "1.0.0-beta.2",
        "1.0.0-beta.11",
        "1.0.0-rc.1",
        "1.0.0",
        "1.0.1-0",
    ];
    for i in 0..rising.len() {
        for j in 0..rising.len() {
            assert_eq!(is_newer(rising[i], rising[j]), i > j, "{} {}", rising[i], rising[j]);
        }
    }
}

#[test]
fn build_metadata_has_no_part_in_the_order() {
    assert!(!is_newer("1.0.0+2", "1.0.0+1"));
    assert!(!is_newer("1.0.0+1", "1.0.0"));
    assert!(is_newer("1.0.1+a-b.c", "1.0.0"));
    assert!(!is_newer("1.0.0-rc.1+9", "1.0.0"));
}

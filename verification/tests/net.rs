use unitylan::net::{
    join_v4, parse_cidr, parse_v4, v4, v4_text, CidrError, Net,
};

#[test]
fn addresses_are_read_back_as_written() {
    assert_eq!(v4_text(v4(100, 64, 0, 255)), "100.64.0.255");
    assert_eq!(parse_v4("100.64.0.255"), Some(v4(100, 64, 0, 255)));
    for bad in ["", "1.2.3", "1.2.3.4.5", "1.2.3.256", "01.2.3.4", "1.2.3.x", " 1.2.3.4"] {
        assert_eq!(parse_v4(bad), None, "{bad}");
    }
    assert_eq!(join_v4(&[v4(1, 2, 3, 4), v4(5, 6, 7, 8)], ", "), "1.2.3.4, 5.6.7.8");
}

#[test]
fn a_block_is_an_address_a_slash_and_a_prefix() {
    assert_eq!(parse_cidr("100.64.0.0/10"), Ok((v4(100, 64, 0, 0), 10)));
    assert_eq!(parse_cidr("100.64.0.0"), Err(CidrError::NoSlash));
    assert_eq!(parse_cidr("100.64.0/10"), Err(CidrError::BadAddress));
    assert_eq!(parse_cidr("100.64.0.0/x"), Err(CidrError::BadPrefix));
    assert_eq!(parse_cidr("100.64.0.0/256"), Err(CidrError::BadPrefix));
}

#[test]
fn blocks_hold_and_meet() {
    let ten = Net { addr: v4(100, 64, 3, 7), prefix: 10 };
    assert!(ten.contains(v4(100, 127, 255, 255)));
    assert!(!ten.contains(v4(100, 128, 0, 0)));
    assert_eq!(ten.trunc().to_text(), "100.64.0.0/10");
    let small = Net { addr: v4(100, 100, 0, 0), prefix: 24 };
    let other = Net { addr: v4(10, 0, 0, 0), prefix: 8 };
    assert!(ten.overlaps(&small) && small.overlaps(&ten));
    assert!(!ten.overlaps(&other) && !other.overlaps(&ten));
    assert_eq!(Net::of_mask(7, v4(255, 192, 0, 0)).map(|n| n.prefix), Some(10));
    assert!(Net::of_mask(7, v4(255, 0, 255, 0)).is_none());
}

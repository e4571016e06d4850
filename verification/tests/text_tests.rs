use telemt::ip::IpAddr;
use telemt::ip_format::format_ip;
use telemt::ip_text::parse_ip;
use telemt::text::parse_decimal;
use telemt::user_map::UserMap;

fn groups(g: [u16; 8]) -> Option<IpAddr> {
    Some(IpAddr::from_groups(g))
}

#[test]
fn dotted_decimal_is_read_strictly() {
    assert_eq!(parse_ip("198.51.100.10"), Some(IpAddr::V4(0xc633_640a)));
    assert_eq!(parse_ip("0.0.0.0"), Some(IpAddr::V4(0)));
    assert_eq!(parse_ip("255.255.255.255"), Some(IpAddr::V4(u32::MAX)));
    for bad in [
        "", "1.2.3", "1.2.3.4.5", "256.0.0.1", "01.2.3.4", "1..2.3", "1.2.3.4 ", " 1.2.3.4",
        "1.2.3.x", "+1.2.3.4", "1000.1.1.1", "1.2.3.4:80",
    ] {
        assert_eq!(parse_ip(bad), None, "{:?}", bad);
    }
}

#[test]
fn colon_groups_are_read_strictly() {
    assert_eq!(parse_ip("::"), Some(IpAddr::V6(0)));
    assert_eq!(parse_ip("::1"), Some(IpAddr::V6(1)));
    assert_eq!(parse_ip("2001:DB8::1"), groups([0x2001, 0xdb8, 0, 0, 0, 0, 0, 1]));
    assert_eq!(parse_ip("1:2:3:4:5:6:7:8"), groups([1, 2, 3, 4, 5, 6, 7, 8]));
    assert_eq!(parse_ip("1:2:3:4:5:6:7::"), groups([1, 2, 3, 4, 5, 6, 7, 0]));
    assert_eq!(
        parse_ip("1:2:3:4:5:6:1.2.3.4"),
        groups([1, 2, 3, 4, 5, 6, 0x0102, 0x0304])
    );
    assert_eq!(
        parse_ip("::ffff:10.0.0.1"),
        groups([0, 0, 0, 0, 0, 0xffff, 0x0a00, 1])
    );
    for bad in [
        ":", ":::", "1", "1:2:3:4:5:6:7", "1:2:3:4:5:6:7:8:9", "1:2:3:4::5:6:7:8", "1::2::3",
        "12345::", "g::", "1.2.3.4::", "::1.2.3", "::1.2.3.4:5", "1:", ":1", "fe80::1%eth0",
        "[::1]",
    ] {
        assert_eq!(parse_ip(bad), None, "{:?}", bad);
    }
}

#[test]
fn addresses_are_written_in_the_usual_form() {
    assert_eq!(format_ip(IpAddr::from_octets(198, 51, 100, 10)), "198.51.100.10");
    assert_eq!(format_ip(IpAddr::V6(0)), "::");
    assert_eq!(format_ip(IpAddr::V6(1)), "::1");
    assert_eq!(
        format_ip(IpAddr::from_groups([0x2001, 0xdb8, 0, 0, 1, 0, 0, 1])),
        "2001:db8::1:0:0:1"
    );
    assert_eq!(
        format_ip(IpAddr::from_groups([1, 0, 2, 3, 4, 5, 6, 7])),
        "1:0:2:3:4:5:6:7"
    );
    assert_eq!(
        format_ip(IpAddr::from_groups([1, 2, 3, 4, 5, 6, 0, 0])),
        "1:2:3:4:5:6::"
    );
    assert_eq!(
        format_ip(IpAddr::from_groups([0, 0, 0, 0, 0, 0xffff, 0x0a00, 1])),
        "::ffff:10.0.0.1"
    );
}

#[test]
fn written_addresses_are_read_back() {
    let mut seed: u128 = 0x1234_5678_9abc_def0_1357_9bdf_0246_8ace;
    for step in 0..2000u32 {
        seed = seed.wrapping_mul(0x2360_ed05_1fc6_5da4_4385_df64_9fcc_f645) ^ (step as u128);
        let mask = match step % 4 {
            0 => u128::MAX,
            1 => 0xffff_0000_0000_ffff_0000_0000_0000_ffff,
            2 => 0x0000_0000_0000_0000_0000_ffff_ffff_ffff,
            _ => 0x000f_000f_0000_0000_00ff_0000_0000_0000,
        };
        let v6 = IpAddr::V6(seed & mask);
        assert_eq!(parse_ip(&format_ip(v6)), Some(v6));
        let v4 = IpAddr::V4(seed as u32);
        assert_eq!(parse_ip(&format_ip(v4)), Some(v4));
    }
}

#[test]
fn addresses_are_ordered_by_family_and_value() {
    assert!(IpAddr::V4(u32::MAX).is_before(&IpAddr::V6(0)));
    assert!(!IpAddr::V6(0).is_before(&IpAddr::V4(u32::MAX)));
    assert!(IpAddr::V4(1).is_before(&IpAddr::V4(2)));
    assert!(!IpAddr::V6(2).is_before(&IpAddr::V6(2)));
}

#[test]
fn decimal_numbers_are_read_like_the_standard_library_does() {
    for text in ["", "+", "-1", "0", "007", "+12", "1 ", "18446744073709551615", "18446744073709551616"] {
        assert_eq!(parse_decimal(text), text.parse::<usize>().ok(), "{:?}", text);
    }
}

#[test]
fn user_maps_keep_names_in_byte_order() {
    let mut map = UserMap::new();
    for name in ["b", "é", "a", "ab", "Z", "b"] {
        map.insert(name.to_string(), name.len());
    }
    let names: Vec<String> = (0..map.len()).map(|i| map.name_at(i).clone()).collect();
    let mut sorted: Vec<String> = ["b", "é", "a", "ab", "Z"].iter().map(|s| s.to_string()).collect();
    sorted.sort();
    assert_eq!(names, sorted);
    map.remove(&"ab".to_string());
    assert_eq!(map.get(&"ab".to_string()), None);
    assert_eq!(map.duplicate().len(), 4);
}

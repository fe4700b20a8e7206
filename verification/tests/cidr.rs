use zmap_rs::blacklist::{init, Blacklist, ListKind, ParseError};
use zmap_rs::cidr::{parse_line, Line};
use zmap_rs::constraint::{Constraint, TreeNode, ADDR_ALLOWED, ADDR_DISALLOWED};

fn lines(text: &[&str]) -> Vec<Vec<u8>> {
    text.iter().map(|l| l.as_bytes().to_vec()).collect()
}

#[test]
fn line_with_prefix_length() {
    assert_eq!(parse_line(b"10.0.0.0/8"), Line::Subnet { prefix: 0x0A00_0000, len: 8 });
    assert_eq!(parse_line(b"0.0.0.0/0"), Line::Subnet { prefix: 0, len: 0 });
    assert_eq!(
        parse_line(b"255.255.255.255/32"),
        Line::Subnet { prefix: 0xFFFF_FFFF, len: 32 }
    );
}

#[test]
fn line_without_prefix_length_is_a_single_address() {
    assert_eq!(parse_line(b"192.168.1.1"), Line::Subnet { prefix: 0xC0A8_0101, len: 32 });
}

#[test]
fn comments_and_blank_lines() {
    assert_eq!(parse_line(b""), Line::Blank);
    assert_eq!(parse_line(b"   \t "), Line::Blank);
    assert_eq!(parse_line(b"# 10.0.0.0/8"), Line::Blank);
    assert_eq!(parse_line(b"  # note"), Line::Blank);
    assert_eq!(
        parse_line(b"  10.1.2.3/24  # office\r"),
        Line::Subnet { prefix: 0x0A01_0203, len: 24 }
    );
}

#[test]
fn malformed_lines() {
    for text in [
        "10.0.0/8",
        "10.0.0.0.0",
        "256.0.0.0",
        "10.0.0.0/33",
        "10.0.0.0/",
        "10.0.0.0/8x",
        "10.0.0.0 /8",
        "01.0.0.0",
        "a.b.c.d",
        "10.0.0.0/-1",
        "1000.0.0.0",
        "/8",
        "10..0.0",
    ] {
        assert_eq!(parse_line(text.as_bytes()), Line::Malformed, "{}", text);
    }
}

#[test]
fn init_paints_in_order_and_reports_the_first_bad_line() {
    let mut c = Constraint::new(TreeNode::new(ADDR_ALLOWED));
    let r = init(&lines(&["# private", "10.0.0.0/8", "", "192.168.0.0/16"]), ADDR_DISALLOWED, &mut c);
    assert_eq!(r, Ok(()));
    assert_eq!(c.lookup(0x0A01_0203), ADDR_DISALLOWED);
    assert_eq!(c.lookup(0xC0A8_0001), ADDR_DISALLOWED);
    assert_eq!(c.lookup(0x0B00_0000), ADDR_ALLOWED);

    let mut c = Constraint::new(TreeNode::new(ADDR_ALLOWED));
    let r = init(&lines(&["10.0.0.0/8", "nonsense", "also bad"]), ADDR_DISALLOWED, &mut c);
    assert_eq!(r, Err(2));
}

#[test]
fn blacklist_overlay() {
    let b = Blacklist::new(Some(lines(&["0.0.0.0/0"])), Some(lines(&["10.0.0.0/8"]))).unwrap();
    assert_eq!(b.count_allowed(), (1u64 << 32) - (1u64 << 24));
    assert_eq!(b.count_not_allowed(), 1u64 << 24);
    assert!(!b.is_allowed(0x0A00_0001));
    assert!(b.is_allowed(0x0B00_0001));
}

#[test]
fn whitelist_only() {
    let b = Blacklist::new(Some(lines(&["10.0.0.0/30"])), None).unwrap();
    assert_eq!(b.count_allowed(), 4);
    for a in 0x0A00_0000u32..0x0A00_0004 {
        assert!(b.is_allowed(a));
    }
    assert!(!b.is_allowed(0x0A00_0004));
    assert!(!b.is_allowed(0));
}

#[test]
fn no_lists_allow_everything() {
    let b = Blacklist::new(None, None).unwrap();
    assert_eq!(b.count_allowed(), 1u64 << 32);
    assert_eq!(b.count_not_allowed(), 0);
    assert!(b.is_allowed(0));
    assert!(b.is_allowed(u32::MAX));
}

#[test]
fn blacklist_wins_over_whitelist() {
    let b = Blacklist::new(
        Some(lines(&["10.0.0.0/8", "11.0.0.0/8"])),
        Some(lines(&["10.128.0.0/9"])),
    )
    .unwrap();
    assert!(b.is_allowed(0x0A00_0001));
    assert!(!b.is_allowed(0x0A80_0001));
    assert!(b.is_allowed(0x0B80_0001));
    assert_eq!(b.count_allowed() + b.count_not_allowed(), 1u64 << 32);
    assert_eq!(b.count_allowed(), (1u64 << 24) + (1u64 << 23));
}

#[test]
fn malformed_list_is_an_error_with_list_and_line() {
    let r = Blacklist::new(Some(lines(&["10.0.0.0/8", "x"])), Some(lines(&["y"])));
    assert!(matches!(r, Err(ParseError { list: ListKind::Whitelist, line: 2 })));
    let r = Blacklist::new(Some(lines(&["10.0.0.0/8"])), Some(lines(&["", "", "10.0.0.0/40"])));
    assert!(matches!(r, Err(ParseError { list: ListKind::Blacklist, line: 3 })));
}

#[test]
fn prefixes_can_be_changed_after_the_table_is_filled() {
    let mut b = Blacklist::new(None, Some(lines(&["10.0.0.0/8"]))).unwrap();
    assert!(!b.is_allowed(0x0A01_0101));
    b.whitelist_prefix(0x0A01_0000, 16);
    assert!(b.is_allowed(0x0A01_0101));
    assert!(!b.is_allowed(0x0A02_0101));
    b.blacklist_prefix(0x0A01_0100, 24);
    assert!(!b.is_allowed(0x0A01_0101));
    assert!(b.is_allowed(0x0A01_0201));
    assert_eq!(b.count_not_allowed(), (1u64 << 24) - (1 << 16) + (1 << 8));
}

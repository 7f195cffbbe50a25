use nxd::dump::{dump_impl, Printer};
use nxd::parse::for_parsed_data;

fn dump(i: impl AsRef<[u8]>, columns: usize, groupsize: usize, offset: u64) -> Result<String, String> {
    if columns == 0 {
        return Err("number would be zero for non-zero type".to_string());
    }
    let o = dump_impl(i.as_ref(), columns, groupsize, offset);
    String::from_utf8(o).map_err(|e| e.to_string())
}

fn hex(s: &str) -> Vec<u8> {
    let mut result = Vec::new();
    for_parsed_data(s, &mut result).unwrap();
    result
}

#[test]
fn test_dump() {
    assert!(dump("abcd", 0, 4, 0).is_err());
    assert_eq!(
        dump("abcd", 4, 0, 0).unwrap(),
        "00000000: 61626364 | abcd\n"
    );
    assert_eq!(
        dump("abcd", 1, 0, 0).unwrap(),
        "00000000: 61 | a\n00000001: 62 | b\n00000002: 63 | c\n00000003: 64 | d\n"
    );
    assert_eq!(
        dump("abcd", 2, 0, 0).unwrap(),
        "00000000: 6162 | ab\n00000002: 6364 | cd\n"
    );
    assert_eq!(
        dump("abc", 2, 0, 0).unwrap(),
        "00000000: 6162 | ab\n00000002: 63   | c\n"
    );
    assert_eq!(dump("\n", 2, 0, 0).unwrap(), "00000000: 0a | .\n");
    assert_eq!(dump(hex("aaaa"), 2, 0, 0).unwrap(), "00000000: aaaa | ..\n");
    assert_eq!(dump(hex("aaaa"), 2, 0, 1).unwrap(), "00000001: aaaa | ..\n");
    assert_eq!(
        dump("abc", 2, 0, 3).unwrap(),
        "00000003: 6162 | ab\n00000005: 63   | c\n"
    );
}

#[test]
fn dump_groups_and_wide_offsets() {
    assert_eq!(
        dump("abcdefg", 8, 2, 0).unwrap(),
        "00000000: 6162 6364 6566 67 | abcdefg\n"
    );
    assert_eq!(
        dump("ab", 2, 1, 0x1_0000_0000).unwrap(),
        "100000000: 61 62 | ab\n"
    );
    assert_eq!(dump("", 4, 0, 0).unwrap(), "");
    assert_eq!(dump("~\x7f \x1f", 4, 0, 0).unwrap(), "00000000: 7e7f201f | ~. .\n");
}

#[test]
fn dump_separator_never_moves_left() {
    // Crossing from eight to nine offset digits widens the head; the separator
    // moves right and stays there.
    let s = dump(vec![0u8; 3], 1, 0, 0xffff_fffe).unwrap();
    assert_eq!(
        s,
        "fffffffe: 00 | .\nffffffff: 00 | .\n100000000: 00 | .\n"
    );
    let mut p = Printer::new(0, 0);
    let l1 = p.write_line(&[1, 2, 3]);
    let l2 = p.write_line(&[4]);
    assert_eq!(String::from_utf8(l1).unwrap(), "00000000: 010203 | ...\n");
    assert_eq!(String::from_utf8(l2).unwrap(), "00000003: 04     | .\n");
    assert_eq!(p.output_width, 16);
    assert_eq!(p.current_offset, 4);
}

use nxd::load::load_impl;
use nxd::parse::{for_parsed_data, AbsoluteError, DataError, OffsetError};
use nxd::patch::{patch_impl, PatchError, PatchState};

fn patch(i: &str, o: impl Into<Vec<u8>>) -> Result<Vec<u8>, PatchError> {
    patch_offset(i, o, 0)
}

fn patch_offset(i: &str, o: impl Into<Vec<u8>>, offset: i64) -> Result<Vec<u8>, PatchError> {
    let mut o = o.into();
    patch_impl(i, &mut o, offset)?;
    Ok(o)
}

fn hex(s: &str) -> Vec<u8> {
    let mut result = Vec::new();
    for_parsed_data(s, &mut result).unwrap();
    result
}

#[test]
fn test_patch() {
    assert!(patch("aa", []).is_err());
    assert_eq!(
        patch("0: aabbcc", hex("ddccbbaa")).unwrap(),
        hex("aabbccaa")
    );
    assert_eq!(patch("0: aabbcc", hex("dd")).unwrap(), hex("aabbcc"));
    assert_eq!(patch("1: aabbcc", hex("ddeeff")).unwrap(), hex("ddaabbcc"));
    assert_eq!(
        patch("0: aabb\ncc", hex("ddccbbaa")).unwrap(),
        hex("aabbccaa")
    );
    assert_eq!(
        patch("0: aa\nbb\ncc", hex("ddccbbaa")).unwrap(),
        hex("aabbccaa")
    );
    assert_eq!(
        patch("0: aabb\n2:cc", hex("ddccbbaa")).unwrap(),
        hex("aabbccaa")
    );
    assert_eq!(
        patch("0: aabb\n1:cc", hex("ddccbbaa")).unwrap(),
        hex("aaccbbaa")
    );
    assert_eq!(patch("", hex("ddccbbaa")).unwrap(), hex("ddccbbaa"));
    assert_eq!(patch("0:", hex("ddccbbaa")).unwrap(), hex("ddccbbaa"));
    assert_eq!(patch("2500:", hex("ddccbbaa")).unwrap(), hex("ddccbbaa"));
    assert_eq!(patch("0:\naabb", hex("ddccbbaa")).unwrap(), hex("aabbbbaa"));
    assert_eq!(
        patch("5:aabb", hex("ddccbbaa")).unwrap(),
        hex("ddccbbaa00aabb")
    );
    assert_eq!(
        patch("01:01\n+02:03", hex("ddccbbaa")).unwrap(),
        hex("dd01bb03")
    );
    assert_eq!(
        patch("01:01\n-01:00", hex("ddccbbaa")).unwrap(),
        hex("0001bbaa")
    );
    assert!(patch("+01:01", hex("ddccbbaa")).is_err());
    assert!(patch("00:\n-01:01", hex("ddccbbaa")).is_err());
}

#[test]
fn test_patch_offset() {
    assert_eq!(
        patch_offset("0:aa", hex("ddccbbaa"), 1).unwrap(),
        hex("ddaabbaa")
    );
    assert_eq!(
        patch_offset("0:aa", hex("ddccbbaa"), 4).unwrap(),
        hex("ddccbbaaaa")
    );
    assert_eq!(
        patch_offset("1:01\n+1:02", hex("ddccbbaa"), 1).unwrap(),
        hex("ddcc0102")
    );
    assert_eq!(
        patch_offset("1:01\n+1:02", hex("ddccbbaa"), -1).unwrap(),
        hex("0102bbaa")
    );
    assert!(patch_offset("1:01\n+1:02", hex("ddccbbaa"), -2).is_err());
}

#[test]
fn patch_errors() {
    assert_eq!(patch("aa", []), Err(PatchError::MissingOffset));
    assert_eq!(patch("\n", []), Err(PatchError::MissingOffset));
    assert_eq!(patch("+01:01", []), Err(PatchError::Position(AbsoluteError::NoBasis(1))));
    assert_eq!(
        patch("00:\n-01:01", []),
        Err(PatchError::Position(AbsoluteError::Overflow(0, -1)))
    );
    assert_eq!(patch("0g:01", []), Err(PatchError::InvalidOffset(OffsetError::InvalidDigit)));
    assert_eq!(patch_offset("1:01", [], -2), Err(PatchError::GlobalOffset(1, -2)));
    assert_eq!(patch("0:0", []), Err(PatchError::Data(DataError::IncompleteOctet)));
    // The octets before a bad one are written.
    let mut t = hex("ddccbbaa");
    assert_eq!(
        patch_impl("0: 0102 zz", &mut t, 0),
        Err(PatchError::Data(DataError::InvalidOctet(5, 7)))
    );
    assert_eq!(t, hex("0102bbaa"));
}

#[test]
fn patch_lines_end_with_crlf() {
    assert_eq!(patch("0: 01\r\n+1: 02\r\n", hex("ddccbbaa")).unwrap(), hex("0102bbaa"));
}

#[test]
fn patch_state_steps() {
    let mut s = PatchState::new(2);
    let e = s.apply_line("10: aabb | comment");
    assert_eq!(e.seek, Some(0x12));
    assert_eq!(e.bytes, vec![0xaa, 0xbb]);
    assert_eq!(e.outcome, Ok(()));
    assert_eq!(s.last_offset, Some(0x10));
    let e = s.apply_line("cc");
    assert_eq!(e.seek, None);
    assert_eq!(e.bytes, vec![0xcc]);
    let e = s.apply_line("-10: dd");
    assert_eq!(e.seek, Some(2));
    assert_eq!(s.last_offset, Some(0));
}

#[test]
fn load_whole_dump() {
    let mut out = Vec::new();
    assert_eq!(
        load_impl("00000000: 6162 | ab\n00000002: 63   | c\n", &mut out),
        Ok(())
    );
    assert_eq!(out, b"abc".to_vec());
    let mut out = Vec::new();
    assert_eq!(
        load_impl("0: 01\n0: 0\n0: 02\n", &mut out),
        Err(DataError::IncompleteOctet)
    );
    assert_eq!(out, vec![1]);
}

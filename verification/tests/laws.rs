use nxd::dump::dump_impl;
use nxd::load::load_impl;
use nxd::patch::patch_impl;

fn dump_string(data: &[u8], columns: usize, group: usize, offset: u64) -> String {
    String::from_utf8(dump_impl(data, columns, group, offset)).unwrap()
}

#[test]
fn load_gives_back_what_was_dumped() {
    let data: Vec<u8> = (0..=255u8).chain(b"|:\r\n \t".iter().copied()).collect();
    for columns in [1, 2, 3, 16, 300] {
        for group in [0, 1, 2, 5, 16, 1000] {
            for offset in [0u64, 7, 0xffff_fff0, u64::MAX - 300] {
                let text = dump_string(&data, columns, group, offset);
                let mut out = Vec::new();
                assert_eq!(load_impl(&text, &mut out), Ok(()));
                assert_eq!(out, data, "columns {columns}, group {group}, offset {offset}");
            }
        }
    }
}

#[test]
fn patch_with_a_dump_writes_at_its_offset() {
    let dump = dump_string(&[0xaa, 0xbb, 0xcc], 2, 1, 5);
    let mut target = vec![1, 2, 3];
    assert_eq!(patch_impl(&dump, &mut target, 0), Ok(()));
    assert_eq!(target, vec![1, 2, 3, 0, 0, 0xaa, 0xbb, 0xcc]);
    let mut target = vec![1, 2, 3, 4, 5, 6];
    assert_eq!(patch_impl(&dump, &mut target, -4), Ok(()));
    assert_eq!(target, vec![1, 0xaa, 0xbb, 0xcc, 5, 6]);
}

#[test]
fn separator_column_of_dump_lines_never_decreases() {
    let data = vec![0x41u8; 40];
    let text = dump_string(&data, 3, 2, 0xffff_fff0);
    let mut width = 0;
    for l in text.lines() {
        let (o_d, _) = l.split_once('|').unwrap();
        assert!(width <= o_d.len());
        width = o_d.len();
    }
    assert!(width > "00000000: 4141 41 ".len());
}

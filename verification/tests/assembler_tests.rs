use docfind::assembler::{assemble, parse_module, AssembleError, Section};

fn write_uleb(mut v: u64, out: &mut Vec<u8>) {
    loop {
        let byte = (v % 128) as u8;
        v /= 128;
        if v == 0 {
            out.push(byte);
            break;
        }
        out.push(byte + 128);
    }
}

fn push_section(id: u8, body: &[u8], out: &mut Vec<u8>) {
    out.push(id);
    write_uleb(body.len() as u64, out);
    out.extend_from_slice(body);
}

/// A small module with one 1-page memory, two exported globals holding the
/// sentinel addresses 16 and 20, and one 24-byte data segment at offset 0.
fn sentinel_module() -> Vec<u8> {
    let mut m = vec![0x00, 0x61, 0x73, 0x6D, 1, 0, 0, 0];
    push_section(5, &[1, 0, 1], &mut m);
    push_section(
        6,
        &[2, 0x7F, 0, 0x41, 16, 0x0B, 0x7F, 0, 0x41, 20, 0x0B],
        &mut m,
    );
    let mut ex: Vec<u8> = vec![2];
    ex.push(10);
    ex.extend_from_slice("INDEX_BASE".as_bytes());
    ex.push(3);
    ex.push(0);
    ex.push(9);
    ex.extend_from_slice("INDEX_LEN".as_bytes());
    ex.push(3);
    ex.push(1);
    push_section(7, &ex, &mut m);
    push_section(12, &[1], &mut m);
    let mut ds: Vec<u8> = vec![1, 0, 0x41, 0, 0x0B, 24];
    ds.extend_from_slice(&[0u8; 24]);
    push_section(11, &ds, &mut m);
    m
}

#[test]
fn test_assemble_patches_sentinels() {
    // After assembly, the sentinel words hold the index base and length, the
    // memory grows, the data count is bumped, the index rides in an appended
    // segment, and the module validates.
    let module = sentinel_module();
    let raw_index: Vec<u8> = (0..10u8).collect();
    let out = assemble(&module, &raw_index).unwrap();

    let parsed = parse_module(&out).unwrap();
    assert_eq!(parsed.old_pages, 2); // 1 + 10 / 65536 + 1
    assert_eq!(parsed.base_addr, 16);
    assert_eq!(parsed.len_addr, 20);

    let mut saw_count = false;
    let mut saw_data = false;
    for sec in &parsed.sections {
        match sec {
            Section::DataCount(c) => {
                assert_eq!(*c, 2);
                saw_count = true;
            },
            Section::Data(segs) => {
                assert_eq!(segs.len(), 2);
                assert_eq!(segs[0].data[16..20].to_vec(), 65536u32.to_le_bytes().to_vec());
                assert_eq!(segs[0].data[20..24].to_vec(), 10u32.to_le_bytes().to_vec());
                assert_eq!(segs[1].offset_value, Some(65536));
                assert_eq!(segs[1].data, raw_index);
                assert!(!segs[1].passive);
                assert_eq!(segs[1].memory_index, 0);
                saw_data = true;
            },
            _ => {},
        }
    }
    assert!(saw_count && saw_data);
}

#[test]
fn test_assemble_page_boundary() {
    // An index of exactly one page still gets the unconditional page of
    // slack: pages become old + len / 65536 + 1
    let module = sentinel_module();
    let raw_index = vec![7u8; 65536];
    let out = assemble(&module, &raw_index).unwrap();
    let parsed = parse_module(&out).unwrap();
    assert_eq!(parsed.old_pages, 1 + 1 + 1);
}

#[test]
fn test_assemble_missing_sentinel() {
    // A module without the sentinel exports is rejected
    let mut m = vec![0x00, 0x61, 0x73, 0x6D, 1, 0, 0, 0];
    push_section(5, &[1, 0, 1], &mut m);
    let r = assemble(&m, &vec![1, 2, 3]);
    assert_eq!(r.unwrap_err(), AssembleError::MissingSentinel);
}

#[test]
fn test_assemble_rejects_garbage() {
    // Bytes that are not a module are rejected
    let r = assemble(&vec![1, 2, 3], &vec![]);
    assert_eq!(r.unwrap_err(), AssembleError::UnsupportedModule);
}

#[test]
fn test_assemble_split_sentinels() {
    // Sentinel words in different data segments are rejected: the length
    // address (200) lies outside the segment that holds the base address
    let mut m = vec![0x00, 0x61, 0x73, 0x6D, 1, 0, 0, 0];
    push_section(5, &[1, 0, 1], &mut m);
    push_section(
        6,
        &[2, 0x7F, 0, 0x41, 16, 0x0B, 0x7F, 0, 0x41, 0xC8, 0x01, 0x0B],
        &mut m,
    );
    let mut ex: Vec<u8> = vec![2];
    ex.push(10);
    ex.extend_from_slice("INDEX_BASE".as_bytes());
    ex.push(3);
    ex.push(0);
    ex.push(9);
    ex.extend_from_slice("INDEX_LEN".as_bytes());
    ex.push(3);
    ex.push(1);
    push_section(7, &ex, &mut m);
    push_section(12, &[1], &mut m);
    let mut ds: Vec<u8> = vec![1, 0, 0x41, 0, 0x0B, 24];
    ds.extend_from_slice(&[0u8; 24]);
    push_section(11, &ds, &mut m);
    let r = assemble(&m, &vec![1, 2, 3]);
    assert_eq!(r.unwrap_err(), AssembleError::MissingSentinel);
}

#[test]
fn test_assemble_sentinel_outside_segments() {
    // Sentinel addresses that no data segment covers are fatal: base 100 and
    // length 104 lie outside the only segment, which spans [0, 24)
    let mut m = vec![0x00, 0x61, 0x73, 0x6D, 1, 0, 0, 0];
    push_section(5, &[1, 0, 1], &mut m);
    push_section(
        6,
        &[2, 0x7F, 0, 0x41, 0xE4, 0x00, 0x0B, 0x7F, 0, 0x41, 0xE8, 0x00, 0x0B],
        &mut m,
    );
    let mut ex: Vec<u8> = vec![2];
    ex.push(10);
    ex.extend_from_slice("INDEX_BASE".as_bytes());
    ex.push(3);
    ex.push(0);
    ex.push(9);
    ex.extend_from_slice("INDEX_LEN".as_bytes());
    ex.push(3);
    ex.push(1);
    push_section(7, &ex, &mut m);
    push_section(12, &[1], &mut m);
    let mut ds: Vec<u8> = vec![1, 0, 0x41, 0, 0x0B, 24];
    ds.extend_from_slice(&[0u8; 24]);
    push_section(11, &ds, &mut m);
    let r = assemble(&m, &vec![1, 2, 3]);
    assert_eq!(r.unwrap_err(), AssembleError::MissingSentinel);
}

#[test]
fn test_assemble_memory_with_maximum() {
    // A memory declaring a maximum is accepted; the patched module drops the
    // maximum and grows the initial pages
    let mut m = vec![0x00, 0x61, 0x73, 0x6D, 1, 0, 0, 0];
    push_section(5, &[1, 1, 1, 4], &mut m);
    push_section(
        6,
        &[2, 0x7F, 0, 0x41, 16, 0x0B, 0x7F, 0, 0x41, 20, 0x0B],
        &mut m,
    );
    let mut ex: Vec<u8> = vec![2];
    ex.push(10);
    ex.extend_from_slice("INDEX_BASE".as_bytes());
    ex.push(3);
    ex.push(0);
    ex.push(9);
    ex.extend_from_slice("INDEX_LEN".as_bytes());
    ex.push(3);
    ex.push(1);
    push_section(7, &ex, &mut m);
    push_section(12, &[1], &mut m);
    let mut ds: Vec<u8> = vec![1, 0, 0x41, 0, 0x0B, 24];
    ds.extend_from_slice(&[0u8; 24]);
    push_section(11, &ds, &mut m);
    let out = assemble(&m, &vec![5u8; 4]).unwrap();
    let parsed = parse_module(&out).unwrap();
    assert_eq!(parsed.old_pages, 2);
}

use std::io::Write;

use arma::error::KernelError;
use arma::kernel::ELF_MAGIC;
use arma::unpack::{
    extract_vmlinux, has_fitting_frames, has_fitting_payload, try_extract_vmlinux,
    try_unwrap_zboot, unwrap_zboot, BZIMAGE_HDRS_MAGIC, BZIMAGE_HDRS_OFFSET,
};
use arma::zstd::{block_has_fitting_sum, has_fitting_sums, section_has_fitting_sum};

const RAW: u32 = 0;
const RLE: u32 = 1;
const COMPRESSED: u32 = 2;

/// A frame of these blocks, given as `(type, size field, contents)`.
fn frame(blocks: &[(u32, usize, Vec<u8>)]) -> Vec<u8> {
    let mut v = vec![0x28, 0xb5, 0x2f, 0xfd, 0x00, 0x58];
    for (i, (kind, size, contents)) in blocks.iter().enumerate() {
        let last = u32::from(i + 1 == blocks.len());
        let header = ((*size as u32) << 3) | (kind << 1) | last;
        v.extend_from_slice(&header.to_le_bytes()[..3]);
        v.extend_from_slice(contents);
    }
    v
}

fn block(kind: u32, contents: Vec<u8>) -> (u32, usize, Vec<u8>) {
    (kind, contents.len(), contents)
}

/// The header of raw literals of `n` bytes.
fn raw_literals(n: usize) -> Vec<u8> {
    let h = ((n as u32) << 4) | (3 << 2);
    h.to_le_bytes()[..3].to_vec()
}

/// A sequences section with `n` sequences, each without literals, of the most
/// recent offset but one, and of match length code `code`; then `bits`.
fn sequences(n: usize, code: u8, bits: Vec<u8>) -> Vec<u8> {
    let mut v = if n < 128 {
        vec![n as u8]
    } else if n < 0x7f00 {
        vec![128 + (n >> 8) as u8, n as u8]
    } else {
        vec![255, (n - 0x7f00) as u8, ((n - 0x7f00) >> 8) as u8]
    };
    v.extend_from_slice(&[0x54, 0, 0, code]);
    v.extend(bits);
    v
}

/// `n` sequences of the longest matches, behind empty literals.
fn long_matches(n: usize) -> Vec<u8> {
    let mut bits = vec![0xff; 2 * n];
    bits.push(1);
    let mut v = vec![0];
    v.extend(sequences(n, 52, bits));
    v
}

fn zboot(payload: &[u8]) -> Vec<u8> {
    let mut v = vec![0u8; 56];
    v[0..2].copy_from_slice(b"MZ");
    v[4..8].copy_from_slice(b"zimg");
    v[8..12].copy_from_slice(&56u32.to_le_bytes());
    v[12..16].copy_from_slice(&(payload.len() as u32).to_le_bytes());
    v[24..28].copy_from_slice(b"zstd");
    v.extend_from_slice(payload);
    v
}

#[test]
fn sequences_are_decoded() {
    // Four raw bytes, then one match of three bytes at offset four.
    let mut matches = vec![0];
    matches.extend(sequences(1, 0, vec![1]));
    let f = frame(&[block(RAW, b"abcd".to_vec()), block(COMPRESSED, matches)]);
    assert!(has_fitting_sums(&f));
    assert_eq!(unwrap_zboot(zboot(&f)).unwrap(), b"abcdabc");
    let f = frame(&[(RLE, 5, b"x".to_vec()), block(RAW, b"yz".to_vec())]);
    assert_eq!(unwrap_zboot(zboot(&f)).unwrap(), b"xxxxxyz");
}

#[test]
fn long_matches_are_decoded() {
    let f = frame(&[block(RAW, b"abcd".to_vec()), block(COMPRESSED, long_matches(3))]);
    assert_eq!(unwrap_zboot(zboot(&f)).unwrap().len(), 4 + 3 * 131_074);
}

#[test]
fn large_blocks_of_literals_are_decoded() {
    let data: Vec<u8> = (0..100_000u32).map(|i| (i / 7) as u8).collect();
    let mut contents = raw_literals(data.len());
    contents.extend_from_slice(&data);
    contents.push(0);
    let f = frame(&[block(COMPRESSED, contents)]);
    assert!(has_fitting_sums(&f));
    assert_eq!(unwrap_zboot(zboot(&f)).unwrap(), data);
}

#[test]
fn many_short_matches_are_decoded() {
    // 41000 matches of three bytes, with thirteen bits of offset each: a section of
    // more than 65536 bytes in a block that regenerates 123000.
    let n: usize = 41_000;
    let mut bits = vec![0xff; n * 13 / 8];
    bits.push(1);
    let mut contents = vec![0, 255, (n - 0x7f00) as u8, ((n - 0x7f00) >> 8) as u8];
    contents.extend_from_slice(&[0x54, 0, 13, 0]);
    contents.extend(bits);
    assert!(contents.len() > 0x1_0000);
    let data: Vec<u8> = (0..20_000u32).map(|i| (i / 5) as u8).collect();
    let f = frame(&[block(RAW, data.clone()), block(COMPRESSED, contents)]);
    assert!(has_fitting_sums(&f));
    let mut want = data;
    for _ in 0..3 * n {
        want.push(want[want.len() - (0x3fff - 3)]);
    }
    assert_eq!(unwrap_zboot(zboot(&f)).unwrap(), want);
    assert_eq!(try_unwrap_zboot(zboot(&f)).unwrap().unwrap(), want);
}

fn bzimage(rest: &[u8]) -> Vec<u8> {
    let mut bz = vec![0u8; 0x400];
    bz[BZIMAGE_HDRS_OFFSET..BZIMAGE_HDRS_OFFSET + 4]
        .copy_from_slice(&BZIMAGE_HDRS_MAGIC.to_le_bytes());
    bz.extend_from_slice(rest);
    bz
}

#[test]
fn sums_beyond_32_bits_are_left_out() {
    let f = frame(&[block(RAW, b"abcd".to_vec()), block(COMPRESSED, long_matches(32_768))]);
    assert!(!has_fitting_sums(&f));
    assert!(!has_fitting_payload(&zboot(&f)));
    assert!(try_unwrap_zboot(zboot(&f)).is_none());
    assert!(!has_fitting_frames(&bzimage(&f)));
    assert!(try_extract_vmlinux(bzimage(&f)).is_none());
    // It matters only where it would be decoded.
    let mut named = zboot(&f);
    named[24..28].copy_from_slice(b"lzma");
    assert!(matches!(
        try_unwrap_zboot(named),
        Some(Err(KernelError::ZbootCompression(name))) if name == "lzma"
    ));
    let mut cut = zboot(&f);
    cut.pop();
    assert!(matches!(
        try_unwrap_zboot(cut),
        Some(Err(KernelError::ZbootMalformed { .. }))
    ));
    assert_eq!(try_unwrap_zboot(f.clone()).unwrap().unwrap(), f);
    assert_eq!(try_extract_vmlinux(f.clone()).unwrap().unwrap(), f);
    let elf = frame(&[block(RAW, ELF_MAGIC.to_vec())]);
    let before = [elf.clone(), f.clone()].concat();
    assert_eq!(try_extract_vmlinux(bzimage(&before)).unwrap().unwrap(), ELF_MAGIC);
    assert_eq!(extract_vmlinux(bzimage(&before)).unwrap(), ELF_MAGIC);
    assert!(try_extract_vmlinux(bzimage(&[f.clone(), elf].concat())).is_none());
    let text = frame(&[block(RAW, b"text".to_vec())]);
    assert!(try_extract_vmlinux(bzimage(&[text.clone(), f.clone()].concat())).is_none());
    assert!(matches!(
        try_extract_vmlinux(bzimage(&text)),
        Some(Err(KernelError::BzImageNoVmlinux))
    ));
    let mut gz = flate2::write::GzEncoder::new(Vec::new(), flate2::Compression::default());
    gz.write_all(&ELF_MAGIC).unwrap();
    let behind = [f, gz.finish().unwrap()].concat();
    assert_eq!(try_extract_vmlinux(bzimage(&behind)).unwrap().unwrap(), ELF_MAGIC);
    assert_eq!(extract_vmlinux(bzimage(&behind)).unwrap(), ELF_MAGIC);
}

#[test]
fn either_bound_is_enough() {
    // Many sequences in a small section, and few in a large one.
    let section = |n: usize, code: u8, len: usize| {
        let mut s = sequences(n, code, vec![]);
        s.resize(len, 0);
        s
    };
    let filled = |literals: Vec<u8>, n: usize, len: usize| {
        let mut v = literals;
        v.extend(section(n, 52, len));
        v
    };
    assert!(section_has_fitting_sum(&section(98_047, 52, 65_469)));
    assert!(!section_has_fitting_sum(&section(98_047, 52, 65_470)));
    assert!(section_has_fitting_sum(&section(32_759, 52, 100_000)));
    assert!(!section_has_fitting_sum(&section(32_760, 52, 100_000)));
    assert!(section_has_fitting_sum(&section(127, 52, 100_000)));
    assert!(section_has_fitting_sum(&[]));
    assert!(block_has_fitting_sum(&[]));
    // A short code for all matches, unless a table stands before it.
    assert!(section_has_fitting_sum(&section(98_047, 50, 100_000)));
    assert!(!section_has_fitting_sum(&section(98_047, 51, 100_000)));
    for (modes, codes, fits) in [
        (0x04, vec![50, 52, 52], true),
        (0x44, vec![52, 50, 52], true),
        (0x14, vec![52, 50, 52], true),
        (0xf4, vec![50, 52, 52], true),
        (0x84, vec![0, 0, 0], false),
        (0x24, vec![0, 0, 0], false),
        (0x08, vec![0, 0, 0], false),
        (0x0c, vec![0, 0, 0], false),
        (0x00, vec![0, 0, 0], false),
    ] {
        let mut s = vec![255, 255, 255, modes];
        s.extend_from_slice(&codes);
        s.resize(100_000, 0);
        assert_eq!(section_has_fitting_sum(&s), fits, "{modes:#x}");
    }
    // The section is found behind each form of literals.
    let mut with = |mut head: Vec<u8>, payload: usize| {
        head.resize(head.len() + payload, 0);
        assert!(!block_has_fitting_sum(&filled(head.clone(), 40_000, 70_000)));
        assert!(block_has_fitting_sum(&filled(head, 30_000, 70_000)));
    };
    with(vec![31 << 3], 31); // raw, five bits
    with(vec![0x04 | 0x20, 0x01], 18); // raw, twelve bits
    with(raw_literals(5000), 5000); // raw, twenty bits
    with(vec![0x01 | 31 << 3], 1); // one byte repeated
    with(vec![0x05, 0xff], 1);
    with(vec![0x0d, 0xff, 0xff], 1);
    with(vec![0x02, 0xc0, 0x01], 7); // compressed, ten bits
    with(vec![0x06, 0x40, 0x01], 5);
    with(vec![0x0a, 0, 0x08, 0x01], 66); // fourteen bits
    with(vec![0x0f, 0, 0x40, 0x01, 0x01], 1029); // treeless, eighteen bits
    // Literals that end outside the block.
    assert!(block_has_fitting_sum(&filled(raw_literals(0xfffff), 40_000, 70_000)));
}

#[test]
fn only_blocks_that_are_decoded_count() {
    let bad = block(COMPRESSED, long_matches(32_768));
    let whole = frame(&[bad.clone()]);
    assert!(!has_fitting_sums(&whole));
    // Cut short, another magic, behind the last block, behind a reserved block.
    assert!(has_fitting_sums(&whole[..whole.len() - 1]));
    let mut other = whole.clone();
    other[0] = 0;
    assert!(has_fitting_sums(&other));
    let mut behind = frame(&[block(RAW, vec![7])]);
    behind.extend_from_slice(&whole[6..]);
    assert!(has_fitting_sums(&behind));
    assert!(has_fitting_sums(&frame(&[(3, 0, vec![]), bad.clone()])));
    assert!(!has_fitting_sums(&frame(&[(RLE, 0x2_0000, vec![7]), bad.clone()])));
    assert!(has_fitting_sums(&frame(&[(RLE, 0x2_0001, vec![7]), bad])));
    assert!(has_fitting_sums(b"(\xb5/\xfd"));
    assert!(has_fitting_sums(b""));
    // Every form of frame header.
    for (descriptor, fields) in [
        (0x00, 1),
        (0x20, 1),
        (0x40, 3),
        (0x60, 2),
        (0x80, 5),
        (0xa0, 4),
        (0xc0, 9),
        (0xe0, 8),
        (0x01, 2),
        (0x22, 3),
        (0xe3, 12),
    ] {
        let mut v = vec![0x28, 0xb5, 0x2f, 0xfd, descriptor];
        v.resize(5 + fields, 0);
        v.extend_from_slice(&whole[6..]);
        assert!(!has_fitting_sums(&v), "{descriptor:#x}");
    }
}

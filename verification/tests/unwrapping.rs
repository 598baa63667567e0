use std::io::Write;

use arma::error::KernelError;
use arma::kernel::ELF_MAGIC;
use arma::unpack::{
    compression_end, extract_vmlinux, has_bzimage_header, has_zboot_header, is_gzip, is_zstd,
    scan_decompress, unwrap_zboot, zboot_image, BZIMAGE_HDRS_MAGIC, BZIMAGE_HDRS_OFFSET,
};
use flate2::{write::GzEncoder, Compression};

fn gz(data: &[u8]) -> Vec<u8> {
    let mut e = GzEncoder::new(Vec::new(), Compression::fast());
    e.write_all(data).unwrap();
    e.finish().unwrap()
}

/// A zstd frame that stores `data` as it is, in one raw block.
fn zstd_raw(data: &[u8]) -> Vec<u8> {
    let mut v = vec![0x28, 0xb5, 0x2f, 0xfd];
    v.push(0xa0); // single segment, content size in four bytes
    v.extend_from_slice(&(data.len() as u32).to_le_bytes());
    let header = ((data.len() as u32) << 3) | 1; // last block, raw
    v.extend_from_slice(&header.to_le_bytes()[..3]);
    v.extend_from_slice(data);
    v
}

fn zboot(offset: u32, size: u32, comp: &[u8], payload: &[u8]) -> Vec<u8> {
    let mut v = vec![0u8; 56];
    v[0..2].copy_from_slice(b"MZ");
    v[4..8].copy_from_slice(b"zimg");
    v[8..12].copy_from_slice(&offset.to_le_bytes());
    v[12..16].copy_from_slice(&size.to_le_bytes());
    v[24..24 + comp.len()].copy_from_slice(comp);
    v.extend_from_slice(payload);
    v
}

#[test]
fn payload_out_of_bounds_is_malformed() {
    match unwrap_zboot(zboot(56, 5, b"gzip", b"abcd")) {
        Err(KernelError::ZbootMalformed { offset, size, file }) => {
            assert_eq!((offset, size, file), (56, 5, 60));
        }
        other => panic!("{other:?}"),
    }
    assert!(matches!(
        unwrap_zboot(zboot(u32::MAX, u32::MAX, b"gzip", b"")),
        Err(KernelError::ZbootMalformed { .. })
    ));
}

#[test]
fn unknown_compression_is_named() {
    let named = |comp: &[u8]| match unwrap_zboot(zboot(56, 0, comp, b"")) {
        Err(KernelError::ZbootCompression(name)) => name,
        other => panic!("{other:?}"),
    };
    assert_eq!(named(b"lzma"), "lzma");
    assert_eq!(named(b""), "");
    assert_eq!(named(b"gzip2"), "gzip2");
    assert_eq!(named(&[b'x'; 32]), "x".repeat(32));
    assert_eq!(named(&[b'a', 0xff, b'b']), "a\u{fffd}b");
}

#[test]
fn undecodable_payloads_are_reported() {
    for comp in [&b"gzip"[..], &b"zstd"[..]] {
        match unwrap_zboot(zboot(56, 4, comp, b"junk")) {
            Err(KernelError::ZbootDecompress(text)) => assert!(!text.is_empty()),
            other => panic!("{other:?}"),
        }
    }
    assert!(matches!(
        zboot_image(Err("why".to_string())),
        Err(KernelError::ZbootDecompress(text)) if text == "why"
    ));
    assert_eq!(zboot_image(Ok(vec![1, 2])).unwrap(), vec![1, 2]);
}

#[test]
fn payloads_are_found_at_their_offset() {
    // Behind four bytes of padding, and with bytes behind the payload.
    let body = gz(b"a raw image");
    let mut data = vec![9u8; 4];
    data.extend_from_slice(&body);
    data.extend_from_slice(b"trailer");
    let z = zboot(60, body.len() as u32, b"gzip", &data);
    assert_eq!(unwrap_zboot(z).unwrap(), b"a raw image");
    let body = zstd_raw(b"another image");
    let z = zboot(56, body.len() as u32, b"zstd", &body);
    assert_eq!(unwrap_zboot(z).unwrap(), b"another image");
}

#[test]
fn zboot_headers_are_recognised() {
    let z = zboot(56, 0, b"gzip", b"");
    assert!(has_zboot_header(&z));
    assert!(!has_zboot_header(&z[..55]));
    assert_eq!(compression_end(&z), 28);
    let mut no_tag = z.clone();
    no_tag[7] = b'G';
    assert!(!has_zboot_header(&no_tag));
    assert_eq!(unwrap_zboot(no_tag.clone()).unwrap(), no_tag);
    assert!(is_gzip(b"gzip") && !is_gzip(b"gzi") && !is_gzip(b"zstd"));
    assert!(is_zstd(b"zstd") && !is_zstd(b"gzip"));
}

fn bzimage(rest: &[u8]) -> Vec<u8> {
    let mut v = vec![0u8; 0x400];
    v[BZIMAGE_HDRS_OFFSET..BZIMAGE_HDRS_OFFSET + 4]
        .copy_from_slice(&BZIMAGE_HDRS_MAGIC.to_le_bytes());
    v.extend_from_slice(rest);
    v
}

fn elf(tail: &[u8]) -> Vec<u8> {
    let mut v = ELF_MAGIC.to_vec();
    v.extend_from_slice(tail);
    v
}

#[test]
fn bzimage_headers_are_recognised() {
    let v = bzimage(b"");
    assert!(has_bzimage_header(&v));
    assert!(has_bzimage_header(&v[..0x206]));
    assert!(!has_bzimage_header(&v[..0x205]));
}

#[test]
fn bzimage_without_vmlinux_is_refused() {
    assert!(matches!(
        extract_vmlinux(bzimage(b"\x1f\x8b\x08 nothing \x28\xb5\x2f\xfd here")),
        Err(KernelError::BzImageNoVmlinux)
    ));
    // A member that decompresses to something else is no vmlinux either.
    assert!(matches!(
        extract_vmlinux(bzimage(&gz(b"not an ELF"))),
        Err(KernelError::BzImageNoVmlinux)
    ));
}

#[test]
fn gzip_goes_before_zstd_and_first_before_later() {
    let mut rest = zstd_raw(&elf(b"zstd"));
    rest.extend(gz(b"not an ELF"));
    rest.extend(gz(&elf(b"first")));
    rest.extend(gz(&elf(b"second")));
    assert_eq!(extract_vmlinux(bzimage(&rest)).unwrap(), elf(b"first"));
    let mut rest = gz(b"not an ELF");
    rest.extend(zstd_raw(&elf(b"zstd")));
    assert_eq!(extract_vmlinux(bzimage(&rest)).unwrap(), elf(b"zstd"));
}

#[test]
fn scanning_skips_what_is_no_elf() {
    // The byte behind the magic tells what comes out.
    let decompress = |p: &[u8]| match p.get(1) {
        Some(b'n') => None,
        Some(b't') => Some(b"txt".to_vec()),
        Some(b'e') => Some(elf(&p[2..3])),
        _ => Some(Vec::new()),
    };
    assert_eq!(scan_decompress(b"..#n#t##e7#e8", b"#", decompress), Some(elf(b"7")));
    assert_eq!(scan_decompress(b"#n#t#", b"#", decompress), None);
    assert_eq!(scan_decompress(b"", b"#", decompress), None);
    assert_eq!(scan_decompress(b"aaae", b"aa", |_: &[u8]| Some(elf(b""))), Some(elf(b"")));
}

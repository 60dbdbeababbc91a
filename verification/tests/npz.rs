use std::io::Write;

use audio2face::audio2face::npy::NpyError;
use audio2face::audio2face::npz::{NpzArchive, NpzError};

fn npy(dtype: &str, shape: &str, data: &[u8]) -> Vec<u8> {
    let header = format!("{{'descr': '{dtype}', 'fortran_order': False, 'shape': {shape}, }}\n");
    let mut out = b"\x93NUMPY\x01\x00".to_vec();
    out.extend_from_slice(&(header.len() as u16).to_le_bytes());
    out.extend_from_slice(header.as_bytes());
    out.extend_from_slice(data);
    out
}

fn archive(entries: &[(&str, Vec<u8>)], method: zip::CompressionMethod) -> Vec<u8> {
    let mut w = zip::ZipWriter::new(std::io::Cursor::new(Vec::new()));
    let options = zip::write::SimpleFileOptions::default().compression_method(method);
    for (name, bytes) in entries {
        w.start_file(*name, options).unwrap();
        w.write_all(bytes).unwrap();
    }
    w.finish().unwrap().into_inner()
}

fn sample() -> Vec<(&'static str, Vec<u8>)> {
    vec![
        ("neutral.npy", npy("<f4", "(2,)", &[0, 0, 0x80, 0x3f, 0, 0, 0, 0xc0])),
        ("frontalMask.npy", npy("<i4", "(3,)", &[1, 0, 0, 0, 255, 255, 255, 255, 0, 1, 0, 0])),
        ("notes.txt", b"hello".to_vec()),
    ]
}

#[test]
fn entries_read_back() {
    for method in [zip::CompressionMethod::Stored, zip::CompressionMethod::Deflated] {
        let mut a = NpzArchive::from_reader(archive(&sample(), method), "mem").unwrap();
        let f = a.read_f32("neutral.npy").unwrap();
        assert_eq!(f.data, vec![1.0f32.to_bits(), (-2.0f32).to_bits()]);
        assert_eq!(f.shape, vec![2]);
        let i = a.read_i32("frontalMask.npy").unwrap();
        assert_eq!(i.data, vec![1, -1, 256]);
        assert_eq!(i.shape, vec![3]);
        assert_eq!(a.read_f32("neutral.npy").unwrap().data, f.data);
    }
}

#[test]
fn names_come_in_order() {
    let a = NpzArchive::from_reader(
        archive(&sample(), zip::CompressionMethod::Stored),
        "mem",
    )
    .unwrap();
    assert_eq!(a.entry_names(), vec!["neutral.npy", "frontalMask.npy", "notes.txt"]);
    for name in a.entry_names() {
        assert!(a.has_entry(&name));
    }
    assert!(!a.has_entry("neutral"));
    assert!(!a.has_entry("NEUTRAL.npy"));
    assert!(!a.has_entry(""));
}

#[test]
fn missing_entries_are_named() {
    let mut a = NpzArchive::from_reader(
        archive(&sample(), zip::CompressionMethod::Stored),
        "bundle.npz",
    )
    .unwrap();
    match a.read_f32("jawOpen.npy") {
        Err(NpzError::EntryMissing(name, source)) => {
            assert_eq!((name.as_str(), source.as_str()), ("jawOpen.npy", "bundle.npz"));
        }
        other => panic!("{other:?}"),
    }
    assert!(matches!(a.read_i32("jawOpen.npy"), Err(NpzError::EntryMissing(_, _))));
}

#[test]
fn entries_that_are_no_arrays_are_errors() {
    let mut a = NpzArchive::from_reader(
        archive(&sample(), zip::CompressionMethod::Deflated),
        "mem",
    )
    .unwrap();
    match a.read_f32("notes.txt") {
        Err(NpzError::Npy(NpyError::Io(Some(e), c), n)) => {
            assert_eq!(e.kind(), std::io::ErrorKind::UnexpectedEof);
            assert_eq!((c.as_str(), n.as_str()), ("notes.txt", "notes.txt"));
        }
        other => panic!("{other:?}"),
    }
    match a.read_i32("neutral.npy") {
        Err(NpzError::Npy(NpyError::WrongDtype { expected, actual, context }, n)) => {
            assert_eq!((expected, actual.as_str()), ("<i4", "<f4"));
            assert_eq!((context.as_str(), n.as_str()), ("neutral.npy", "neutral.npy"));
        }
        other => panic!("{other:?}"),
    }
}

#[test]
fn what_is_no_archive_is_an_error() {
    for bytes in [Vec::new(), vec![0; 100], b"PK\x03\x04".to_vec()] {
        match NpzArchive::from_reader(bytes, "junk") {
            Err(NpzError::Zip(_, source)) => assert_eq!(source, "junk"),
            Err(other) => panic!("{other:?}"),
            Ok(_) => panic!("opened"),
        }
    }
}

#[test]
fn entries_that_do_not_open_are_errors() {
    let mut bytes = archive(&sample(), zip::CompressionMethod::Stored);
    // The directory points at the first local header, whose mark is gone.
    assert_eq!(&bytes[..4], b"PK\x03\x04");
    bytes[0] = 0;
    let mut a = NpzArchive::from_reader(bytes, "broken").unwrap();
    assert!(a.has_entry("neutral.npy"));
    match a.read_f32("neutral.npy") {
        Err(NpzError::Zip(_, source)) => assert_eq!(source, "broken"),
        other => panic!("{other:?}"),
    }
    assert!(a.read_i32("frontalMask.npy").is_ok());
}

#[test]
fn entries_that_break_off_give_the_error() {
    // One element is missing, and the contents do not match their checksum.
    let short = npy("<f4", "(3,)", &[0, 0, 0x80, 0x3f, 0, 0, 0, 0xc0]);
    let mut bytes = archive(&[("a.npy", short)], zip::CompressionMethod::Stored);
    let at = bytes.windows(4).position(|w| w == [0, 0, 0x80, 0x3f]).unwrap();
    bytes[at] = 1;
    let mut a = NpzArchive::from_reader(bytes, "mem").unwrap();
    match a.read_f32("a.npy") {
        Err(NpzError::Npy(NpyError::Io(Some(e), c), n)) => {
            assert_eq!(e.kind(), std::io::ErrorKind::InvalidData);
            assert_eq!((c.as_str(), n.as_str()), ("a.npy", "a.npy"));
        }
        other => panic!("{other:?}"),
    }
}

#[test]
fn a_wrong_checksum_behind_the_array_does_not_matter() {
    let full = npy("<f4", "(2,)", &[0, 0, 0x80, 0x3f, 0, 0, 0, 0xc0]);
    let mut bytes = archive(&[("a.npy", full)], zip::CompressionMethod::Stored);
    let at = bytes.windows(4).position(|w| w == [0, 0, 0x80, 0x3f]).unwrap();
    bytes[at] = 1;
    let mut a = NpzArchive::from_reader(bytes, "mem").unwrap();
    let read = a.read_f32("a.npy").unwrap();
    assert_eq!(read.data, vec![0x3f80_0001, (-2.0f32).to_bits()]);
}

#[test]
fn packed_data_that_break_behind_the_array_do_not_matter() {
    let mut long = npy("<f4", "(2,)", &[0, 0, 0x80, 0x3f, 0, 0, 0, 0xc0]);
    let mut s = 1u64;
    for _ in 0..400_000 {
        s = s.wrapping_mul(6364136223846793005).wrapping_add(1442695040888963407);
        long.push(b'0' + ((s >> 40) % 10) as u8);
    }
    let mut bytes = archive(&[("a.npy", long)], zip::CompressionMethod::Deflated);
    let directory = bytes.windows(4).position(|w| w == b"PK\x01\x02").unwrap();
    for b in &mut bytes[directory - 64..directory] {
        *b = 0xff;
    }
    let mut plain = zip::ZipArchive::new(std::io::Cursor::new(bytes.clone())).unwrap();
    let mut out = Vec::new();
    let mut entry = plain.by_name("a.npy").unwrap();
    assert!(std::io::Read::read_to_end(&mut entry, &mut out).is_err());
    let mut a = NpzArchive::from_reader(bytes, "mem").unwrap();
    let read = a.read_f32("a.npy").unwrap();
    assert_eq!(read.data, vec![1.0f32.to_bits(), (-2.0f32).to_bits()]);
    assert!(a.read_i32("a.npy").is_err());
}

#[test]
fn every_cut_of_an_entry_runs_out() {
    for method in [zip::CompressionMethod::Stored, zip::CompressionMethod::Deflated] {
        let mut full = npy("<i4", "(2,)", &[1, 0, 0, 0, 2, 0, 0, 0]);
        full[6] = 2;
        full.splice(10..10, [0u8, 0]);
        for n in 0..full.len() {
            let bytes = archive(&[("a.npy", full[..n].to_vec())], method);
            let mut a = NpzArchive::from_reader(bytes, "mem").unwrap();
            match a.read_i32("a.npy") {
                Err(NpzError::Npy(NpyError::Io(Some(_), c), _)) => assert_eq!(c, "a.npy"),
                other => panic!("{n}: {other:?}"),
            }
        }
        let mut a =
            NpzArchive::from_reader(archive(&[("a.npy", full)], method), "mem").unwrap();
        assert_eq!(a.read_i32("a.npy").unwrap().data, vec![1, 2]);
    }
}

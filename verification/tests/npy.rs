use audio2face::audio2face::npy::{
    extract_string_value, extract_tuple_value, parse_header, read_f32, read_header, read_i32,
    shape_total, ByteStream, NpyError,
};

fn header(dtype: &str, shape: &str) -> String {
    format!("{{'descr': '{dtype}', 'fortran_order': False, 'shape': {shape}, }}\n")
}

fn v1(header: &str, data: &[u8]) -> Vec<u8> {
    let mut out = b"\x93NUMPY\x01\x00".to_vec();
    out.extend_from_slice(&(header.len() as u16).to_le_bytes());
    out.extend_from_slice(header.as_bytes());
    out.extend_from_slice(data);
    out
}

fn v2(header: &str, data: &[u8]) -> Vec<u8> {
    let mut out = b"\x93NUMPY\x02\x00".to_vec();
    out.extend_from_slice(&(header.len() as u32).to_le_bytes());
    out.extend_from_slice(header.as_bytes());
    out.extend_from_slice(data);
    out
}

fn whole(bytes: Vec<u8>) -> ByteStream {
    ByteStream { bytes, failure: None }
}

fn floats(xs: &[f32]) -> Vec<u8> {
    xs.iter().flat_map(|x| x.to_le_bytes()).collect()
}

fn ints(xs: &[i32]) -> Vec<u8> {
    xs.iter().flat_map(|x| x.to_le_bytes()).collect()
}

#[test]
fn reads_floats() {
    let xs = [0.0f32, -1.5, 3.25e-9, f32::INFINITY, 7.0, -0.0];
    let a = read_f32(whole(v1(&header("<f4", "(2, 3)"), &floats(&xs))), "a.npy").unwrap();
    assert_eq!(a.data, xs.iter().map(|x| x.to_bits()).collect::<Vec<u32>>());
    assert_eq!(a.shape, vec![2, 3]);
}

#[test]
fn reads_integers() {
    let xs = [0, 1, -1, i32::MAX, i32::MIN, 0x0102_0304];
    let a = read_i32(whole(v2(&header("<i4", "(6,)"), &ints(&xs))), "a.npy").unwrap();
    assert_eq!(a.data, xs.to_vec());
    assert_eq!(a.shape, vec![6]);
}

#[test]
fn element_types_need_their_mark() {
    match read_f32(whole(v1(&header("f4", "(1,)"), &floats(&[2.5]))), "a") {
        Err(NpyError::WrongDtype { expected, actual, context }) => {
            assert_eq!((expected, actual.as_str(), context.as_str()), ("<f4", "f4", "a"));
        }
        other => panic!("{other:?}"),
    }
    match read_i32(whole(v1(&header("i4", "(1,)"), &ints(&[-9]))), "b") {
        Err(NpyError::WrongDtype { expected, actual, context }) => {
            assert_eq!((expected, actual.as_str(), context.as_str()), ("<i4", "i4", "b"));
        }
        other => panic!("{other:?}"),
    }
}

#[test]
fn scalars_hold_one_element() {
    let a = read_f32(whole(v1(&header("<f4", "()"), &floats(&[4.0]))), "a").unwrap();
    assert_eq!((a.data, a.shape), (vec![4.0f32.to_bits()], vec![1]));
    let c = read_f32(whole(v1(&header("<f4", "(,)"), &floats(&[4.0]))), "c").unwrap();
    assert_eq!((c.data.len(), c.shape), (1, vec![]));
    assert_eq!(shape_total(&[]), Some(1));
}

#[test]
fn empty_arrays_hold_nothing() {
    let b = read_f32(whole(v1(&header("<f4", "(0, 5)"), &[])), "b").unwrap();
    assert_eq!((b.data, b.shape), (vec![], vec![0, 5]));
    let c = read_i32(whole(v2(&header("<i4", "(3, 0)"), &ints(&[7]))), "c").unwrap();
    assert_eq!((c.data, c.shape), (vec![], vec![3, 0]));
    assert_eq!(shape_total(&[2, 0]), Some(0));
    assert_eq!(shape_total(&[0, 3]), Some(0));
}

#[test]
fn shapes_multiply() {
    assert_eq!(shape_total(&[2, 3, 4]), Some(24));
    assert_eq!(shape_total(&[usize::MAX, 2]), None);
    assert_eq!(shape_total(&[usize::MAX, 2, 0]), None);
    assert_eq!(shape_total(&[0, usize::MAX, 2]), Some(0));
}

#[test]
fn headers_read_in_either_order_and_spacing() {
    for text in [
        "{'descr': '<f4', 'fortran_order': False, 'shape': (2, 3), }",
        "{'descr':'<f4','fortran_order':True,'shape':(2,3)}",
        "{'shape': (2, 3), 'descr': '<f4', 'fortran_order': False}",
        "{'shape':\t ( 2 ,\n3 , ), 'fortran_order': True, 'descr': \t'<f4'}",
        "{'fortran_order': False, 'descr':   '<f4', 'shape': (2,  3,)}  \n",
    ] {
        let (dtype, shape) = parse_header(text, "h").unwrap();
        assert_eq!((dtype.as_str(), shape), ("<f4", vec![2, 3]), "{text}");
    }
}

#[test]
fn written_files_read_back() {
    let xs = [1.0f32, f32::NAN, -0.0, f32::MIN_POSITIVE, 1e-45, f32::NEG_INFINITY];
    for text in [
        header("<f4", "(6,)"),
        "{'shape': (3, 2), 'fortran_order': True, 'descr': '<f4'}".to_string(),
    ] {
        for mut bytes in [v1(&text, &floats(&xs)), v2(&text, &floats(&xs))] {
            bytes.push(9);
            let a = read_f32(whole(bytes), "a").unwrap();
            assert_eq!(a.data, xs.iter().map(|x| x.to_bits()).collect::<Vec<u32>>());
        }
    }
}

#[test]
fn trailing_bytes_are_left() {
    let mut bytes = v1(&header("<f4", "(1,)"), &floats(&[1.0]));
    bytes.extend_from_slice(&[1, 2, 3]);
    let failing = ByteStream {
        bytes,
        failure: Some(std::io::Error::from(std::io::ErrorKind::InvalidData)),
    };
    assert_eq!(read_f32(failing, "a").unwrap().data, vec![1.0f32.to_bits()]);
}

#[test]
fn another_element_type_is_refused() {
    for dtype in ["<f8", ">f4", "<i4", "|u1", ""] {
        let r = read_f32(whole(v1(&header(dtype, "(1,)"), &floats(&[1.0]))), "x.npy");
        match r {
            Err(NpyError::WrongDtype { expected, actual, context }) => {
                assert_eq!((expected, actual.as_str(), context.as_str()), ("<f4", dtype, "x.npy"));
            }
            other => panic!("{other:?}"),
        }
    }
    match read_i32(whole(v1(&header("<f4", "(1,)"), &ints(&[1]))), "y") {
        Err(NpyError::WrongDtype { expected, actual, .. }) => {
            assert_eq!((expected, actual.as_str()), ("<i4", "<f4"));
        }
        other => panic!("{other:?}"),
    }
}

#[test]
fn another_magic_is_refused() {
    let mut bytes = v1(&header("<f4", "(1,)"), &floats(&[1.0]));
    for i in 0..6 {
        bytes[i] ^= 1;
        match read_f32(whole(bytes.clone()), "m") {
            Err(NpyError::BadMagic(c)) => assert_eq!(c, "m"),
            other => panic!("{other:?}"),
        }
        bytes[i] ^= 1;
    }
}

#[test]
fn another_version_is_refused() {
    let mut bytes = v1(&header("<f4", "(1,)"), &floats(&[1.0]));
    for version in [0u8, 3, 255] {
        bytes[6] = version;
        match read_f32(whole(bytes.clone()), "v") {
            Err(NpyError::UnsupportedVersion { version: got, context }) => {
                assert_eq!((got, context.as_str()), (version, "v"));
            }
            other => panic!("{other:?}"),
        }
    }
}

#[test]
fn every_cut_is_an_end_of_data() {
    for full in [
        v1(&header("<f4", "(2,)"), &floats(&[1.0, 2.0])),
        v2(&header("<f4", "(2,)"), &floats(&[1.0, 2.0])),
    ] {
        assert!(read_f32(whole(full.clone()), "t").is_ok());
        for n in 0..full.len() {
            match read_f32(whole(full[..n].to_vec()), "t") {
                Err(NpyError::Io(None, c)) => assert_eq!(c, "t"),
                other => panic!("{n}: {other:?}"),
            }
        }
    }
}

#[test]
fn a_failing_stream_gives_its_error() {
    let full = v1(&header("<i4", "(2,)"), &ints(&[1, 2]));
    for n in [0, 9, 20, full.len() - 1] {
        let stream = ByteStream {
            bytes: full[..n].to_vec(),
            failure: Some(std::io::Error::from(std::io::ErrorKind::ConnectionReset)),
        };
        match read_i32(stream, "s") {
            Err(NpyError::Io(Some(e), c)) => {
                assert_eq!(e.kind(), std::io::ErrorKind::ConnectionReset);
                assert_eq!(c, "s");
            }
            other => panic!("{other:?}"),
        }
    }
}

#[test]
fn headers_must_be_text() {
    let mut bytes = v1(&header("<f4", "(1,)"), &floats(&[1.0]));
    bytes[12] = 0xff;
    match read_f32(whole(bytes), "u") {
        Err(NpyError::BadHeader { context, message }) => {
            assert_eq!(context, "u");
            assert_eq!(message, "header bytes are not valid UTF-8");
        }
        other => panic!("{other:?}"),
    }
    let text = "{'descr': 'é😀', 'shape': (1,)}";
    let (dtype, shape, at) = read_header(&v1(text, &[]), "u").unwrap();
    assert_eq!((dtype.as_str(), shape, at), ("é😀", vec![1], 10 + text.len()));
}

#[test]
fn headers_must_have_both_keys() {
    for (text, want) in [
        ("{'shape': (1,)}", "missing 'descr' key"),
        ("{'descr': <f4, 'shape': (1,)}", "missing 'descr' key"),
        ("{'descr': '<f4, 'shape': (1,)}", ""),
        ("{'descr': '<f4'}", "missing 'shape' key"),
        ("{'descr': '<f4', 'shape': 1}", "missing 'shape' key"),
        ("{'descr': '<f4', 'shape': (1, 2", "missing 'shape' key"),
    ] {
        match parse_header(text, "h") {
            Err(NpyError::BadHeader { context, message }) => {
                assert_eq!(context, "h");
                assert_eq!(message, want);
            }
            Ok((dtype, _)) => {
                assert_eq!(want, "");
                assert_eq!(dtype, "<f4, ");
            }
            other => panic!("{other:?}"),
        }
    }
}

#[test]
fn shapes_must_be_numbers() {
    for (shape, dim) in [("(1, x)", "x"), ("(-1,)", "-1"), ("(1, 2 3, q)", "2 3"), ("(1L,)", "1L")] {
        match parse_header(&header("<f4", shape), "h") {
            Err(NpyError::BadShape { context, message }) => {
                assert_eq!(context, "h");
                assert_eq!(message, format!("non-integer dim '{dim}'"));
            }
            other => panic!("{other:?}"),
        }
    }
    for (shape, want) in [
        ("(768, 1024)", vec![768, 1024]),
        ("( 3 ,4,)", vec![3, 4]),
        ("(+5,)", vec![5]),
        ("((7),)", vec![7]),
        ("()", vec![1]),
        ("( \t)", vec![1]),
    ] {
        assert_eq!(parse_header(&header("<f4", shape), "h").unwrap().1, want, "{shape}");
    }
}

#[test]
fn too_many_elements_are_refused() {
    let text = header("<f4", "(18446744073709551615, 2)");
    match read_f32(whole(v1(&text, &floats(&[1.0]))), "big") {
        Err(NpyError::BadShape { context, message }) => {
            assert_eq!((context.as_str(), message.as_str()), ("big", "too many elements"));
        }
        other => panic!("{other:?}"),
    }
    let text = header("<f4", "(9223372036854775807,)");
    assert!(matches!(
        read_f32(whole(v1(&text, &floats(&[1.0]))), "big"),
        Err(NpyError::Io(None, _))
    ));
}

#[test]
fn values_are_found_behind_their_keys() {
    let h = "{'descr' : 'no', 'descr':\t '<f4', 'shape':  (1, (2)) }";
    assert_eq!(extract_string_value(h, "'descr':"), Some("<f4".to_string()));
    assert_eq!(extract_string_value(h, "'order':"), None);
    assert_eq!(extract_string_value(h, "'shape':"), None);
    assert_eq!(extract_tuple_value(h, "'shape':"), Some("(1, (2)".to_string()));
    assert_eq!(extract_tuple_value(h, "'descr':"), None);
    assert_eq!(extract_string_value("k:'", "k:"), None);
    assert_eq!(extract_string_value("k:", "k:"), None);
    assert_eq!(extract_string_value("k:''", "k:"), Some(String::new()));
}

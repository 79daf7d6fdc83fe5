use ndarray::{Array1, Array2};
use ndarray_npy::WriteNpyExt;
use tachiom::npy::{
    dtype_elem_size, parse_header_text, parse_npy_header, read_assignments_npy, read_doclens_npy,
    read_f16_npy, read_token_ids_npy, NpyError,
};

/// A file with the given header text and elements.
fn file(version: u8, header: &str, payload: &[u8]) -> Vec<u8> {
    let mut bytes = vec![0x93];
    bytes.extend_from_slice(b"NUMPY");
    bytes.extend_from_slice(&[version, 0]);
    if version == 1 {
        bytes.extend_from_slice(&(header.len() as u16).to_le_bytes());
    } else {
        bytes.extend_from_slice(&(header.len() as u32).to_le_bytes());
    }
    bytes.extend_from_slice(header.as_bytes());
    bytes.extend_from_slice(payload);
    bytes
}

fn header(descr: &str, shape: &str) -> String {
    format!("{{'descr': '{descr}', 'fortran_order': False, 'shape': ({shape}), }}\n")
}

fn parse(text: &str) -> Result<(Vec<usize>, usize), NpyError> {
    parse_header_text(text.as_bytes())
}

#[test]
fn type_codes_have_sizes() {
    for (code, size) in [("i1", 1), ("u1", 1), ("b1", 1), ("i2", 2), ("u2", 2), ("f2", 2)] {
        assert_eq!(dtype_elem_size(code.as_bytes()), Some(size));
    }
    for (code, size) in [("i4", 4), ("u4", 4), ("f4", 4), ("i8", 8), ("u8", 8), ("f8", 8)] {
        assert_eq!(dtype_elem_size(code.as_bytes()), Some(size));
    }
    for code in ["", "i", "f16", "<i4", "c8", "i44"] {
        assert_eq!(dtype_elem_size(code.as_bytes()), None);
    }
}

#[test]
fn headers_give_shape_and_size() {
    assert_eq!(parse(&header("<f2", "3, 4")), Ok((vec![3, 4], 2)));
    assert_eq!(parse(&header("|u1", "7,")), Ok((vec![7], 1)));
    assert_eq!(parse(&header("=i8", "")), Ok((vec![], 8)));
    assert_eq!(parse(&header("<=|i4", " +5 ,\t6\n,,")), Ok((vec![5, 6], 4)));
    assert_eq!(parse(&header("f4", "1,\u{a0}2\u{2003},\u{3000}3")), Ok((vec![1, 2, 3], 4)));
    assert_eq!(parse(&header("f4", "18446744073709551615,")), Ok((vec![usize::MAX], 4)));
}

#[test]
fn headers_are_refused_for_what_is_wrong() {
    let fortran = "{'descr': '<f2', 'fortran_order': True, 'shape': (3, 4), }";
    assert_eq!(parse(fortran), Err(NpyError::FortranOrder));
    assert_eq!(parse("{'shape': (3,)}"), Err(NpyError::NoDescr));
    assert_eq!(parse("{'descr': '<f2"), Err(NpyError::UnclosedDescr));
    assert_eq!(parse(&header(">f2", "3,")), Err(NpyError::BigEndian));
    assert_eq!(parse(&header("<c16", "3,")), Err(NpyError::UnknownDtype));
    assert_eq!(parse(&header("<>f2", "3,")), Err(NpyError::UnknownDtype));
    assert_eq!(parse("{'descr': '<f2'}"), Err(NpyError::NoShape));
    assert_eq!(parse("{'descr': '<f2', 'shape': (3,"), Err(NpyError::UnclosedShape));
    for shape in ["3, x", "-1,", "+", "1 2", "18446744073709551616,", "3\u{e9}"] {
        assert_eq!(parse(&header("<f2", shape)), Err(NpyError::BadShape), "{shape}");
    }
}

#[test]
fn files_start_with_a_header() {
    let text = header("<i4", "2,");
    let bytes = file(1, &text, &[1, 2, 3, 4]);
    assert_eq!(parse_npy_header(&bytes), Ok((vec![2], 4, 10 + text.len())));
    let bytes = file(2, &text, &[]);
    assert_eq!(parse_npy_header(&bytes), Ok((vec![2], 4, 12 + text.len())));
    let mut cut = file(1, &text, &[]);
    cut.pop();
    assert_eq!(parse_npy_header(&cut), Err(NpyError::Truncated));
    for n in [0, 5, 6, 7, 8, 9] {
        assert_eq!(parse_npy_header(&cut[..n]), Err(NpyError::Truncated), "{n}");
    }
    cut[1] = b'X';
    assert_eq!(parse_npy_header(&cut), Err(NpyError::NotNumpy));
}

#[test]
fn half_precision_vectors_are_read_as_bits() {
    let text = header("<f2", "2, 3");
    let payload: Vec<u8> = (0..12).collect();
    let bytes = file(1, &text, &payload);
    let expected = vec![0x0100, 0x0302, 0x0504, 0x0706, 0x0908, 0x0b0a];
    assert_eq!(read_f16_npy(&bytes), Ok((expected, 3)));
    assert_eq!(read_f16_npy(&bytes[..bytes.len() - 1]), Err(NpyError::Truncated));
    assert_eq!(read_f16_npy(&file(1, &header("<f2", "6,"), &payload)), Err(NpyError::WrongDimensions));
    assert_eq!(read_f16_npy(&file(1, &header("<f4", "1, 3"), &payload)), Err(NpyError::WrongElementSize));
    let huge = header("<f2", "18446744073709551615, 18446744073709551615");
    assert_eq!(read_f16_npy(&file(1, &huge, &payload)), Err(NpyError::Truncated));
    assert_eq!(read_f16_npy(&[]), Err(NpyError::Truncated));
}

#[test]
fn written_arrays_are_read_back() {
    let mut bytes = Vec::new();
    Array1::from_vec(vec![3u32, 0, u32::MAX]).write_npy(&mut bytes).unwrap();
    assert_eq!(read_token_ids_npy(&bytes), Ok(vec![3, 0, u32::MAX as usize]));
    assert_eq!(read_assignments_npy(&bytes, 3), Ok(vec![3, 0, u32::MAX as usize]));
    let mut bytes = Vec::new();
    Array1::from_vec(vec![3i64, -1]).write_npy(&mut bytes).unwrap();
    assert_eq!(read_token_ids_npy(&bytes), Ok(vec![3, -1i64 as usize]));
    assert_eq!(read_doclens_npy(&bytes), Ok(vec![3, -1i64 as usize]));
    let mut bytes = Vec::new();
    Array1::from_vec(vec![4i32, -2, i32::MAX]).write_npy(&mut bytes).unwrap();
    assert_eq!(read_doclens_npy(&bytes), Ok(vec![4, -2i32 as usize, i32::MAX as usize]));
    let mut bytes = Vec::new();
    Array1::from_vec(vec![u64::MAX, 1]).write_npy(&mut bytes).unwrap();
    assert_eq!(read_assignments_npy(&bytes, 2), Ok(vec![u64::MAX as usize, 1]));
    let mut bytes = Vec::new();
    Array2::from_shape_vec((2, 2), vec![1i64, 2, 3, 4]).unwrap().write_npy(&mut bytes).unwrap();
    assert_eq!(read_token_ids_npy(&bytes), Err(NpyError::WrongDimensions));
    assert_eq!(read_assignments_npy(&bytes, 4), Err(NpyError::WrongDimensions));
}

#[test]
fn number_files_are_checked() {
    let bytes = file(1, &header("<i4", "3,"), &[0; 12]);
    assert_eq!(read_doclens_npy(&bytes), Ok(vec![0, 0, 0]));
    assert_eq!(read_doclens_npy(&bytes[..bytes.len() - 1]), Err(NpyError::Truncated));
    assert_eq!(read_assignments_npy(&bytes, 4), Err(NpyError::WrongLength));
    let narrow = file(1, &header("<i2", "3,"), &[0; 6]);
    assert_eq!(read_token_ids_npy(&narrow), Err(NpyError::WrongElementSize));
    assert_eq!(read_doclens_npy(&narrow), Err(NpyError::WrongElementSize));
    assert_eq!(read_assignments_npy(&narrow, 3), Err(NpyError::WrongElementSize));
    assert_eq!(read_assignments_npy(&narrow[..narrow.len() - 1], 3), Err(NpyError::Truncated));
    assert_eq!(read_token_ids_npy(b"no such thing"), Err(NpyError::NotNumpy));
}

#[test]
fn bytes_that_are_no_text_do_not_matter() {
    let mut bytes = header("<i4", "2,").into_bytes();
    bytes.insert(0, 0xff);
    bytes.push(0xc3);
    assert_eq!(parse_header_text(&bytes), Ok((vec![2], 4)));
    let mut odd = b"{'descr': '<i4', 'shape': (2".to_vec();
    odd.push(0xe2);
    odd.extend_from_slice(b")}");
    assert_eq!(parse_header_text(&odd), Err(NpyError::BadShape));
}

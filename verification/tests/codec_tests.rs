use locatew::codec::{compress_lines, decompress_lines, FrCompress, FrDecompress, FrError};
use locatew::text::{check_utf8, utf8_valid_prefix};
use locatew::varint::{read_int_at, write_int};

fn b(s: &str) -> Vec<u8> {
    s.as_bytes().to_vec()
}

fn dirlist() -> Vec<Vec<u8>> {
    let long_a = format!("E:\\{}", "a".repeat(50));
    let long_b = format!("\\{}", "b".repeat(50));
    let long_c = format!("\\{}", "c".repeat(50));
    let long_d = format!("\\{}", "d".repeat(50));
    let big = format!("{}{}{}{}", long_a, long_b, long_c, long_d);
    let bigger = format!("{}\\e", big);
    vec![
        b("C:\\Users"),
        b("C:\\Users\\Fourmilier"),
        b("C:\\Users\\Fourmilier\\Documents\\Bébé Aardvark.jpg"),
        b("C:\\Users\\Fourmilier\\Documents\\Bébé Armadillo.jpg"),
        b("C:\\Windows"),
        b("D:\\ماريو.txt"),
        b(&big),
        b(&bigger),
        b("E:\\f"),
    ]
}

#[test]
fn compress_decompress_ok() {
    let lines = dirlist();
    let compressed = compress_lines(&lines).unwrap();
    let decompressed = decompress_lines(&compressed).unwrap();
    assert_eq!(decompressed.len(), lines.len());
    for (after, before) in decompressed.iter().zip(lines.iter()) {
        assert_eq!(before, after);
    }
}

#[test]
fn streaming_round_trip_matches_whole_buffer() {
    let lines = dirlist();
    let mut enc = FrCompress::new();
    let mut stream: Vec<u8> = Vec::new();
    for line in &lines {
        stream.extend_from_slice(&enc.next_chunk(line).unwrap());
    }
    assert_eq!(stream, compress_lines(&lines).unwrap());
    let mut dec = FrDecompress::new(stream);
    let mut got: Vec<Vec<u8>> = Vec::new();
    while let Some(item) = dec.next_line() {
        got.push(item.unwrap());
    }
    assert_eq!(got, lines);
}

#[test]
fn header_first_nine_bytes() {
    let mut enc = FrCompress::new();
    let chunk = enc.next_chunk(&b("C:\\Users")).unwrap();
    assert_eq!(&chunk[..9], &[0u8, 7, b'L', b'O', b'C', b'A', b'T', b'E', b'W']);
}

#[test]
fn prefix_differential_record_bytes() {
    let mut enc = FrCompress::new();
    let first = enc.next_chunk(&b("C:\\a")).unwrap();
    assert_eq!(&first[9..], &[0u8, 4, b'C', b':', b'\\', b'a']);
    let second = enc.next_chunk(&b("C:\\ab")).unwrap();
    assert_eq!(second, vec![4u8, 1, b'b']);
    let third = enc.next_chunk(&b("D:")).unwrap();
    // shared prefix fell from 4 to 0: offset is -4 and the whole line follows
    assert_eq!(third, vec![0xfcu8, 2, b'D', b':']);
}

#[test]
fn escape_boundary_fields() {
    let cases: Vec<(i32, Vec<u8>)> = vec![
        (127, vec![127u8]),
        (128, vec![0x80u8, 0, 128]),
        (-127, vec![129u8]),
        (-128, vec![0x80u8, 255, 128]),
        (-129, vec![0x80u8, 255, 127]),
    ];
    for (value, expected) in cases {
        let mut out: Vec<u8> = Vec::new();
        write_int(&mut out, value);
        assert_eq!(out, expected);
        let (back, used) = read_int_at(&out, 0).unwrap();
        assert_eq!(back, value);
        assert_eq!(used, expected.len());
    }
}

#[test]
fn multibyte_scalar_never_split() {
    let lines = vec![b("D:\\ماريو.txt"), b("D:\\ماريد.txt")];
    let compressed = compress_lines(&lines).unwrap();
    let decompressed = decompress_lines(&compressed).unwrap();
    assert_eq!(decompressed, lines);
    for line in decompressed {
        // every reconstructed line is intact UTF-8
        String::from_utf8(line).unwrap();
    }
}

#[test]
fn truncation_decodes_prefix_without_error() {
    let lines = vec![b("C:\\Users"), b("C:\\Users\\Bob"), b("C:\\Windows")];
    let compressed = compress_lines(&lines).unwrap();
    for k in 0..=compressed.len() {
        let cut = compressed[..k].to_vec();
        let decoded = decompress_lines(&cut).unwrap();
        assert!(decoded.len() <= lines.len());
        for (i, line) in decoded.iter().enumerate() {
            assert_eq!(line, &lines[i]);
        }
    }
}

#[test]
fn empty_input_empty_output() {
    let no_lines: Vec<Vec<u8>> = Vec::new();
    let compressed = compress_lines(&no_lines).unwrap();
    assert!(compressed.is_empty());
    let decoded = decompress_lines(&compressed).unwrap();
    assert!(decoded.is_empty());
}

#[test]
fn header_only_stream_is_empty_database() {
    let bytes = vec![0u8, 7, b'L', b'O', b'C', b'A', b'T', b'E', b'W'];
    let decoded = decompress_lines(&bytes).unwrap();
    assert!(decoded.is_empty());
}

#[test]
fn bad_label_is_invalid_database() {
    let bytes = vec![0u8, 7, b'L', b'O', b'C', b'A', b'T', b'E', b'X', 0, 1, b'a'];
    assert_eq!(decompress_lines(&bytes), Err(FrError::InvalidLabelError));
}

#[test]
fn corrupt_suffix_is_invalid_utf8() {
    let mut bytes = vec![0u8, 7, b'L', b'O', b'C', b'A', b'T', b'E', b'W'];
    bytes.extend_from_slice(&[0, 1, 0xff]);
    assert_eq!(decompress_lines(&bytes), Err(FrError::InvalidUtf8Error(0)));
}

#[test]
fn corrupt_suffix_reports_where_decoding_failed() {
    // two good bytes, then a stray continuation byte: the error carries the
    // length of the well-formed run
    let mut bytes = vec![0u8, 7, b'L', b'O', b'C', b'A', b'T', b'E', b'W'];
    bytes.extend_from_slice(&[0, 3, b'a', b'b', 0x80]);
    assert_eq!(decompress_lines(&bytes), Err(FrError::InvalidUtf8Error(2)));
}

#[test]
fn corrupt_label_is_invalid_utf8() {
    let bytes = vec![0u8, 2, 0xff, 0xff];
    assert_eq!(decompress_lines(&bytes), Err(FrError::InvalidUtf8Error(0)));
}

#[test]
fn offset_beyond_previous_line_is_invalid() {
    let mut bytes = vec![0u8, 7, b'L', b'O', b'C', b'A', b'T', b'E', b'W'];
    bytes.extend_from_slice(&[0, 2, b'a', b'b']);
    bytes.extend_from_slice(&[5, 0]);
    assert_eq!(decompress_lines(&bytes), Err(FrError::InvalidOffsetError));
}

#[test]
fn offset_into_scalar_is_invalid() {
    // the first line ends in a two-byte scalar; an offset that cuts it in
    // half is refused
    let mut bytes = vec![0u8, 7, b'L', b'O', b'C', b'A', b'T', b'E', b'W'];
    let line = "aé".as_bytes();
    assert_eq!(line.len(), 3);
    bytes.extend_from_slice(&[0, 3]);
    bytes.extend_from_slice(line);
    bytes.extend_from_slice(&[2, 0]);
    assert_eq!(decompress_lines(&bytes), Err(FrError::InvalidOffsetError));
}

#[test]
fn utf8_scan_reports_the_boundary() {
    assert!(check_utf8(&b("D:\\ماريو.txt")));
    assert!(!check_utf8(&vec![b'a', 0xff]));
    assert_eq!(utf8_valid_prefix(&b("abc")), 3);
    assert_eq!(utf8_valid_prefix(&vec![b'a', b'b', 0x80, b'c']), 2);
    // a multi-byte scalar cut in half is invalid from its first byte
    let mut cut = b("é");
    cut.pop();
    assert_eq!(utf8_valid_prefix(&cut), 0);
}

#[test]
fn oversized_line_is_refused() {
    let mut enc = FrCompress::new();
    let long = vec![b'x'; 32768];
    assert_eq!(enc.next_chunk(&long), Err(FrError::LineTooLongError));
    let just_fits = vec![b'x'; 32767];
    assert!(enc.next_chunk(&just_fits).is_ok());
    let both = vec![just_fits, long];
    assert_eq!(compress_lines(&both), Err(FrError::LineTooLongError));
}

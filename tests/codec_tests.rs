use lattice::codec::{
    encode_csv, encode_rows, find_max_row_length, line_fields, lines_to_csv, row_bytes,
    utf8_array_pad_to_max_length, utf8_to_string, PAD_BYTE,
};
use lattice::LatticeError;
use nalgebra::DMatrix;

fn table(rows: &[&[&str]]) -> Vec<Vec<Vec<u8>>> {
    rows.iter()
        .map(|r| r.iter().map(|f| f.as_bytes().to_vec()).collect())
        .collect()
}

#[test]
fn row_bytes_joins_fields_with_commas() {
    let fields = vec![b"ab".to_vec(), b"".to_vec(), b"c".to_vec()];
    assert_eq!(row_bytes(&fields), b"ab,,c".to_vec());
    assert_eq!(row_bytes(&Vec::new()), Vec::<u8>::new());
}

#[test]
fn scenario_two_rows_encode_to_three_columns() {
    let rows = table(&[&["a", "b"], &["1", "2"]]);
    assert_eq!(find_max_row_length(&rows), 3);
    let m = encode_rows(&rows);
    assert_eq!(m, vec![vec![97, 44, 98], vec![49, 44, 50]]);
    let lines = utf8_to_string(m).unwrap();
    assert_eq!(lines, vec!["a,b".to_string(), "1,2".to_string()]);
}

#[test]
fn scenario_two_rows_survive_keyed_transform() {
    let rows = table(&[&["a", "b"], &["1", "2"]]);
    let m = encode_rows(&rows);
    let plain = DMatrix::from_fn(2, 3, |i, j| m[i][j] as f64);
    let key = DMatrix::from_row_slice(3, 3, &[1.0, 1.0, 0.0, 0.0, 1.0, 1.0, 1.0, 0.0, 1.0]);
    let secret = key.clone().try_inverse().unwrap();
    let transformed = plain * key;
    let recovered = transformed * secret;
    let cells: Vec<Vec<u64>> = (0..recovered.nrows())
        .map(|i| (0..recovered.ncols()).map(|j| recovered[(i, j)].round() as u64).collect())
        .collect();
    assert_eq!(utf8_to_string(cells).unwrap(), vec!["a,b".to_string(), "1,2".to_string()]);
}

#[test]
fn shorter_rows_are_padded_with_pad_bytes() {
    let rows = table(&[&["name", "age"], &["x", "1"], &["longer", "12345"]]);
    assert_eq!(find_max_row_length(&rows), 12);
    let m = encode_rows(&rows);
    assert_eq!(m.len(), 3);
    for row in &m {
        assert_eq!(row.len(), 12);
    }
    assert_eq!(&m[1][..3], &[120, 44, 49]);
    assert!(m[1][3..].iter().all(|&c| c == PAD_BYTE as u64));
    assert!(m[0][8..].iter().all(|&c| c == 124));
    let lines = utf8_to_string(m).unwrap();
    assert_eq!(lines, vec!["name,age", "x,1", "longer,12345"]);
}

#[test]
fn pad_to_max_length_keeps_longer_rows() {
    let fields = vec![b"abc".to_vec()];
    assert_eq!(utf8_array_pad_to_max_length(&fields, 5), vec![97, 98, 99, 124, 124]);
    assert_eq!(utf8_array_pad_to_max_length(&fields, 2), vec![97, 98, 99]);
}

#[test]
fn empty_table_encodes_to_no_rows() {
    let rows: Vec<Vec<Vec<u8>>> = Vec::new();
    assert_eq!(find_max_row_length(&rows), 0);
    assert!(encode_rows(&rows).is_empty());
    assert_eq!(utf8_to_string(Vec::new()).unwrap(), Vec::<String>::new());
}

#[test]
fn multibyte_text_round_trips() {
    let rows = table(&[&["é", "ü"], &["日本"]]);
    let m = encode_rows(&rows);
    assert_eq!(m[0].len(), 6);
    assert_eq!(utf8_to_string(m).unwrap(), vec!["é,ü", "日本"]);
}

#[test]
fn encode_csv_reads_header_and_records() {
    let m = encode_csv(b"a,b\n1,2\n").unwrap();
    assert_eq!(m, vec![vec![97, 44, 98], vec![49, 44, 50]]);
    let quoted = encode_csv(b"h\n\"x,y\"\n").unwrap();
    assert_eq!(quoted, vec![vec![104, 124, 124], vec![120, 44, 121]]);
}

#[test]
fn encode_csv_refuses_bad_input() {
    assert_eq!(encode_csv(b"a,b\n1\n"), Err(LatticeError::Format));
    assert_eq!(encode_csv(&[0xff, 0xfe, b'\n']), Err(LatticeError::Format));
}

#[test]
fn decode_reports_out_of_range_cells() {
    assert_eq!(utf8_to_string(vec![vec![97, 256]]), Err(LatticeError::Range));
    assert_eq!(utf8_to_string(vec![vec![97], vec![u64::MAX]]), Err(LatticeError::Range));
}

#[test]
fn decode_reports_invalid_utf8() {
    assert_eq!(utf8_to_string(vec![vec![97], vec![255, 97]]), Err(LatticeError::Decode));
}

#[test]
fn decode_strips_only_trailing_pad_bytes() {
    let lines = utf8_to_string(vec![vec![124, 97, 124, 124], vec![124, 124]]).unwrap();
    assert_eq!(lines, vec!["|a".to_string(), String::new()]);
}

#[test]
fn line_fields_split_at_commas() {
    assert_eq!(line_fields("a,b"), vec!["a", "b"]);
    assert_eq!(line_fields("a,,b,"), vec!["a", "", "b", ""]);
    assert_eq!(line_fields(""), vec![""]);
    assert_eq!(line_fields("é"), vec!["é"]);
}

#[test]
fn csv_text_comes_back_as_fields() {
    let m = encode_csv("name,city\nAnn,Zürich\nBo,\n".as_bytes()).unwrap();
    assert_eq!(m[0].len(), 11);
    let lines = utf8_to_string(m).unwrap();
    let fields: Vec<Vec<String>> = lines.iter().map(|l| line_fields(l)).collect();
    assert_eq!(fields, vec![vec!["name", "city"], vec!["Ann", "Zürich"], vec!["Bo", ""]]);
}

#[test]
fn encode_csv_refuses_invalid_utf8_inside_a_field() {
    assert_eq!(encode_csv(b"a,b\n1,\xc3\x28\n"), Err(LatticeError::Format));
    assert_eq!(encode_csv(b"\"\xff\"\n"), Err(LatticeError::Format));
}

#[test]
fn encode_csv_of_empty_text_has_no_rows() {
    assert_eq!(encode_csv(b""), Ok(Vec::new()));
}

#[test]
fn appended_pad_bytes_decode_to_the_same_line() {
    let base = vec![104, 105];
    for k in 0..5 {
        let mut longer = base.clone();
        longer.extend(std::iter::repeat(124).take(k));
        assert_eq!(utf8_to_string(vec![longer]), utf8_to_string(vec![base.clone()]));
    }
    assert_eq!(utf8_to_string(vec![vec![300, 124]]), utf8_to_string(vec![vec![300]]));
}

#[test]
fn lines_to_csv_writes_one_record_per_line() {
    let lines = vec!["a,b".to_string(), "1,x y".to_string()];
    assert_eq!(lines_to_csv(&lines).unwrap(), b"a,b\n1,x y\n".to_vec());
    let quoted = vec!["q\"r,s".to_string()];
    assert_eq!(lines_to_csv(&quoted).unwrap(), b"\"q\"\"r\",s\n".to_vec());
    assert_eq!(lines_to_csv(&Vec::new()).unwrap(), Vec::<u8>::new());
}

#[test]
fn lines_to_csv_refuses_uneven_records() {
    let lines = vec!["a,b".to_string(), "1".to_string()];
    assert_eq!(lines_to_csv(&lines), Err(LatticeError::Format));
}

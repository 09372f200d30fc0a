use eds::csv;
use eds::eds as binary;
use eds::error::FormatError;
use eds::h5;
use eds::mtx;
use eds::text::{next_field, parse_number, push_decimal, split_lines};
use std::io::{Read, Write};

fn bits(values: &[f32]) -> Vec<u32> {
    values.iter().map(|v| v.to_bits()).collect()
}

fn tokens(values: &[&str]) -> Vec<Vec<u8>> {
    values.iter().map(|v| v.as_bytes().to_vec()).collect()
}

fn gzip(data: &[u8]) -> Vec<u8> {
    let mut encoder = flate2::write::GzEncoder::new(Vec::new(), flate2::Compression::best());
    encoder.write_all(data).unwrap();
    encoder.finish().unwrap()
}

fn gunzip(data: &[u8]) -> Vec<u8> {
    let mut decoder = flate2::read::GzDecoder::new(data);
    let mut out = Vec::new();
    decoder.read_to_end(&mut out).unwrap();
    out
}

fn sample_bits() -> Vec<Vec<u8>> {
    vec![vec![0x80u8, 0x00], vec![0xC0u8, 0x40], vec![0x00u8, 0x00]]
}

fn sample_values() -> Vec<Vec<u32>> {
    vec![bits(&[2.0]), bits(&[1.0, 3.0, 0.5]), bits(&[])]
}

fn sample_tokens() -> Vec<Vec<Vec<u8>>> {
    vec![tokens(&["2"]), tokens(&["1", "3", "0.5"]), tokens(&[])]
}

#[test]
fn eds_bytes_are_bit_vector_then_little_endian_values() {
    let bytes = binary::to_bytes(
        &vec![vec![0x0102_0304u32, 1.0f32.to_bits()], vec![]],
        &vec![vec![0x21u8], vec![0x00u8]],
        2,
        8,
    )
    .unwrap();
    assert_eq!(
        bytes,
        vec![0x21u8, 0x04, 0x03, 0x02, 0x01, 0x00, 0x00, 0x80, 0x3F, 0x00]
    );
}

#[test]
fn eds_bytes_read_back() {
    let bytes = binary::to_bytes(&sample_values(), &sample_bits(), 3, 10).unwrap();
    assert_eq!(bytes.len(), 3 * 2 + 4 * 4);
    assert_eq!(
        binary::from_bytes(&bytes, 3, 10),
        Ok((sample_bits(), sample_values()))
    );
}

#[test]
fn eds_reading_stops_after_the_cells_asked_for() {
    let mut bytes = binary::to_bytes(&sample_values(), &sample_bits(), 3, 10).unwrap();
    bytes.extend_from_slice(&[1, 2, 3]);
    assert_eq!(
        binary::from_bytes(&bytes, 2, 10),
        Ok((sample_bits()[..2].to_vec(), sample_values()[..2].to_vec()))
    );
    assert_eq!(binary::from_bytes(&bytes, 0, 10), Ok((Vec::new(), Vec::new())));
}

#[test]
fn eds_reading_names_where_the_input_ends() {
    let bytes = binary::to_bytes(&sample_values(), &sample_bits(), 3, 10).unwrap();
    assert_eq!(
        binary::from_bytes(&bytes[..1].to_vec(), 3, 10),
        Err(FormatError::TruncatedBits { expected: 2, found: 1 })
    );
    assert_eq!(
        binary::from_bytes(&bytes[..5].to_vec(), 3, 10),
        Err(FormatError::TruncatedValues { expected: 1, found: 0 })
    );
    assert_eq!(
        binary::from_bytes(&bytes[..19].to_vec(), 3, 10),
        Err(FormatError::TruncatedValues { expected: 3, found: 2 })
    );
    assert_eq!(
        binary::from_bytes(&bytes, 4, 10),
        Err(FormatError::TruncatedBits { expected: 2, found: 0 })
    );
}

#[test]
fn eds_reading_turns_down_a_bit_beyond_the_features() {
    assert_eq!(
        binary::from_bytes(&vec![0x01u8, 0, 0, 0, 0], 1, 7),
        Err(FormatError::FeatureRange { feature: 7, limit: 7 })
    );
}

#[test]
fn eds_writer_names_the_fault() {
    assert_eq!(
        binary::writer(sample_values(), sample_bits(), 2, 10),
        Err(FormatError::CellCount { expected: 2, found: 3 })
    );
    assert_eq!(
        binary::writer(sample_values(), sample_bits(), 3, 20),
        Err(FormatError::RowLength { expected: 3, found: 2 })
    );
    assert_eq!(
        binary::to_bytes(&vec![bits(&[1.0, 2.0])], &vec![vec![0x80u8]], 1, 8),
        Err(FormatError::ValueCount { expected: 1, found: 2 })
    );
}

#[test]
fn eds_writer_compresses_what_to_bytes_gives() {
    let file = binary::writer(sample_values(), sample_bits(), 3, 10).unwrap();
    let bytes = binary::to_bytes(&sample_values(), &sample_bits(), 3, 10).unwrap();
    assert_eq!(&file[..2], &[0x1f, 0x8b]);
    assert_ne!(file, bytes);
    assert_eq!(gunzip(&file), bytes);
}

#[test]
fn eds_reader_decompresses_before_it_reads() {
    let bytes = binary::to_bytes(&sample_values(), &sample_bits(), 3, 10).unwrap();
    let mut expr = vec![bits(&[9.0])];
    let mut bit_vecs = vec![vec![0x01u8]];
    assert_eq!(
        binary::reader(&gzip(&bytes), 3, 10, &mut expr, &mut bit_vecs),
        Ok(true)
    );
    let mut all_bits = vec![vec![0x01u8]];
    all_bits.extend(sample_bits());
    let mut all_values = vec![bits(&[9.0])];
    all_values.extend(sample_values());
    assert_eq!(bit_vecs, all_bits);
    assert_eq!(expr, all_values);
}

#[test]
fn eds_file_written_is_read_back() {
    let file = binary::writer(sample_values(), sample_bits(), 3, 10).unwrap();
    let mut expr = Vec::new();
    let mut bit_vecs = Vec::new();
    assert_eq!(binary::reader(&file, 3, 10, &mut expr, &mut bit_vecs), Ok(true));
    assert_eq!(bit_vecs, sample_bits());
    assert_eq!(expr, sample_values());
}

#[test]
fn eds_reader_leaves_its_outputs_alone_on_a_fault() {
    let bytes = binary::to_bytes(&sample_values(), &sample_bits(), 3, 10).unwrap();
    let mut expr = vec![bits(&[9.0])];
    let mut bit_vecs = vec![vec![0x01u8]];
    assert_eq!(
        binary::reader(&bytes, 3, 10, &mut expr, &mut bit_vecs),
        Err(FormatError::Compression)
    );
    assert_eq!(
        binary::reader(&gzip(&bytes), 4, 10, &mut expr, &mut bit_vecs),
        Err(FormatError::TruncatedBits { expected: 2, found: 0 })
    );
    assert_eq!(bit_vecs, vec![vec![0x01u8]]);
    assert_eq!(expr, vec![bits(&[9.0])]);
}

#[test]
fn decimal_digits_of_counts() {
    let mut out = Vec::new();
    push_decimal(&mut out, 0);
    out.push(b' ');
    push_decimal(&mut out, 7);
    out.push(b' ');
    push_decimal(&mut out, 10);
    out.push(b' ');
    push_decimal(&mut out, 4096);
    out.push(b' ');
    push_decimal(&mut out, usize::MAX);
    assert_eq!(
        String::from_utf8(out).unwrap(),
        format!("0 7 10 4096 {}", usize::MAX)
    );
}

#[test]
fn mtx_text_of_a_matrix() {
    let text = mtx::to_text(&sample_tokens(), &sample_bits(), 3, 10).unwrap();
    assert_eq!(
        String::from_utf8(text).unwrap(),
        "%%MatrixMarket\tmatrix\tcoordinate\treal\tgeneral\n3\t10\t4\n1\t1\t2\n2\t1\t1\n2\t2\t3\n2\t10\t0.5\n"
    );
}

#[test]
fn mtx_text_of_an_empty_matrix() {
    let text = mtx::to_text(&Vec::new(), &Vec::new(), 0, 0).unwrap();
    assert_eq!(
        String::from_utf8(text).unwrap(),
        "%%MatrixMarket\tmatrix\tcoordinate\treal\tgeneral\n0\t0\t0\n"
    );
}

#[test]
fn mtx_writer_names_the_fault() {
    assert_eq!(
        mtx::to_text(&sample_tokens(), &sample_bits(), 3, 9),
        Err(FormatError::FeatureRange { feature: 9, limit: 9 })
    );
    assert_eq!(
        mtx::writer(sample_tokens(), sample_bits(), 4, 10),
        Err(FormatError::CellCount { expected: 4, found: 3 })
    );
}

#[test]
fn mtx_writer_compresses_the_text() {
    let file = mtx::writer(sample_tokens(), sample_bits(), 3, 10).unwrap();
    let text = mtx::to_text(&sample_tokens(), &sample_bits(), 3, 10).unwrap();
    assert_eq!(&file[..2], &[0x1f, 0x8b]);
    assert_eq!(gunzip(&file), text);
}

#[test]
fn mtx_one_cell_one_feature() {
    let (bit_vecs, expr) = mtx::from_text(&b"1 1 1\n1 1 5.0\n".to_vec(), 1, 1).unwrap();
    assert_eq!(bit_vecs, vec![vec![0b10000000u8]]);
    assert_eq!(expr, vec![tokens(&["5.0"])]);
    let values: Vec<f32> = expr[0]
        .iter()
        .map(|t| std::str::from_utf8(t).unwrap().parse().unwrap())
        .collect();
    assert_eq!(values, vec![5.0]);
}

#[test]
fn mtx_first_line_that_is_no_comment_is_the_size() {
    // the first triplet has the shape of the size line and is not taken for it
    let text = b"%%MatrixMarket matrix coordinate real general\n% made by hand\n2\t3\t2\n2\t3\t7.5\n1 1 1e3\n";
    let (bit_vecs, expr) = mtx::from_text(&text.to_vec(), 2, 3).unwrap();
    assert_eq!(bit_vecs, vec![vec![0x80u8], vec![0x20u8]]);
    assert_eq!(expr, vec![tokens(&["1e3"]), tokens(&["7.5"])]);
}

#[test]
fn mtx_text_written_is_read_back() {
    let text = mtx::to_text(&sample_tokens(), &sample_bits(), 3, 10).unwrap();
    assert_eq!(
        mtx::from_text(&text, 3, 10),
        Ok((sample_bits(), sample_tokens()))
    );
}

#[test]
fn mtx_file_written_is_read_back() {
    let file = mtx::writer(sample_tokens(), sample_bits(), 3, 10).unwrap();
    let mut expr = Vec::new();
    let mut bit_vecs = Vec::new();
    assert_eq!(mtx::reader(&file, 3, 10, &mut expr, &mut bit_vecs), Ok(true));
    assert_eq!(bit_vecs, sample_bits());
    assert_eq!(expr, sample_tokens());
}

#[test]
fn mtx_reader_decompresses_before_it_reads() {
    let mut expr = Vec::new();
    let mut bit_vecs = Vec::new();
    assert_eq!(
        mtx::reader(&gzip(b"1 1 1\n1 1 5.0\n"), 1, 1, &mut expr, &mut bit_vecs),
        Ok(true)
    );
    assert_eq!(bit_vecs, vec![vec![0x80u8]]);
    assert_eq!(
        mtx::reader(&b"1 1 1\n1 1 5.0\n".to_vec(), 1, 1, &mut expr, &mut bit_vecs),
        Err(FormatError::Compression)
    );
    assert_eq!(bit_vecs.len(), 1);
    assert_eq!(expr.len(), 1);
}

#[test]
fn mtx_last_line_for_a_feature_wins() {
    let text = b"1 2 3\n1 2 a\n1 1 b\n1 2 c\n";
    let (bit_vecs, expr) = mtx::from_text(&text.to_vec(), 1, 2).unwrap();
    assert_eq!(bit_vecs, vec![vec![0xC0u8]]);
    assert_eq!(expr, vec![tokens(&["b", "c"])]);
}

#[test]
fn mtx_lines_may_lack_the_last_line_feed_and_hold_more_fields() {
    let text = b"2 2 1 extra\r\n  +2   +1\t9.5   more";
    let (bit_vecs, expr) = mtx::from_text(&text.to_vec(), 2, 2).unwrap();
    assert_eq!(bit_vecs, vec![vec![0x00u8], vec![0x80u8]]);
    assert_eq!(expr, vec![tokens(&[]), tokens(&["9.5"])]);
}

#[test]
fn mtx_reading_names_the_fault() {
    let read = |text: &str| mtx::from_text(&text.as_bytes().to_vec(), 2, 3);
    assert_eq!(read(""), Err(FormatError::NoSizeLine));
    assert_eq!(read("% only a comment\n"), Err(FormatError::NoSizeLine));
    assert_eq!(
        read("3 3 0\n"),
        Err(FormatError::Dimensions {
            expected_cells: 2,
            expected_features: 3,
            found_cells: 3,
            found_features: 3
        })
    );
    assert_eq!(
        read("2 4 0\n"),
        Err(FormatError::Dimensions {
            expected_cells: 2,
            expected_features: 3,
            found_cells: 2,
            found_features: 4
        })
    );
    assert_eq!(read("2 3\n"), Err(FormatError::Syntax { line: 1 }));
    assert_eq!(read("\n2 3 1\n"), Err(FormatError::Syntax { line: 1 }));
    assert_eq!(read("2 3 1\n\n"), Err(FormatError::Syntax { line: 2 }));
    assert_eq!(read("%c\n2 3 1\n1 x 1\n"), Err(FormatError::Syntax { line: 3 }));
    assert_eq!(read("2 3 1\n1 -1 1\n"), Err(FormatError::Syntax { line: 2 }));
    assert_eq!(read("2 3 1\n0 1 1\n"), Err(FormatError::Syntax { line: 2 }));
    assert_eq!(read("2 3 1\n1 0 1\n"), Err(FormatError::Syntax { line: 2 }));
    assert_eq!(
        read("2 3 1\n1 4294967296 1\n"),
        Err(FormatError::Syntax { line: 2 })
    );
    assert_eq!(
        read("2 3 1\n3 1 1\n"),
        Err(FormatError::CellRange { cell: 2, limit: 2 })
    );
    assert_eq!(
        read("2 3 1\n2 4 1\n"),
        Err(FormatError::FeatureRange { feature: 3, limit: 3 })
    );
    assert_eq!(
        read("2 3 1\n2 4 1\n3 1 1\n"),
        Err(FormatError::FeatureRange { feature: 3, limit: 3 })
    );
}

#[test]
fn lines_and_fields_of_a_text() {
    assert_eq!(split_lines(&b"".to_vec()), Vec::<Vec<u8>>::new());
    assert_eq!(split_lines(&b"\n".to_vec()), vec![b"".to_vec()]);
    assert_eq!(
        split_lines(&b"a\n\nbc".to_vec()),
        vec![b"a".to_vec(), b"".to_vec(), b"bc".to_vec()]
    );
    assert_eq!(split_lines(&b"a\n".to_vec()), vec![b"a".to_vec()]);
    let line = b"  ab\tc ".to_vec();
    assert_eq!(next_field(&line, 0), (2, 4));
    assert_eq!(next_field(&line, 4), (5, 6));
    assert_eq!(next_field(&line, 6), (7, 7));
}

#[test]
fn numbers_are_digits_after_a_plus_sign_or_none() {
    let parse = |text: &str, limit: usize| {
        let line = text.as_bytes().to_vec();
        parse_number(&line, 0, line.len(), limit)
    };
    assert_eq!(parse("0", 10), Some(0));
    assert_eq!(parse("007", 10), Some(7));
    assert_eq!(parse("+10", 10), Some(10));
    assert_eq!(parse("11", 10), None);
    assert_eq!(parse("", 10), None);
    assert_eq!(parse("+", 10), None);
    assert_eq!(parse("-1", 10), None);
    assert_eq!(parse("1.0", 10), None);
    assert_eq!(parse("++1", 10), None);
    assert_eq!(parse(&usize::MAX.to_string(), usize::MAX), Some(usize::MAX));
    assert_eq!(parse(&format!("{}0", usize::MAX), usize::MAX), None);
    assert_eq!(parse("99999999999999999999999999", usize::MAX), None);
}

#[test]
fn csv_text_of_a_matrix() {
    let text = csv::to_text(&sample_tokens(), &sample_bits(), 3, 10).unwrap();
    assert_eq!(
        String::from_utf8(text).unwrap(),
        "\"\",gene1,gene2,gene3,gene4,gene5,gene6,gene7,gene8,gene9,gene10\n\
         cell1,2,0,0,0,0,0,0,0,0,0\n\
         cell2,1,3,0,0,0,0,0,0,0,0.5\n\
         cell3,0,0,0,0,0,0,0,0,0,0\n"
    );
}

#[test]
fn csv_text_without_cells_or_features() {
    assert_eq!(csv::to_text(&Vec::new(), &Vec::new(), 0, 2), Ok(b"\"\",gene1,gene2\n".to_vec()));
    assert_eq!(
        csv::to_text(&vec![tokens(&[])], &vec![Vec::new()], 1, 0),
        Ok(b"\"\"\ncell1\n".to_vec())
    );
}

#[test]
fn csv_writer_names_the_fault() {
    assert_eq!(
        csv::to_text(&sample_tokens(), &sample_bits(), 3, 9),
        Err(FormatError::FeatureRange { feature: 9, limit: 9 })
    );
    assert_eq!(
        csv::writer(vec![tokens(&["1", "2"])], vec![vec![0x80u8]], 1, 8),
        Err(FormatError::ValueCount { expected: 1, found: 2 })
    );
}

#[test]
fn csv_writer_compresses_the_text() {
    let file = csv::writer(sample_tokens(), sample_bits(), 3, 10).unwrap();
    let text = csv::to_text(&sample_tokens(), &sample_bits(), 3, 10).unwrap();
    assert_eq!(&file[..2], &[0x1f, 0x8b]);
    assert_eq!(gunzip(&file), text);
}

#[test]
fn csv_records_to_dense_tokens() {
    let records = vec![
        tokens(&["", "gene1", "gene2"]),
        tokens(&["cell1", "0", "3.5"]),
        tokens(&["cell2", "7", "0"]),
    ];
    assert_eq!(
        csv::from_records(&records, 2, 2),
        Ok(vec![tokens(&["0", "3.5"]), tokens(&["7", "0"])])
    );
    assert_eq!(
        csv::from_records(&records, 3, 2),
        Err(FormatError::CellCount { expected: 3, found: 2 })
    );
    assert_eq!(
        csv::from_records(&records, 2, 3),
        Err(FormatError::RowLength { expected: 3, found: 2 })
    );
    assert_eq!(
        csv::from_records(&Vec::new(), 0, 0),
        Err(FormatError::CellCount { expected: 0, found: 0 })
    );
    assert_eq!(
        csv::from_records(&vec![tokens(&[""]), Vec::new()], 1, 0),
        Err(FormatError::RowLength { expected: 0, found: 0 })
    );
}

#[test]
fn csv_file_written_is_read_back_densely() {
    let file = csv::writer(sample_tokens(), sample_bits(), 3, 10).unwrap();
    let dense = csv::reader(&file, 3, 10).unwrap();
    assert_eq!(
        dense,
        vec![
            tokens(&["2", "0", "0", "0", "0", "0", "0", "0", "0", "0"]),
            tokens(&["1", "3", "0", "0", "0", "0", "0", "0", "0", "0.5"]),
            tokens(&["0", "0", "0", "0", "0", "0", "0", "0", "0", "0"]),
        ]
    );
    let numbers: Vec<Vec<u32>> = dense
        .iter()
        .map(|row| {
            row.iter()
                .map(|t| std::str::from_utf8(t).unwrap().parse::<f32>().unwrap().to_bits())
                .collect()
        })
        .collect();
    let from_eds = eds::csv::eds_sparse_to_dense(3, 10, sample_bits(), sample_values());
    assert_eq!(from_eds, Ok(numbers));
}

#[test]
fn csv_reader_names_the_fault() {
    assert_eq!(
        csv::reader(&b"cell1,1\n".to_vec(), 1, 1),
        Err(FormatError::Compression)
    );
    assert_eq!(
        csv::reader(&gzip(b"\"\",gene1\ncell1,1,2\n"), 1, 1),
        Err(FormatError::Malformed)
    );
    assert_eq!(
        csv::reader(&gzip(b"\"\",gene1\ncell1,1\n"), 2, 1),
        Err(FormatError::CellCount { expected: 2, found: 1 })
    );
    assert_eq!(
        csv::reader(&gzip(b"\"\",\"gene,1\"\ncell1,\"1\"\n"), 1, 1),
        Ok(vec![tokens(&["1"])])
    );
}

#[test]
fn h5_layout_of_a_matrix() {
    let layout = h5::writer(sample_values(), sample_bits(), 3, 10).unwrap();
    assert_eq!(layout.shape, vec![10u64, 3]);
    assert_eq!(layout.indptr, vec![0u32, 1, 4, 4]);
    assert_eq!(layout.data, bits(&[2.0, 1.0, 3.0, 0.5]));
    assert_eq!(layout.indices, vec![0u32, 0, 1, 9]);
}

#[test]
fn h5_layout_of_an_empty_matrix() {
    let layout = h5::writer(Vec::new(), Vec::new(), 0, 5).unwrap();
    assert_eq!(layout.shape, vec![5u64, 0]);
    assert_eq!(layout.indptr, vec![0u32]);
    assert!(layout.data.is_empty());
    assert!(layout.indices.is_empty());
}

#[test]
fn h5_layout_names_the_fault() {
    assert_eq!(
        h5::writer(sample_values(), sample_bits(), 3, 9),
        Err(FormatError::FeatureRange { feature: 9, limit: 9 })
    );
    assert_eq!(
        h5::writer(sample_values(), sample_bits(), 2, 10),
        Err(FormatError::CellCount { expected: 2, found: 3 })
    );
    assert_eq!(
        h5::writer(vec![bits(&[1.0])], vec![vec![0x00u8, 0x00]], 1, 10),
        Err(FormatError::ValueCount { expected: 0, found: 1 })
    );
}

#[test]
fn h5_layout_counts_in_32_bits() {
    let limit = u32::MAX as usize;
    assert!(h5::writer(Vec::new(), Vec::new(), 0, limit).is_ok());
    if let Some(more) = limit.checked_add(1) {
        assert_eq!(
            h5::writer(Vec::new(), Vec::new(), 0, more),
            Err(FormatError::TooLarge { limit })
        );
    }
}

#[test]
fn writers_under_one_roof_write_the_same_files() {
    assert_eq!(
        eds::write::write_mtx(sample_tokens(), sample_bits(), 3, 10),
        mtx::writer(sample_tokens(), sample_bits(), 3, 10)
    );
    assert_eq!(
        eds::write::write_csv(sample_tokens(), sample_bits(), 3, 10),
        csv::writer(sample_tokens(), sample_bits(), 3, 10)
    );
    assert_eq!(
        eds::write::write_h5(sample_values(), sample_bits(), 3, 10),
        h5::writer(sample_values(), sample_bits(), 3, 10)
    );
    assert_eq!(
        eds::write::write_mtx(sample_tokens(), sample_bits(), 3, 8),
        Err(FormatError::RowLength { expected: 1, found: 2 })
    );
}

#[test]
fn read_eds_reads_the_binary_form() {
    let file = binary::writer(sample_values(), sample_bits(), 3, 10).unwrap();
    let mut expr = Vec::new();
    let mut bit_vecs = Vec::new();
    assert_eq!(
        eds::parse::read_eds(&file, 3, 10, &mut expr, &mut bit_vecs),
        Ok(true)
    );
    assert_eq!(bit_vecs, sample_bits());
    assert_eq!(expr, sample_values());
    assert_eq!(
        eds::parse::read_eds(&file, 3, 20, &mut expr, &mut bit_vecs),
        Err(FormatError::TruncatedValues { expected: 2, found: 1 })
    );
}

#[test]
fn eds_values_are_read_least_significant_byte_first() {
    let bytes = vec![0xA0u8, 0x04, 0x03, 0x02, 0x01, 0x00, 0x00, 0x80, 0x3F];
    let (bit_vecs, values) = binary::from_bytes(&bytes, 1, 8).unwrap();
    assert_eq!(bit_vecs, vec![vec![0xA0u8]]);
    assert_eq!(values, vec![vec![0x0102_0304u32, 1.0f32.to_bits()]]);
}

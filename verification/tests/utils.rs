use eds::error::FormatError;
use eds::utils::{
    check_fits, count_known_endings, find, find_output_format, get_output_path, identity_order,
    input_file_type, is_same_type, randomize, read_file, reorder, write_file, FileType, Output,
    Values,
};

#[test]
fn output_path_of_an_eds_file() {
    assert_eq!(
        get_output_path("quants_mat.eds.gz", FileType::MTX),
        (FileType::EDS, "quants_mat.mtx.gz".to_string())
    );
    assert_eq!(
        get_output_path("dir.d/quants_mat.eds.gz", FileType::CSV),
        (FileType::EDS, "dir.d/quants_mat.csv.gz".to_string())
    );
    assert_eq!(
        get_output_path("quants_mat.eds.gz", FileType::H5),
        (FileType::EDS, "quants_mat.h5".to_string())
    );
}

#[test]
fn output_path_of_other_files() {
    assert_eq!(
        get_output_path("quants_mat.mtx.gz", FileType::EDS),
        (FileType::MTX, "quants_mat.eds.gz".to_string())
    );
    assert_eq!(
        get_output_path("a.csv.gz", FileType::H5),
        (FileType::CSV, "a.h5".to_string())
    );
    assert_eq!(
        get_output_path("a.h5", FileType::MTX),
        (FileType::H5, "a.mtx.gz".to_string())
    );
    assert_eq!(
        get_output_path("in.eds/a.mtx", FileType::CSV),
        (FileType::MTX, "in.eds/a.csv.gz".to_string())
    );
}

#[test]
fn output_path_without_a_known_ending() {
    assert_eq!(
        get_output_path("quants", FileType::MTX),
        (FileType::EDS, "quants.mtx.gz".to_string())
    );
    assert_eq!(
        get_output_path("", FileType::Dummy(".random".to_string())),
        (FileType::EDS, ".random".to_string())
    );
}

#[test]
fn output_path_with_a_name_of_its_own() {
    assert_eq!(
        get_output_path("quants_mat.eds.gz", FileType::Dummy(".random".to_string())),
        (FileType::EDS, "quants_mat.random".to_string())
    );
    assert_eq!(
        get_output_path("zellen_\u{e4}\u{f6}.mtx.gz", FileType::Dummy("-x".to_string())),
        (FileType::MTX, "zellen_\u{e4}\u{f6}-x".to_string())
    );
}

#[test]
fn find_gives_the_first_place_or_the_length() {
    assert_eq!(find("a.eds.eds", ".eds"), 1);
    assert_eq!(find("a.ed", ".eds"), 4);
    assert_eq!(find("", ".eds"), 0);
    assert_eq!(find("\u{e4}.h5", ".h5"), 1);
    assert_eq!(find(".h5", ".h5"), 0);
}

#[test]
fn the_one_output_format_asked_for() {
    assert_eq!(find_output_format(true, false, false, false), FileType::MTX);
    assert_eq!(find_output_format(false, true, false, false), FileType::CSV);
    assert_eq!(find_output_format(false, false, true, false), FileType::H5);
    assert_eq!(find_output_format(false, false, false, true), FileType::EDS);
}

fn cells(n: usize) -> (Vec<Vec<u8>>, Vec<Vec<u32>>) {
    let bit_vecs = (0..n).map(|i| vec![i as u8, 0x80]).collect();
    let alphas = (0..n).map(|i| vec![i as u32; (i as u8).count_ones() as usize + 1]).collect();
    (bit_vecs, alphas)
}

#[test]
fn cells_in_a_given_order() {
    let (bit_vecs, alphas) = cells(4);
    let (b, a) = reorder(&bit_vecs, &alphas, &vec![2, 0, 3, 1]).unwrap();
    assert_eq!(b, vec![vec![2u8, 0x80], vec![0, 0x80], vec![3, 0x80], vec![1, 0x80]]);
    assert_eq!(a, vec![vec![2u32, 2], vec![0], vec![3, 3, 3], vec![1, 1]]);
    assert_eq!(reorder(&bit_vecs, &alphas, &Vec::new()), Ok((Vec::new(), Vec::new())));
    assert_eq!(identity_order(3), vec![0, 1, 2]);
    assert_eq!(
        reorder(&bit_vecs, &alphas, &identity_order(4)),
        Ok((bit_vecs.clone(), alphas.clone()))
    );
}

#[test]
fn an_order_that_names_a_missing_cell_is_turned_down() {
    let (bit_vecs, alphas) = cells(4);
    assert_eq!(
        reorder(&bit_vecs, &alphas, &vec![2, 4, 9]),
        Err(FormatError::CellRange { cell: 4, limit: 4 })
    );
    assert_eq!(
        reorder(&bit_vecs, &alphas[..3].to_vec(), &vec![0]),
        Err(FormatError::CellCount { expected: 4, found: 3 })
    );
}

#[test]
fn randomize_keeps_the_cells_and_their_values_together() {
    let (bit_vecs, alphas) = cells(100);
    let (b, a) = randomize(bit_vecs.clone(), alphas.clone()).unwrap();
    assert_eq!(b.len(), 100);
    assert_eq!(a.len(), 100);
    let mut seen = vec![false; 100];
    for (bit_vec, values) in b.iter().zip(a.iter()) {
        let cell = bit_vec[0] as usize;
        assert!(!seen[cell]);
        seen[cell] = true;
        assert_eq!(bit_vec, &bit_vecs[cell]);
        assert_eq!(values, &alphas[cell]);
    }
    assert!(seen.iter().all(|s| *s));
    assert_ne!(b, bit_vecs);
}

#[test]
fn randomize_wants_as_many_value_lists_as_bit_vectors() {
    let (bit_vecs, alphas) = cells(3);
    assert_eq!(
        randomize(bit_vecs, alphas[..2].to_vec()),
        Err(FormatError::CellCount { expected: 3, found: 2 })
    );
    assert_eq!(randomize(Vec::new(), Vec::new()), Ok((Vec::new(), Vec::new())));
}

#[test]
fn known_endings_of_a_path() {
    assert_eq!(count_known_endings("a.eds.gz"), 0);
    assert_eq!(count_known_endings("a.mtx.gz"), 1);
    assert_eq!(count_known_endings("a.h5"), 1);
    assert_eq!(count_known_endings("a.csv.mtx"), 2);
    assert_eq!(count_known_endings(".h5.csv.mtx.eds"), 3);
    assert_eq!(input_file_type("a.eds.gz"), FileType::EDS);
    assert_eq!(input_file_type("a"), FileType::EDS);
    assert_eq!(input_file_type("a.mtx.gz"), FileType::MTX);
    assert_eq!(input_file_type("a.h5"), FileType::H5);
    assert_eq!(input_file_type("a.csv.gz"), FileType::CSV);
    assert_eq!(input_file_type("a.mtx.h5.csv"), FileType::CSV);
    assert_eq!(input_file_type("a.mtx.h5"), FileType::H5);
}

#[test]
fn kinds_are_the_same_by_their_names() {
    assert!(is_same_type(&FileType::EDS, &FileType::EDS));
    assert!(is_same_type(&FileType::H5, &FileType::H5));
    assert!(!is_same_type(&FileType::MTX, &FileType::CSV));
    assert!(is_same_type(
        &FileType::Dummy(".random".to_string()),
        &FileType::Dummy(".random".to_string())
    ));
    assert!(!is_same_type(
        &FileType::Dummy(".random".to_string()),
        &FileType::Dummy(".other".to_string())
    ));
    assert!(!is_same_type(&FileType::Dummy(".eds".to_string()), &FileType::EDS));
}

fn small_matrix() -> (Vec<Vec<u8>>, Vec<Vec<u32>>, Vec<Vec<Vec<u8>>>) {
    (
        vec![vec![0x80u8], vec![0xC0u8]],
        vec![vec![2.0f32.to_bits()], vec![1.0f32.to_bits(), 3.0f32.to_bits()]],
        vec![vec![b"2".to_vec()], vec![b"1".to_vec(), b"3".to_vec()]],
    )
}

#[test]
fn values_fit_the_kinds_that_hold_them() {
    let (_, patterns, tokens) = small_matrix();
    let patterns = Values::Patterns(patterns);
    let tokens = Values::Tokens(tokens);
    assert!(check_fits(&FileType::EDS, &patterns));
    assert!(check_fits(&FileType::H5, &patterns));
    assert!(check_fits(&FileType::MTX, &tokens));
    assert!(check_fits(&FileType::CSV, &tokens));
    assert!(!check_fits(&FileType::EDS, &tokens));
    assert!(!check_fits(&FileType::CSV, &patterns));
    assert!(!check_fits(&FileType::Dummy(".random".to_string()), &patterns));
    assert!(!check_fits(&FileType::Dummy(".random".to_string()), &tokens));
}

#[test]
fn write_file_writes_the_kind_asked_for() {
    let (bit_vecs, patterns, tokens) = small_matrix();
    assert_eq!(
        write_file(FileType::EDS, bit_vecs.clone(), Values::Patterns(patterns.clone()), 2, 8),
        eds::eds::writer(patterns.clone(), bit_vecs.clone(), 2, 8).map(Output::Bytes)
    );
    assert_eq!(
        write_file(FileType::H5, bit_vecs.clone(), Values::Patterns(patterns.clone()), 2, 8),
        eds::h5::writer(patterns.clone(), bit_vecs.clone(), 2, 8).map(Output::Layout)
    );
    assert_eq!(
        write_file(FileType::MTX, bit_vecs.clone(), Values::Tokens(tokens.clone()), 2, 8),
        eds::mtx::writer(tokens.clone(), bit_vecs.clone(), 2, 8).map(Output::Bytes)
    );
    assert_eq!(
        write_file(FileType::CSV, bit_vecs.clone(), Values::Tokens(tokens.clone()), 2, 8),
        eds::csv::writer(tokens.clone(), bit_vecs.clone(), 2, 8).map(Output::Bytes)
    );
    assert_eq!(
        write_file(FileType::CSV, bit_vecs, Values::Tokens(tokens), 3, 8),
        Err(FormatError::CellCount { expected: 3, found: 2 })
    );
}

#[test]
fn read_file_reads_what_write_file_wrote() {
    let (bit_vecs, patterns, tokens) = small_matrix();
    let file = match write_file(
        FileType::EDS,
        bit_vecs.clone(),
        Values::Patterns(patterns.clone()),
        2,
        8,
    ) {
        Ok(Output::Bytes(file)) => file,
        other => panic!("{:?}", other),
    };
    assert_eq!(
        read_file(&file, FileType::EDS, 2, 8),
        Ok((bit_vecs.clone(), Values::Patterns(patterns)))
    );
    assert_eq!(
        read_file(&file, FileType::MTX, 2, 8),
        Err(FormatError::Syntax { line: 1 })
    );
    let file = match write_file(FileType::MTX, bit_vecs.clone(), Values::Tokens(tokens.clone()), 2, 8)
    {
        Ok(Output::Bytes(file)) => file,
        other => panic!("{:?}", other),
    };
    assert_eq!(
        read_file(&file, FileType::MTX, 2, 8),
        Ok((bit_vecs, Values::Tokens(tokens)))
    );
    assert_eq!(
        read_file(&vec![1, 2, 3], FileType::EDS, 2, 8),
        Err(FormatError::Compression)
    );
}

use label_remap::{Counter, Remap};
use std::io::BufRead;
use std::io::Read;
use std::io::Write;
use tempfile::NamedTempFile;

/// Runs both passes over the input file, line by line, and writes the
/// rewritten records and the mapping to the two other files.
fn run(input: &NamedTempFile, output: &mut NamedTempFile, mapping: &mut NamedTempFile, min_hits: usize) {
    let mut counter = Counter::new();
    let mut reader = std::io::BufReader::new(input.reopen().unwrap());
    let mut line = String::new();
    while reader.read_line(&mut line).unwrap() > 0 {
        counter.count_line(&line).unwrap();
        line.clear();
    }

    let remap = Remap::build(&counter, min_hits);
    mapping.write_all(remap.mapping_text().as_bytes()).unwrap();
    mapping.flush().unwrap();

    let mut reader = std::io::BufReader::new(input.reopen().unwrap());
    let mut line = String::new();
    while reader.read_line(&mut line).unwrap() > 0 {
        let rewritten = remap.rewrite_line(&line).unwrap();
        output.write_all(rewritten.as_bytes()).unwrap();
        line.clear();
    }
    output.flush().unwrap();
}

#[test]
fn basic_test() {
    // {0 5 7} {5 0 7 8 2} {0 1 2 3 4 5}
    // Min hits = 2
    // Should keep 0, 2, 5, 7

    let input_data = b"1 0 5 7\n2 5 0 7 8 2\n0 0 1 2 3 4 5\n";
    let mut input_file = NamedTempFile::new().unwrap();
    input_file.write_all(input_data).unwrap();
    input_file.flush().unwrap();

    let mut output_file = NamedTempFile::new().unwrap();
    let mut mapping_file = NamedTempFile::new().unwrap();
    let min_hits = 2;
    run(&input_file, &mut output_file, &mut mapping_file, min_hits);

    // Read all bytes from the output files
    let mut output_bytes = Vec::<u8>::new();
    output_file.reopen().unwrap().read_to_end(&mut output_bytes).unwrap();
    let mut mapping_bytes = Vec::<u8>::new();
    mapping_file.reopen().unwrap().read_to_end(&mut mapping_bytes).unwrap();

    println!("Output bytes: {:?}", String::from_utf8(output_bytes.clone()).unwrap());
    println!("Mapping bytes: {:?}", String::from_utf8(mapping_bytes.clone()).unwrap());

    assert_eq!(output_bytes, b"1 0 2 3\n2 2 0 3 1\n0 0 1 2\n");
    assert_eq!(
        mapping_bytes,
        format!("{}\t{}\n{}\t{}\n{}\t{}\n{}\t{}\n", 0, 0, 1, 2, 2, 5, 3, 7).as_bytes()
    );
}

#[test]
fn an_unterminated_last_line_is_a_record_too() {
    let mut input_file = NamedTempFile::new().unwrap();
    input_file.write_all(b"a 4 4\nb 4 9").unwrap();
    input_file.flush().unwrap();
    let mut output_file = NamedTempFile::new().unwrap();
    let mut mapping_file = NamedTempFile::new().unwrap();
    run(&input_file, &mut output_file, &mut mapping_file, 1);

    let mut output = String::new();
    output_file.reopen().unwrap().read_to_string(&mut output).unwrap();
    let mut mapping = String::new();
    mapping_file.reopen().unwrap().read_to_string(&mut mapping).unwrap();
    assert_eq!(output, "a 0 0\nb 0 1\n");
    assert_eq!(mapping, "0\t4\n1\t9\n");
}

#[test]
fn an_empty_file_gives_two_empty_files() {
    let input_file = NamedTempFile::new().unwrap();
    let mut output_file = NamedTempFile::new().unwrap();
    let mut mapping_file = NamedTempFile::new().unwrap();
    run(&input_file, &mut output_file, &mut mapping_file, 0);

    let mut output_bytes = Vec::<u8>::new();
    output_file.reopen().unwrap().read_to_end(&mut output_bytes).unwrap();
    let mut mapping_bytes = Vec::<u8>::new();
    mapping_file.reopen().unwrap().read_to_end(&mut mapping_bytes).unwrap();
    assert!(output_bytes.is_empty());
    assert!(mapping_bytes.is_empty());
}

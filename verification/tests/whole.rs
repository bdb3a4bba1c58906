use label_remap::{remap_lines, ParseError, RemapError, Remapped};

fn lines_of(text: &str) -> Vec<String> {
    text.split_inclusive('\n').map(|line| line.to_string()).collect()
}

#[test]
fn remap_lines_renumbers_the_kept_labels() {
    let input = lines_of("1 0 5 7\n2 5 0 7 8 2\n0 0 1 2 3 4 5\n");
    let out = remap_lines(&input, 2).unwrap();
    assert_eq!(out.lines, vec!["1 0 2 3\n", "2 2 0 3 1\n", "0 0 1 2\n"]);
    assert_eq!(out.lines.concat(), "1 0 2 3\n2 2 0 3 1\n0 0 1 2\n");
    assert_eq!(out.mapping, "0\t0\n1\t2\n2\t5\n3\t7\n");
}

#[test]
fn remap_lines_with_other_thresholds() {
    let input = lines_of("1 0 5 7\n2 5 0 7 8 2\n0 0 1 2 3 4 5\n");
    let all = remap_lines(&input, 1).unwrap();
    assert_eq!(all.lines.concat(), "1 0 5 6\n2 5 0 6 7 2\n0 0 1 2 3 4 5\n");
    assert_eq!(all.mapping, "0\t0\n1\t1\n2\t2\n3\t3\n4\t4\n5\t5\n6\t7\n7\t8\n");
    let zero = remap_lines(&input, 0).unwrap();
    assert_eq!(zero, all);
    let three = remap_lines(&input, 3).unwrap();
    assert_eq!(three.lines.concat(), "1 0 1\n2 1 0\n0 0 1\n");
    assert_eq!(three.mapping, "0\t0\n1\t5\n");
    let four = remap_lines(&input, 4).unwrap();
    assert_eq!(four.lines.concat(), "1\n2\n0\n");
    assert_eq!(four.mapping, "");
}

#[test]
fn no_lines_give_no_lines_and_an_empty_mapping() {
    let out = remap_lines(&Vec::new(), 0).unwrap();
    assert_eq!(out, Remapped { lines: Vec::new(), mapping: String::new() });
    let out = remap_lines(&Vec::new(), 5).unwrap();
    assert_eq!(out, Remapped { lines: Vec::new(), mapping: String::new() });
}

#[test]
fn each_line_that_comes_in_gives_one_line_that_goes_out() {
    let input = lines_of("a 1\nb\nc 2 2\nd 1 3\ne\n");
    let out = remap_lines(&input, 2).unwrap();
    assert_eq!(out.lines.len(), input.len());
    assert_eq!(out.lines, vec!["a 0\n", "b\n", "c 1 1\n", "d 0\n", "e\n"]);
    assert_eq!(out.mapping, "0\t1\n1\t2\n");
}

#[test]
fn a_last_line_without_line_feed_goes_out_with_one() {
    let input = lines_of("a 4 4\nb 4 9");
    assert_eq!(input.len(), 2);
    let out = remap_lines(&input, 1).unwrap();
    assert_eq!(out.lines.concat(), "a 0 0\nb 0 1\n");
}

#[test]
fn the_first_line_that_is_no_record_stops_the_work() {
    let input = lines_of("a 1 2\nb 3 x\nc y\n");
    assert_eq!(
        remap_lines(&input, 1),
        Err(RemapError { line: 2, error: ParseError::InvalidLabel { index: 1 } })
    );
    let input = lines_of("a one\nb 3\n");
    assert_eq!(
        remap_lines(&input, 1),
        Err(RemapError { line: 1, error: ParseError::InvalidLabel { index: 0 } })
    );
}

#[test]
fn an_empty_line_stops_the_work() {
    let input = lines_of("a 1 2\nb 3\n\nc 4\n");
    assert_eq!(
        remap_lines(&input, 1),
        Err(RemapError { line: 3, error: ParseError::MissingIdentifier })
    );
    let input = lines_of("  \n");
    assert_eq!(
        remap_lines(&input, 0),
        Err(RemapError { line: 1, error: ParseError::MissingIdentifier })
    );
}

#[test]
fn identifiers_go_out_as_they_came_in() {
    let input = lines_of("read/1:a 3 3\n007 3\n+x 4\n");
    let out = remap_lines(&input, 2).unwrap();
    assert_eq!(out.lines, vec!["read/1:a 0 0\n", "007 0\n", "+x\n"]);
}

#[test]
fn the_same_lines_give_the_same_result() {
    let input = lines_of("a 1000 3 3 70\nb 70 1000 12\nc 5 5 5 12\n");
    let first = remap_lines(&input, 2).unwrap();
    for _ in 0..20 {
        assert_eq!(remap_lines(&input, 2).unwrap(), first);
    }
    assert_eq!(first.mapping, "0\t3\n1\t5\n2\t12\n3\t70\n4\t1000\n");
    assert_eq!(first.lines.concat(), "a 4 0 0 3\nb 3 4 2\nc 1 1 1 2\n");
}

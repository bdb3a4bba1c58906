use label_remap::{Counter, ParseError, Record, Remap};

fn remap_of(lines: &[&str], min_hits: usize) -> Remap {
    let mut counter = Counter::new();
    for line in lines {
        counter.count_line(line).unwrap();
    }
    Remap::build(&counter, min_hits)
}

fn example() -> Remap {
    remap_of(&["1 0 5 7\n", "2 5 0 7 8 2\n", "0 0 1 2 3 4 5\n"], 2)
}

#[test]
fn build_keeps_the_labels_that_meet_the_threshold() {
    let remap = example();
    assert_eq!(remap.kept_labels(), &vec![0, 2, 5, 7]);
    assert_eq!(remap.len(), 4);
}

#[test]
fn lookup_gives_the_rank_among_the_kept_labels() {
    let remap = example();
    assert_eq!(remap.lookup(0), Some(0));
    assert_eq!(remap.lookup(2), Some(1));
    assert_eq!(remap.lookup(5), Some(2));
    assert_eq!(remap.lookup(7), Some(3));
}

#[test]
fn lookup_gives_nothing_for_a_label_that_is_not_kept() {
    let remap = example();
    assert_eq!(remap.lookup(1), None);
    assert_eq!(remap.lookup(3), None);
    assert_eq!(remap.lookup(4), None);
    assert_eq!(remap.lookup(8), None);
}

#[test]
fn lookup_gives_nothing_for_a_label_that_was_never_seen() {
    let remap = example();
    assert_eq!(remap.lookup(6), None);
    assert_eq!(remap.lookup(9), None);
    assert_eq!(remap.lookup(1000), None);
    assert_eq!(remap.lookup(usize::MAX), None);
}

#[test]
fn old_label_gives_the_label_behind_a_new_number() {
    let remap = example();
    assert_eq!(remap.old_label(0), Some(0));
    assert_eq!(remap.old_label(1), Some(2));
    assert_eq!(remap.old_label(2), Some(5));
    assert_eq!(remap.old_label(3), Some(7));
    assert_eq!(remap.old_label(4), None);
    assert_eq!(remap.old_label(usize::MAX), None);
}

#[test]
fn entries_pair_each_new_number_with_its_old_label() {
    let remap = example();
    assert_eq!(remap.entries(), vec![(0, 0), (1, 2), (2, 5), (3, 7)]);
}

#[test]
fn mapping_text_has_a_line_for_each_kept_label() {
    let remap = example();
    assert_eq!(remap.mapping_text(), "0\t0\n1\t2\n2\t5\n3\t7\n");
}

#[test]
fn mapping_text_writes_numbers_of_several_digits() {
    let mut counter = Counter::new();
    for label in 0..12usize {
        counter.add_label(label * 100);
    }
    let remap = Remap::build(&counter, 1);
    assert_eq!(
        remap.mapping_text(),
        "0\t0\n1\t100\n2\t200\n3\t300\n4\t400\n5\t500\n6\t600\n7\t700\n8\t800\n9\t900\n10\t1000\n11\t1100\n"
    );
}

#[test]
fn the_new_numbers_are_dense() {
    let remap = remap_of(&["a 40 7 7 1000 3\n", "b 99999 40 3 12\n"], 1);
    let kept = remap.kept_labels().clone();
    assert_eq!(kept, vec![3, 7, 12, 40, 1000, 99999]);
    let numbers: Vec<usize> = kept.iter().map(|label| remap.lookup(*label).unwrap()).collect();
    assert_eq!(numbers, vec![0, 1, 2, 3, 4, 5]);
    let entries = remap.entries();
    for (place, entry) in entries.iter().enumerate() {
        assert_eq!(entry.0, place);
        assert_eq!(entry.1, kept[place]);
    }
}

#[test]
fn each_entry_names_a_label_that_meets_the_threshold_and_its_rank() {
    let lines = ["a 1 2 2 3 3 3 10 10 10 10\n", "b 10 3 8 8\n"];
    let mut counter = Counter::new();
    for line in lines {
        counter.count_line(line).unwrap();
    }
    for min_hits in 0..6usize {
        let remap = Remap::build(&counter, min_hits);
        for (new_index, old_label) in remap.entries() {
            assert!(counter.count(old_label) >= min_hits);
            assert!(counter.count(old_label) >= 1);
            let smaller = remap.kept_labels().iter().filter(|kept| **kept < old_label).count();
            assert_eq!(new_index, smaller);
            assert_eq!(remap.lookup(old_label), Some(new_index));
        }
    }
}

#[test]
fn rewrite_labels_replaces_kept_labels_and_drops_the_others() {
    let remap = example();
    assert_eq!(remap.rewrite_labels(&vec![0, 5, 7]), vec![0, 2, 3]);
    assert_eq!(remap.rewrite_labels(&vec![5, 0, 7, 8, 2]), vec![2, 0, 3, 1]);
    assert_eq!(remap.rewrite_labels(&vec![0, 1, 2, 3, 4, 5]), vec![0, 1, 2]);
    assert_eq!(remap.rewrite_labels(&vec![]), Vec::<usize>::new());
}

#[test]
fn rewrite_labels_keeps_the_order_and_the_repeats() {
    let remap = example();
    assert_eq!(remap.rewrite_labels(&vec![7, 7, 1, 0, 7, 3, 2, 0]), vec![3, 3, 0, 3, 1, 0]);
}

#[test]
fn rewritten_labels_turned_back_are_the_kept_labels_of_the_record() {
    let remap = example();
    let samples: Vec<Vec<usize>> = vec![
        vec![0, 5, 7],
        vec![5, 0, 7, 8, 2],
        vec![0, 1, 2, 3, 4, 5],
        vec![1, 3, 4, 8, 6],
        vec![7, 7, 7, 6, 2],
        vec![],
    ];
    for labels in samples {
        let survivors: Vec<usize> =
            labels.iter().copied().filter(|label| remap.kept_labels().contains(label)).collect();
        let back: Vec<usize> = remap
            .rewrite_labels(&labels)
            .iter()
            .map(|number| remap.old_label(*number).unwrap())
            .collect();
        assert_eq!(back, survivors);
    }
}

#[test]
fn rewrite_record_keeps_the_identifier() {
    let remap = example();
    let record = Record { id: "2".to_string(), labels: vec![5, 0, 7, 8, 2] };
    assert_eq!(
        remap.rewrite_record(&record),
        Record { id: "2".to_string(), labels: vec![2, 0, 3, 1] }
    );
}

#[test]
fn rewrite_line_writes_the_record_with_its_new_numbers() {
    let remap = example();
    assert_eq!(remap.rewrite_line("1 0 5 7\n"), Ok("1 0 2 3\n".to_string()));
    assert_eq!(remap.rewrite_line("2 5 0 7 8 2\n"), Ok("2 2 0 3 1\n".to_string()));
    assert_eq!(remap.rewrite_line("0 0 1 2 3 4 5\n"), Ok("0 0 1 2\n".to_string()));
}

#[test]
fn rewrite_line_ends_every_line_with_a_line_feed() {
    let remap = example();
    assert_eq!(remap.rewrite_line("x 7 5"), Ok("x 3 2\n".to_string()));
    assert_eq!(remap.rewrite_line("  x 7 5 \r\n"), Ok("x 3 2\n".to_string()));
}

#[test]
fn a_record_of_which_no_label_is_kept_goes_out_without_labels() {
    let remap = example();
    assert_eq!(remap.rewrite_line("9 1 3 4 8\n"), Ok("9\n".to_string()));
    assert_eq!(remap.rewrite_line("read_5 6 6 6\n"), Ok("read_5\n".to_string()));
    assert_eq!(remap.rewrite_line("lonely\n"), Ok("lonely\n".to_string()));
    let record = Record { id: "9".to_string(), labels: vec![1, 3] };
    assert_eq!(remap.rewrite_record(&record), Record { id: "9".to_string(), labels: vec![] });
}

#[test]
fn rewrite_line_refuses_a_line_that_is_no_record() {
    let remap = example();
    assert_eq!(remap.rewrite_line("\n"), Err(ParseError::MissingIdentifier));
    assert_eq!(remap.rewrite_line("a 0 five\n"), Err(ParseError::InvalidLabel { index: 1 }));
    assert_eq!(remap.rewrite_line("a -1\n"), Err(ParseError::InvalidLabel { index: 0 }));
}

#[test]
fn the_output_line_read_again_holds_the_rewritten_record() {
    let remap = example();
    let line = remap.rewrite_line("r7 5 0 7 8 2\n").unwrap();
    assert_eq!(
        label_remap::parse_record(&line),
        Ok(Record { id: "r7".to_string(), labels: vec![2, 0, 3, 1] })
    );
}

#[test]
fn nothing_is_kept_where_nothing_was_seen() {
    let remap = Remap::build(&Counter::new(), 0);
    assert_eq!(remap.len(), 0);
    assert_eq!(remap.kept_labels(), &Vec::<usize>::new());
    assert_eq!(remap.entries(), Vec::<(usize, usize)>::new());
    assert_eq!(remap.mapping_text(), "");
    assert_eq!(remap.lookup(0), None);
    assert_eq!(remap.old_label(0), None);
    assert_eq!(remap.rewrite_line("a 1 2\n"), Ok("a\n".to_string()));
}

#[test]
fn a_threshold_of_zero_keeps_all_labels_seen() {
    let remap = remap_of(&["a 9 3\n", "b 3\n"], 0);
    assert_eq!(remap.kept_labels(), &vec![3, 9]);
    assert_eq!(remap.lookup(0), None);
    assert_eq!(remap.rewrite_line("c 0 9 3 4\n"), Ok("c 1 0\n".to_string()));
}

#[test]
fn the_largest_machine_word_can_be_a_label() {
    let line = format!("x {} 1 {}\n", usize::MAX, usize::MAX);
    let remap = remap_of(&[&line], 2);
    assert_eq!(remap.kept_labels(), &vec![usize::MAX]);
    assert_eq!(remap.lookup(usize::MAX), Some(0));
    assert_eq!(remap.mapping_text(), format!("0\t{}\n", usize::MAX));
    assert_eq!(remap.rewrite_line(&line), Ok("x 0 0\n".to_string()));
}

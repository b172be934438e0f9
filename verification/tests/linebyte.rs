use hvrlogparser::linebyte::linebyte_split;
use hvrlogparser::output::OutputFile;

fn numbered_lines(count: usize) -> Vec<u8> {
    let mut input = Vec::new();
    for i in 1..=count {
        input.extend_from_slice(format!("line {}\n", i).as_bytes());
    }
    input
}

fn newlines(content: &[u8]) -> usize {
    content.iter().filter(|b| **b == 10).count()
}

fn joined(files: &[OutputFile]) -> Vec<u8> {
    let mut all = Vec::new();
    for f in files {
        all.extend_from_slice(&f.content);
    }
    all
}

#[test]
fn twenty_five_lines_in_chunks_of_ten() {
    let input = numbered_lines(25);
    let files = linebyte_split(&input, "part_", 1, 25, 10, "lines");
    assert_eq!(files.len(), 3);
    assert_eq!(files[0].name, "part_0.out");
    assert_eq!(files[1].name, "part_1.out");
    assert_eq!(files[2].name, "part_2.out");
    assert_eq!(newlines(&files[0].content), 10);
    assert_eq!(newlines(&files[1].content), 10);
    assert_eq!(newlines(&files[2].content), 5);
    assert!(files[0].content.starts_with(b"line 1\n"));
    assert!(files[1].content.starts_with(b"line 11\n"));
    assert!(files[2].content.ends_with(b"line 25\n"));
    assert_eq!(joined(&files), input);
}

#[test]
fn hundred_bytes_in_chunks_of_thirty() {
    let mut input = Vec::new();
    for _ in 0..14 {
        input.extend_from_slice(b"abcdef\n");
    }
    input.extend_from_slice(b"x\n");
    assert_eq!(input.len(), 100);
    let files = linebyte_split(&input, "part_", 1, u64::MAX, 30, "bytes");
    assert_eq!(files.len(), 3);
    assert_eq!(files[0].content.len(), 35);
    assert_eq!(files[1].content.len(), 35);
    assert_eq!(files[2].content.len(), 30);
    for f in &files {
        assert!(f.content.len() >= 30);
        assert_eq!(*f.content.last().unwrap(), 10);
    }
    assert_eq!(files[2].name, "part_2.out");
    assert_eq!(joined(&files), input);
}

#[test]
fn hundred_bytes_with_upper_bound_hundred() {
    let mut input = Vec::new();
    for _ in 0..14 {
        input.extend_from_slice(b"abcdef\n");
    }
    input.extend_from_slice(b"x\n");
    let files = linebyte_split(&input, "part_", 1, 100, 30, "bytes");
    assert_eq!(files.len(), 3);
    assert_eq!(joined(&files), input);
}

#[test]
fn inverted_range_gives_no_file() {
    let input = numbered_lines(25);
    assert_eq!(linebyte_split(&input, "part_", 5, 3, 10, "lines").len(), 0);
    assert_eq!(linebyte_split(&input, "part_", 5, 3, 10, "bytes").len(), 0);
}

#[test]
fn lines_before_the_lower_bound_are_skipped() {
    let input = numbered_lines(5);
    let files = linebyte_split(&input, "seg_", 3, 4, 10, "lines");
    assert_eq!(files.len(), 1);
    assert_eq!(files[0].name, "seg_0.out");
    assert_eq!(files[0].content, b"line 3\nline 4\n".to_vec());
}

#[test]
fn bytes_before_the_lower_bound_are_skipped_and_the_line_is_completed() {
    let input = b"abcdefgh\nij\n".to_vec();
    let files = linebyte_split(&input, "seg_", 3, 4, 10, "bytes");
    assert_eq!(files.len(), 1);
    assert_eq!(files[0].content, b"cdefgh\n".to_vec());
}

#[test]
fn upper_bound_behind_the_input_ends_with_the_input() {
    let input = b"one\ntwo\nthree".to_vec();
    let files = linebyte_split(&input, "seg_", 1, u64::MAX, 2, "lines");
    assert_eq!(files.len(), 2);
    assert_eq!(files[0].content, b"one\ntwo\n".to_vec());
    assert_eq!(files[1].content, b"three".to_vec());
}

#[test]
fn lower_bound_behind_the_input_gives_no_file() {
    let input = numbered_lines(3);
    assert_eq!(linebyte_split(&input, "seg_", 10, 20, 2, "lines").len(), 0);
    assert_eq!(linebyte_split(&input, "seg_", 1000, 2000, 2, "bytes").len(), 0);
}

#[test]
fn empty_input_gives_no_file() {
    let input: Vec<u8> = Vec::new();
    assert_eq!(linebyte_split(&input, "seg_", 1, u64::MAX, 10, "lines").len(), 0);
    assert_eq!(linebyte_split(&input, "seg_", 1, u64::MAX, 10, "bytes").len(), 0);
}

#[test]
fn chunk_size_zero_puts_the_range_into_one_file() {
    let input = numbered_lines(7);
    let files = linebyte_split(&input, "seg_", 2, 6, 0, "lines");
    assert_eq!(files.len(), 1);
    assert_eq!(newlines(&files[0].content), 5);
    assert!(files[0].content.starts_with(b"line 2\n"));
    assert!(files[0].content.ends_with(b"line 6\n"));
}

#[test]
fn lower_bound_zero_counts_one_unit_more() {
    let input = numbered_lines(7);
    let files = linebyte_split(&input, "seg_", 0, 2, 10, "lines");
    assert_eq!(files.len(), 1);
    assert_eq!(files[0].content, b"line 1\nline 2\nline 3\n".to_vec());
}

#[test]
fn unknown_method_gives_no_file() {
    let input = numbered_lines(7);
    assert_eq!(linebyte_split(&input, "seg_", 1, 7, 2, "words").len(), 0);
}

#[test]
fn byte_chunk_that_ends_on_a_terminator_takes_the_next_line_too() {
    let input = b"ab\ncd\nef\n".to_vec();
    let files = linebyte_split(&input, "seg_", 1, u64::MAX, 3, "bytes");
    assert_eq!(files.len(), 2);
    assert_eq!(files[0].content, b"ab\ncd\n".to_vec());
    assert_eq!(files[1].content, b"ef\n".to_vec());
}

#[test]
fn byte_chunks_without_a_final_terminator() {
    let input = b"abcd\nefgh".to_vec();
    let files = linebyte_split(&input, "seg_", 1, u64::MAX, 2, "bytes");
    assert_eq!(files.len(), 2);
    assert_eq!(files[0].content, b"abcd\n".to_vec());
    assert_eq!(files[1].content, b"efgh".to_vec());
}

#[test]
fn file_numbers_are_written_in_decimal() {
    let input = numbered_lines(12);
    let files = linebyte_split(&input, "log-", 1, 12, 1, "lines");
    assert_eq!(files.len(), 12);
    assert_eq!(files[9].name, "log-9.out");
    assert_eq!(files[10].name, "log-10.out");
    assert_eq!(files[11].name, "log-11.out");
    assert_eq!(files[11].content, b"line 12\n".to_vec());
}

#[test]
fn line_files_put_together_are_the_range() {
    let input = numbered_lines(23);
    let files = linebyte_split(&input, "seg_", 4, 20, 3, "lines");
    let mut expected = Vec::new();
    for i in 4..=20 {
        expected.extend_from_slice(format!("line {}\n", i).as_bytes());
    }
    assert_eq!(joined(&files), expected);
    assert_eq!(files.len(), 6);
    for f in &files[..5] {
        assert_eq!(newlines(&f.content), 3);
        assert_eq!(*f.content.last().unwrap(), 10);
    }
    assert_eq!(newlines(&files[5].content), 2);
}

#[test]
fn byte_files_put_together_are_a_stretch_of_whole_lines() {
    let input = numbered_lines(30);
    let files = linebyte_split(&input, "seg_", 10, 90, 25, "bytes");
    let all = joined(&files);
    assert_eq!(&input[9..9 + all.len()], &all[..]);
    assert!(all.len() >= 81);
    for f in &files {
        assert!(!f.content.is_empty());
        assert_eq!(*f.content.last().unwrap(), 10);
    }
}

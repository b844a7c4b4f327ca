use sourcefile::{Position, SourceFile, Span};

fn build(files: &[&str]) -> (SourceFile, Vec<String>) {
    let mut sourcefile = SourceFile::new();
    let mut names = Vec::new();
    for (i, contents) in files.iter().enumerate() {
        let name = format!("file{}.txt", i);
        sourcefile.add_file_raw(&name, contents);
        names.push(name);
    }
    (sourcefile, names)
}

fn check_files(
    files: &[&str],
    offset_tests: &[(usize, (usize, usize, usize))],
    offset_span_tests: &[((usize, usize), (usize, usize, usize), (usize, usize, usize))],
) {
    let (sourcefile, names) = build(files);
    for &(offset, (file_idx, line, col)) in offset_tests {
        let pos = sourcefile.resolve_offset(offset);
        assert_eq!(pos.unwrap(), Position::new(&names[file_idx], line, col));
    }
    for &((start, end), (fs, ls, cs), (fe, le, ce)) in offset_span_tests {
        assert_eq!(
            sourcefile.resolve_offset_span(start, end).unwrap(),
            Span {
                start: Position::new(&names[fs], ls, cs),
                end: Position::new(&names[fe], le, ce),
            }
        );
    }
}

#[test]
fn empty() {
    let sourcefile = SourceFile::default();
    assert!(sourcefile.resolve_offset(0).is_none());
}

#[test]
fn smoke() {
    check_files(
        &[
            "A file with\ntwo lines.\n",
            "Another file with\ntwo more lines.\n",
        ],
        &[
            (0, (0, 0, 0)),
            (5, (0, 0, 5)),
            (11, (0, 0, 11)),
            (12, (0, 1, 0)),
            (13, (0, 1, 1)),
            (13, (0, 1, 1)),
            (22, (0, 1, 10)),
            (23, (1, 0, 0)),
            (24, (1, 0, 1)),
            (40, (1, 0, 17)),
            (41, (1, 1, 0)),
            (42, (1, 1, 1)),
            (56, (1, 1, 15)),
        ],
        &[((0, 5), (0, 0, 0), (0, 0, 5))],
    )
}

#[test]
fn test_raw() {
    let mut sourcefile = SourceFile::new();
    sourcefile.add_file_raw("test", " ");
    assert_eq!(*sourcefile.line_lengths().last().unwrap(), 1);
}

#[test]
fn single_space_is_one_line() {
    let mut sourcefile = SourceFile::new();
    sourcefile.add_file_raw("test", " ");
    assert_eq!(sourcefile.line_lengths(), &[1usize][..]);
    assert_eq!(sourcefile.resolve_offset(0).unwrap(), Position::new("test", 0, 0));
    assert!(sourcefile.resolve_offset(1).is_none());
}

#[test]
fn empty_file_is_skipped() {
    let (mut sourcefile, _) = build(&["ab\n"]);
    let before_lines = sourcefile.line_lengths().to_vec();
    let before_contents = sourcefile.contents.clone();
    sourcefile.add_file_raw("empty", "");
    assert_eq!(sourcefile.line_lengths(), &before_lines[..]);
    assert_eq!(sourcefile.contents, before_contents);
    assert_eq!(sourcefile.resolve_offset(2).unwrap(), Position::new("file0.txt", 0, 2));
    assert!(sourcefile.resolve_offset(3).is_none());
}

#[test]
fn empty_file_between_others() {
    let (sourcefile, _) = build(&["a\n", "", "b"]);
    assert_eq!(sourcefile.resolve_offset(2).unwrap(), Position::new("file2.txt", 0, 0));
}

#[test]
fn contents_is_concatenation() {
    let (sourcefile, _) = build(&["one\n", "two", "three\nfour"]);
    assert_eq!(sourcefile.contents, "one\ntwothree\nfour");
    assert_eq!(sourcefile.line_lengths(), &[4usize, 3, 6, 4][..]);
    assert_eq!(sourcefile.resolve_offset(0).unwrap(), Position::new("file0.txt", 0, 0));
}

#[test]
fn line_without_newline_then_next_file() {
    let (sourcefile, _) = build(&["ab", "cd\nef"]);
    assert_eq!(sourcefile.resolve_offset(1).unwrap(), Position::new("file0.txt", 0, 1));
    assert_eq!(sourcefile.resolve_offset(2).unwrap(), Position::new("file1.txt", 0, 0));
    assert_eq!(sourcefile.resolve_offset(5).unwrap(), Position::new("file1.txt", 1, 0));
    assert_eq!(sourcefile.resolve_offset(6).unwrap(), Position::new("file1.txt", 1, 1));
    assert!(sourcefile.resolve_offset(7).is_none());
}

#[test]
fn carriage_return_counts_in_line() {
    let (sourcefile, _) = build(&["ab\r\ncd\r\n"]);
    assert_eq!(sourcefile.line_lengths(), &[4usize, 4][..]);
    assert_eq!(sourcefile.resolve_offset(2).unwrap(), Position::new("file0.txt", 0, 2));
    assert_eq!(sourcefile.resolve_offset(4).unwrap(), Position::new("file0.txt", 1, 0));
}

#[test]
fn lone_newline_is_a_line() {
    let (sourcefile, _) = build(&["\n", "x"]);
    assert_eq!(sourcefile.line_lengths(), &[1usize, 1][..]);
    assert_eq!(sourcefile.resolve_offset(0).unwrap(), Position::new("file0.txt", 0, 0));
    assert_eq!(sourcefile.resolve_offset(1).unwrap(), Position::new("file1.txt", 0, 0));
}

#[test]
fn blank_lines_inside_file() {
    let (sourcefile, _) = build(&["a\n\n\nb\n"]);
    assert_eq!(sourcefile.line_lengths(), &[2usize, 1, 1, 2][..]);
    assert_eq!(sourcefile.resolve_offset(3).unwrap(), Position::new("file0.txt", 2, 0));
    assert_eq!(sourcefile.resolve_offset(5).unwrap(), Position::new("file0.txt", 3, 1));
}

#[test]
fn multibyte_offsets_count_bytes() {
    let (sourcefile, _) = build(&["\u{e9}t\u{e9}\nx"]);
    assert_eq!(sourcefile.line_lengths(), &[6usize, 1][..]);
    assert_eq!(sourcefile.resolve_offset(2).unwrap(), Position::new("file0.txt", 0, 2));
    assert_eq!(sourcefile.resolve_offset(6).unwrap(), Position::new("file0.txt", 1, 0));
}

#[test]
fn past_end_is_none() {
    let (sourcefile, _) = build(&["A file with\ntwo lines.\n", "Another file with\ntwo more lines.\n"]);
    assert_eq!(sourcefile.contents.len(), 57);
    assert!(sourcefile.resolve_offset(57).is_none());
    assert!(sourcefile.resolve_offset(1000).is_none());
    assert!(sourcefile.resolve_offset(usize::MAX).is_none());
}

#[test]
fn span_end_before_start_is_none() {
    let (sourcefile, _) = build(&["hello\nworld\n"]);
    assert!(sourcefile.resolve_offset_span(5, 4).is_none());
    assert!(sourcefile.resolve_offset_span(3, 12).is_none());
    assert!(sourcefile.resolve_offset_span(12, 13).is_none());
}

#[test]
fn span_matches_offsets() {
    let (sourcefile, _) = build(&["hello\n", "world\n"]);
    for &(start, end) in &[(0usize, 0usize), (2, 7), (5, 11), (6, 6)] {
        let span = sourcefile.resolve_offset_span(start, end).unwrap();
        assert_eq!(span.start, sourcefile.resolve_offset(start).unwrap());
        assert_eq!(span.end, sourcefile.resolve_offset(end).unwrap());
    }
    let span = sourcefile.resolve_offset_span(2, 7).unwrap();
    assert_eq!(span.start, Position::new("file0.txt", 0, 2));
    assert_eq!(span.end, Position::new("file1.txt", 0, 1));
}

#[test]
fn every_offset_matches_manual_walk() {
    let files = ["ab\ncd", "\n\nxyz\n", "q"];
    let (sourcefile, names) = build(&files);
    let mut offset = 0usize;
    for (f, text) in files.iter().enumerate() {
        let (mut line, mut col) = (0usize, 0usize);
        for b in text.bytes() {
            assert_eq!(sourcefile.resolve_offset(offset).unwrap(), Position::new(&names[f], line, col));
            if b == b'\n' {
                line += 1;
                col = 0;
            } else {
                col += 1;
            }
            offset += 1;
        }
    }
    assert!(sourcefile.resolve_offset(offset).is_none());
}

#[test]
fn byte_len_counts_utf8_bytes() {
    let (sourcefile, _) = build(&["\u{e9}\n", "abc"]);
    assert_eq!(sourcefile.byte_len(), 6);
    assert_eq!(SourceFile::new().byte_len(), 0);
}

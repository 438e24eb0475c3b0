use curator::lines::{Lines, LinesError};

fn read_by_lines_fixture() {
    let fixture: [(&str, Vec<&str>); 5] = [
        ("event:", vec![]),
        ("data", vec![]),
        ("\nevent:", vec!["event:data"]),
        ("\n", vec!["event:"]),
        ("\n1\n2\n", vec!["", "1", "2"]),
    ];

    let mut lines = Lines::new();
    for (input, output) in fixture.iter() {
        assert_eq!(lines.feed(input.as_bytes()).unwrap(), *output);
    }
}

#[test]
fn agent_test_read_by_lines() {
    read_by_lines_fixture();
}

#[test]
fn client_test_read_by_lines() {
    read_by_lines_fixture();
}

#[test]
fn take_next_line_without_newline_gives_nothing() {
    let mut lines = Lines::new();
    assert_eq!(lines.feed(b"abc").unwrap(), Vec::<String>::new());
    assert_eq!(lines.take_next_line(), Ok(None));
    assert_eq!(lines.feed(b"def\n").unwrap(), vec!["abcdef"]);
}

#[test]
fn multibyte_line_split_across_chunks() {
    let mut lines = Lines::new();
    let text = "привет\n".as_bytes();
    assert_eq!(lines.feed(&text[..3]).unwrap(), Vec::<String>::new());
    assert_eq!(lines.feed(&text[3..]).unwrap(), vec!["привет"]);
}

#[test]
fn invalid_utf8_line_is_an_error_and_stays() {
    let mut lines = Lines::new();
    assert_eq!(lines.feed(b"ok\n\xff\nnext\n"), Err(LinesError::InvalidUtf8));
    // The line before the bad one is gone; the bad one is still first.
    assert_eq!(lines.take_next_line(), Err(LinesError::InvalidUtf8));
    assert_eq!(lines.feed(b""), Err(LinesError::InvalidUtf8));
}

#[test]
fn chunk_boundaries_do_not_matter() {
    let mut split = Lines::new();
    let mut first = split.feed(b"ab\ncd").unwrap();
    first.extend(split.feed(b"e\nf").unwrap());
    let mut whole = Lines::new();
    let all = whole.feed(b"ab\ncde\nf").unwrap();
    assert_eq!(first, all);
    assert_eq!(all, vec!["ab", "cde"]);
    assert_eq!(split.feed(b"\n").unwrap(), vec!["f"]);
    assert_eq!(whole.feed(b"\n").unwrap(), vec!["f"]);
}

use piece_tree::buffer::{Buffer, BufferPosition};

#[test]
fn new() {
    let init_str = "sample content\ntest line\r\n3\n";
    let b = Buffer::new(init_str);
    assert_eq!(*b.value(), String::from(init_str));
    assert_eq!(b.linebreaks().len(), 4);
    assert_eq!(b.linebreaks()[0], 0);
    assert_eq!(b.linebreaks()[1], 14);
    assert_eq!(b.linebreaks()[2], 25);
    assert_eq!(b.linebreaks()[3], 27);

    let b = Buffer::new("");
    assert_eq!(*b.value(), String::from(""));
    assert_eq!(b.linebreaks().len(), 1);
}

#[test]
fn append() {
    let init_str = "sample content\ntest line\r\n3\n";
    let mut b = Buffer::new(init_str);

    let append_str = "one two three\nfour";
    b.append(append_str);
    let mut buf_val = String::from(init_str);
    buf_val.push_str(append_str);
    assert_eq!(*b.value(), buf_val);
    assert_eq!(b.linebreaks().len(), 5);
    assert_eq!(b.linebreaks()[4], 41);

    let append_str_two = " five";
    b.append(append_str_two);
    buf_val.push_str(append_str_two);
    assert_eq!(*b.value(), buf_val);
    assert_eq!(b.linebreaks().len(), 5);
    assert_eq!(b.linebreaks()[4], 41);
}

#[test]
fn positions() {
    let init_str = "sample content\ntest line\r\n3\n";
    let mut b = Buffer::new(init_str);
    let position_first = b.position_first();
    let position_last = b.position_last();
    assert_eq!(position_first, BufferPosition::new(0, 0));
    assert_eq!(position_last, BufferPosition::new(3, 0));
    assert_eq!(b.position_to_index(position_first), 0);
    assert_eq!(b.position_to_index(position_last), b.chars_count() - 1);

    let append_str = "one two three\nfour";
    b.append(append_str);
    let position_last = b.position_last();
    assert_eq!(position_last, BufferPosition::new(4, 4));
    assert_eq!(b.position_to_index(position_last), b.chars_count() - 1);
}

#[test]
fn position_ranges() {
    let init_str = "sample content\ntest line\r\n3\n";
    let mut b = Buffer::new(init_str);
    let position_first = b.position_first();
    let position_last = b.position_last();
    assert_eq!(
        b.position_range_chars_count(position_first, position_last),
        b.chars_count()
    );
    assert_eq!(
        b.position_range_lines_count(position_first, position_last),
        b.linebreaks_count(),
    );

    let append_str = "one two three\nfour";
    b.append(append_str);
    let position_last = b.position_last();
    assert_eq!(
        b.position_range_chars_count(position_first, position_last),
        b.chars_count()
    );
    assert_eq!(
        b.position_range_lines_count(position_first, position_last),
        b.linebreaks_count(),
    );
}

#[test]
fn sample_buffer_counts() {
    let b = Buffer::new("sample content\ntest line\r\n3\n");
    assert_eq!(b.linebreaks().clone(), vec![0, 14, 25, 27]);
    assert_eq!(b.linebreaks_count(), 4);
    assert_eq!(b.chars_count(), 28);
    assert_eq!(b.bytes_count(), 28);
    assert_eq!(b.linebreak(2), 25);
}

#[test]
fn empty_buffer_has_first_line_start() {
    let b = Buffer::new("");
    assert_eq!(b.linebreak(0), 0);
    assert_eq!(b.linebreaks_count(), 1);
    assert_eq!(b.chars_count(), 0);
    let b = Buffer::new("\nabc");
    assert_eq!(b.linebreaks().clone(), vec![0, 0]);
}

#[test]
fn append_empty_is_noop() {
    let mut b = Buffer::new("ab\ncd");
    let before = b.linebreaks().clone();
    assert_eq!(b.append(""), None);
    assert_eq!(*b.value(), String::from("ab\ncd"));
    assert_eq!(*b.linebreaks(), before);
}

#[test]
fn append_returns_range() {
    let mut b = Buffer::new("ab\ncd");
    let r = b.append("ef\ng");
    assert_eq!(
        r,
        Some((BufferPosition::new(1, 3), BufferPosition::new(2, 1)))
    );
    assert_eq!(b.position_to_index(BufferPosition::new(1, 3)), 5);
    assert_eq!(b.linebreaks().clone(), vec![0, 2, 7]);
}

#[test]
fn append_starting_with_newline() {
    let mut b = Buffer::new("ab");
    let r = b.append("\nxy");
    assert_eq!(
        r,
        Some((BufferPosition::new(1, 0), BufferPosition::new(1, 2)))
    );
    assert_eq!(b.position_to_index(BufferPosition::new(1, 0)), 2);
    assert_eq!(*b.value(), String::from("ab\nxy"));
}

#[test]
fn multibyte_offsets_count_chars() {
    let mut b = Buffer::new("h\u{e9}\nx");
    assert_eq!(b.linebreaks().clone(), vec![0, 2]);
    assert_eq!(b.chars_count(), 4);
    assert_eq!(b.bytes_count(), 5);
    b.append("\u{e9}\n");
    assert_eq!(b.linebreaks().clone(), vec![0, 2, 5]);
    assert_eq!(b.chars_count(), 6);
}

#[test]
fn valid_positions_index_inside_text() {
    let b = Buffer::new("ab\ncd");
    for (line, offset) in [(0usize, 0usize), (0, 1), (1, 0), (1, 1), (1, 2)] {
        let p = BufferPosition::new(line, offset);
        assert!(b.position_to_index(p) < b.chars_count());
    }
    assert_eq!(b.position_to_index(BufferPosition::new(1, 2)), 4);
}

#[test]
fn range_counts_of_partial_ranges() {
    let b = Buffer::new("ab\ncd\nef");
    let start = BufferPosition::new(0, 1);
    let end = BufferPosition::new(1, 1);
    assert_eq!(b.position_range_chars_count(start, end), 3);
    assert_eq!(b.position_range_lines_count(start, end), 1);
    assert_eq!(b.position_range_chars_count(end, start), 0);
    assert_eq!(b.position_range_lines_count(end, start), 0);
    assert_eq!(
        b.position_range_lines_count(BufferPosition::new(1, 0), BufferPosition::new(2, 0)),
        2
    );
}

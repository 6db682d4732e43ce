use piece_tree::buffer::Buffer;
use piece_tree::piece_table::{EditError, PieceTable};

#[test]
fn piece_table_initialize() {
    let ptable = PieceTable::new("");
    assert_eq!(ptable.nodes().size(), 1);
    assert_eq!(ptable.pieces().size(), 1);
    assert_eq!(*ptable.original_buffer(), Buffer::new(""));
    assert_eq!(*ptable.append_buffer(), Buffer::new(""));
    assert_eq!(ptable.root_index(), 0);

    // a non-empty document gets one node over its single piece, as the tree's root
    let init_str = "sample content\ntest line\r\n3\n";
    let ptable = PieceTable::new(init_str);
    assert_eq!(ptable.nodes().size(), 2);
    assert_eq!(ptable.pieces().size(), 2);
    assert_eq!(*ptable.original_buffer(), Buffer::new(init_str));
    assert_eq!(*ptable.append_buffer(), Buffer::new(""));
    assert_eq!(ptable.root_index(), 1);
}

#[test]
fn round_trip_text() {
    for t in ["", "\n", "sample content\ntest line\r\n3\n", "h\u{e9}llo\nw\u{f6}rld"] {
        let ptable = PieceTable::new(t);
        assert_eq!(ptable.to_string(), String::from(t));
    }
}

#[test]
fn empty_table_search_finds_nothing() {
    let ptable = PieceTable::new("");
    let root = ptable.root_index();
    assert_eq!(root, 0);
    for q in [0usize, 1, 5, 1000] {
        assert_eq!(ptable.search_node_char(root, q), 0);
        assert_eq!(ptable.search_node_line(root, q), 0);
    }
}

#[test]
fn two_line_table_search() {
    let ptable = PieceTable::new("first line\nsecond");
    let root = ptable.root_index();
    assert_ne!(root, 0);
    assert_eq!(ptable.search_node_line(root, 0), root);
    assert_eq!(ptable.search_node_line(root, 1), root);
    assert_eq!(ptable.search_node_line(root, 2), 0);
    assert_eq!(ptable.search_node_char(root, 0), root);
    assert_eq!(ptable.search_node_char(root, 16), root);
    assert_eq!(ptable.search_node_char(root, 17), 0);
}

#[test]
fn insert_into_middle_of_piece() {
    let mut ptable = PieceTable::new("hello world");
    assert_eq!(ptable.insert(5, ","), Ok(()));
    assert_eq!(ptable.to_string(), String::from("hello, world"));
    assert_eq!(ptable.chars_count(), 12);
    assert_eq!(ptable.append_buffer().value().clone(), String::from(","));
}

#[test]
fn insert_at_ends_and_between_pieces() {
    let mut ptable = PieceTable::new("bc");
    assert_eq!(ptable.insert(0, "a"), Ok(()));
    assert_eq!(ptable.insert(3, "d\n"), Ok(()));
    assert_eq!(ptable.insert(1, "XY"), Ok(()));
    assert_eq!(ptable.to_string(), String::from("aXYbcd\n"));
    assert_eq!(ptable.insert(3, ""), Ok(()));
    assert_eq!(ptable.to_string(), String::from("aXYbcd\n"));
}

#[test]
fn insert_into_empty_table() {
    let mut ptable = PieceTable::new("");
    assert_eq!(ptable.insert(0, "line one\nline two"), Ok(()));
    assert_eq!(ptable.to_string(), String::from("line one\nline two"));
    let root = ptable.root_index();
    assert_ne!(root, 0);
    assert_eq!(ptable.search_node_line(root, 1), root);
    assert_eq!(ptable.search_node_char(root, 16), root);
    assert_eq!(ptable.search_node_char(root, 17), 0);
}

#[test]
fn insert_past_end_is_refused() {
    let mut ptable = PieceTable::new("abc");
    assert_eq!(ptable.insert(4, "x"), Err(EditError::OffsetOutOfRange));
    assert_eq!(ptable.to_string(), String::from("abc"));
}

#[test]
fn search_after_split_finds_each_piece() {
    let mut ptable = PieceTable::new("ab\ncd\nef");
    assert_eq!(ptable.insert(4, "\u{e9}\u{e9}"), Ok(()));
    assert_eq!(ptable.to_string(), String::from("ab\nc\u{e9}\u{e9}d\nef"));
    let root = ptable.root_index();
    let first = ptable.search_node_char(root, 0);
    let inserted = ptable.search_node_char(root, 4);
    let tail = ptable.search_node_char(root, 6);
    assert_ne!(first, 0);
    assert_ne!(inserted, 0);
    assert_ne!(tail, 0);
    assert_ne!(first, inserted);
    assert_ne!(inserted, tail);
    assert_eq!(ptable.search_node_char(root, 3), first);
    assert_eq!(ptable.search_node_char(root, 5), inserted);
    assert_eq!(ptable.search_node_char(root, 9), tail);
    assert_eq!(ptable.search_node_char(root, 10), 0);
    assert_eq!(ptable.chars_count(), 10);
    assert_eq!(ptable.search_node_line(root, 0), first);
    assert_eq!(ptable.search_node_line(root, 1), first);
    // the inserted piece starts at a line start of the append buffer, so owns a line
    assert_eq!(ptable.search_node_line(root, 2), inserted);
    assert_eq!(ptable.search_node_line(root, 3), tail);
    assert_eq!(ptable.search_node_line(root, 4), 0);
}

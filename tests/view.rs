use piece_tree::view::TextView;

#[test]
fn render_window_of_lines() {
    let v = TextView::new(String::from("a\r\nb\nc\n"), 2);
    assert_eq!(v.render_lines(), vec![String::from("a"), String::from("b")]);
    let mut v = TextView::new(String::from("a\nb\nc"), 5);
    v.scroll_down(1);
    assert_eq!(v.render_lines(), vec![String::from("b"), String::from("c")]);
    v.scroll_down(5);
    assert_eq!(v.render_lines(), Vec::<String>::new());
}

#[test]
fn scroll_up_stops_at_top() {
    let mut v = TextView::new(String::from("x\n\ny"), 1);
    v.scroll_down(2);
    assert_eq!(v.row_offset(), 2);
    assert_eq!(v.render_lines(), vec![String::from("y")]);
    v.scroll_up(1);
    assert_eq!(v.render_lines(), vec![String::from("")]);
    v.scroll_up(4);
    assert_eq!(v.row_offset(), 0);
    assert_eq!(v.render_lines(), vec![String::from("x")]);
}

#[test]
fn render_empty_text() {
    let v = TextView::new(String::new(), 3);
    assert_eq!(v.render_lines(), Vec::<String>::new());
    let v = TextView::new(String::from("\n"), 3);
    assert_eq!(v.render_lines(), vec![String::from("")]);
}

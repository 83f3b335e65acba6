use monkey::line_editor::LineBuffer;

fn text(line: &LineBuffer) -> String {
    line.buffer().iter().collect()
}

#[test]
fn typing_and_moving() {
    let mut line = LineBuffer::new();
    line.insert_str("let x = 1;");
    assert_eq!(text(&line), "let x = 1;");
    assert_eq!(line.cursor(), 10);
    line.move_left(4);
    line.insert_char('4');
    assert_eq!(text(&line), "let x 4= 1;");
    assert_eq!(line.cursor(), 7);
    line.move_left(100);
    assert_eq!(line.cursor(), 0);
    line.move_right(100);
    assert_eq!(line.cursor(), 11);
    line.move_start();
    assert_eq!(line.cursor(), 0);
    line.move_end();
    assert_eq!(line.cursor(), 11);
}

#[test]
fn deleting() {
    let mut line = LineBuffer::new();
    line.insert_str("abcd");
    line.delete_left();
    assert_eq!(text(&line), "abc");
    line.move_left(2);
    line.delete_right();
    assert_eq!(text(&line), "ac");
    assert_eq!(line.cursor(), 1);
    line.delete_from_cursor();
    assert_eq!(text(&line), "a");
    line.move_start();
    line.delete_left();
    assert_eq!(text(&line), "a");
    line.delete_line();
    assert_eq!(text(&line), "");
    assert_eq!(line.cursor(), 0);
}

#[test]
fn words_and_enter() {
    let mut line = LineBuffer::new();
    line.insert_str("one two three");
    line.word_left();
    assert_eq!(line.cursor(), 8);
    line.word_left();
    assert_eq!(line.cursor(), 4);
    line.word_left();
    assert_eq!(line.cursor(), 0);
    line.word_right();
    assert_eq!(line.cursor(), 4);
    line.word_right();
    assert_eq!(line.cursor(), 8);
    line.word_right();
    assert_eq!(line.cursor(), 13);
    let taken: String = line.take_line().into_iter().collect();
    assert_eq!(taken, "one two three");
    assert_eq!(text(&line), "");
}

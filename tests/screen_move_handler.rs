use lesser::formats::{Message, Outcome};
use lesser::reader::PagedReader;
use lesser::screen_move_handler::ScreenMoveHandler;

fn handler(bytes: &[u8]) -> ScreenMoveHandler<'_> {
    ScreenMoveHandler::new(PagedReader::new(bytes))
}

#[test]
fn page_down_at_end_is_idempotent() {
    let mut view = handler(b"a\nb\nc\nd");
    assert_eq!(view.initial_screen(2, 10).as_deref(), Some("a\n\rb"));
    assert_eq!(view.offsets(), (2, 10));
    assert_eq!(view.move_down_page(2, 10).as_deref(), Some("c\n\rd"));
    assert_eq!(view.offsets(), (4, 10));
    for _ in 0..3 {
        assert_eq!(view.move_down_page(2, 10), None);
        assert_eq!(view.offsets(), (4, 10));
    }
}

#[test]
fn line_down_at_end_stays_at_end() {
    let mut view = handler(b"a\nb\nc\nd");
    view.initial_screen(2, 10);
    assert_eq!(view.move_down(2, 10).as_deref(), Some("b\n\rc"));
    assert_eq!(view.offsets(), (3, 10));
    assert_eq!(view.move_down(2, 10).as_deref(), Some("c\n\rd"));
    assert_eq!(view.offsets(), (4, 10));
    assert_eq!(view.move_down(2, 10).as_deref(), Some("d"));
    assert_eq!(view.offsets(), (4, 10));
    let mut view = handler(b"a\nb");
    view.initial_screen(1, 10);
    assert_eq!(view.move_down(1, 10).as_deref(), Some("b"));
    assert_eq!(view.offsets(), (2, 10));
    for _ in 0..3 {
        assert_eq!(view.move_down(1, 10), None);
        assert_eq!(view.offsets(), (2, 10));
    }
}

#[test]
fn up_moves_at_start_stay_at_start() {
    let mut view = handler(b"a\nb\nc\nd");
    assert_eq!(view.move_up(2, 10).as_deref(), Some("a\n\rb"));
    assert_eq!(view.offsets(), (2, 0));
    view.initial_screen(2, 10);
    assert_eq!(view.move_up(2, 10).as_deref(), Some("a\n\rb"));
    assert_eq!(view.offsets(), (2, 10));
    assert_eq!(view.move_up_page(2, 10).as_deref(), Some("a\n\rb"));
    assert_eq!(view.offsets(), (2, 10));
    assert_eq!(view.move_to_top(2, 10).as_deref(), Some("a\n\rb"));
    assert_eq!(view.offsets(), (2, 10));
    assert_eq!(view.move_up(0, 10), None);
    assert_eq!(view.offsets(), (2, 10));
}

#[test]
fn page_up_steps_one_page_back() {
    let mut view = handler(b"a\nb\nc\nd\ne\nf");
    view.initial_screen(2, 10);
    view.move_down_page(2, 10);
    view.move_down_page(2, 10);
    assert_eq!(view.offsets(), (6, 10));
    assert_eq!(view.move_up_page(2, 10).as_deref(), Some("c\n\rd"));
    assert_eq!(view.offsets(), (4, 10));
    assert_eq!(view.move_up(2, 10).as_deref(), Some("b\n\rc"));
    assert_eq!(view.offsets(), (3, 10));
}

#[test]
fn move_to_end_shows_the_last_page() {
    let mut view = handler(b"a\nb\nc\nd\ne");
    view.initial_screen(2, 10);
    assert_eq!(view.move_to_end(2, 10).as_deref(), Some("d\n\re"));
    assert_eq!(view.offsets(), (5, 10));
    assert_eq!(view.move_down_page(2, 10), None);
    assert_eq!(view.move_to_top(2, 10).as_deref(), Some("a\n\rb"));
    assert_eq!(view.offsets(), (2, 10));
}

#[test]
fn horizontal_moves_step_one_screen() {
    let mut view = handler(b"abcdef\ngh");
    assert_eq!(view.initial_screen(2, 2).as_deref(), Some("ab\n\rgh"));
    assert_eq!(view.offsets(), (2, 2));
    assert_eq!(view.move_right(2, 2).as_deref(), Some("cd\n\r"));
    assert_eq!(view.offsets(), (2, 4));
    assert_eq!(view.move_right(2, 2).as_deref(), Some("ef\n\r"));
    assert_eq!(view.offsets(), (2, 6));
    assert_eq!(view.move_right(2, 2), None);
    assert_eq!(view.offsets(), (2, 6));
    assert_eq!(view.move_left(2, 2).as_deref(), Some("cd\n\r"));
    assert_eq!(view.offsets(), (2, 4));
    assert_eq!(view.move_left(2, 2).as_deref(), Some("ab\n\rgh"));
    assert_eq!(view.offsets(), (2, 2));
    assert_eq!(view.move_left(2, 2).as_deref(), Some("ab\n\rgh"));
    assert_eq!(view.offsets(), (2, 2));
}

#[test]
fn pan_past_every_line_keeps_the_column() {
    let mut view = handler(b"ab\ncd");
    view.initial_screen(2, 2);
    assert_eq!(view.offsets(), (2, 2));
    assert_eq!(view.move_right(2, 2), None);
    assert_eq!(view.offsets(), (2, 2));
}

#[test]
fn vertical_moves_keep_the_column() {
    let mut view = handler(b"abcd\nefgh\nijkl");
    view.initial_screen(2, 2);
    view.move_right(2, 2);
    assert_eq!(view.offsets(), (2, 4));
    assert_eq!(view.move_down(2, 2).as_deref(), Some("gh\n\rkl"));
    assert_eq!(view.offsets(), (3, 4));
}

#[test]
fn reload_keeps_the_place_and_resets_the_column() {
    let mut view = handler(b"abcd\nefgh\nijkl\nmnop");
    view.initial_screen(2, 2);
    view.move_down_page(2, 2);
    view.move_right(2, 2);
    assert_eq!(view.offsets(), (4, 4));
    assert_eq!(view.reload(3, 2).as_deref(), Some("ef\n\rij\n\rmn"));
    assert_eq!(view.offsets(), (4, 2));
}

#[test]
fn paging_down_reconstructs_the_source() {
    let source = b"l1\nl2\nl3\nl4\nl5\nl6";
    let mut view = handler(source);
    let mut pages = Vec::new();
    while let Some(page) = view.move_down_page(2, 80) {
        pages.push(page);
    }
    assert_eq!(pages.len(), 3);
    assert_eq!(pages.join("\n\r"), String::from_utf8_lossy(source).replace("\n", "\n\r"));
    assert_eq!(view.offsets(), (6, 0));
}

#[test]
fn handle_dispatches_commands() {
    let mut view = handler(b"a\nb\nc\nd");
    view.initial_screen(2, 10);
    assert!(matches!(view.handle(Message::ScrollDownPage, 2, 10), Outcome::Redraw(ref t) if t == "c\n\rd"));
    assert!(matches!(view.handle(Message::ScrollDownPage, 2, 10), Outcome::NoChange));
    assert!(matches!(view.handle(Message::ScrollToBeginning, 2, 10), Outcome::Redraw(ref t) if t == "a\n\rb"));
    assert!(matches!(view.handle(Message::Exit, 2, 10), Outcome::Exit));
    assert_eq!(view.offsets(), (2, 10));
    assert!(matches!(view.handle(Message::Reload, 2, 10), Outcome::Redraw(ref t) if t == "a\n\rb"));
}

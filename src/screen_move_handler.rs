//! The scroll state machine: the view's position in the source, and the commands
//! that move it.
//!
//! `row` is the line after the last one shown, and `col` the column after the last
//! one shown. Every move first reads a candidate window and commits the position
//! only where that read showed something, by the amount actually shown; a move that
//! shows nothing leaves the position as it was.
use crate::formats::{Message, Outcome};
use crate::lines::{all_lines, lemma_lines_within, lemma_some_line};
use crate::reader::{
    at_most, cols_shown, lemma_render_concat, render, row_separator, shows, shows_text, window,
    PagedReader,
};
use vstd::prelude::*;

verus! {

/// Where the view stands after a command, and the page it draws, if any.
pub struct Moved {
    pub row: int,
    pub col: int,
    pub page: Option<Seq<char>>,
}

/// `x - y`, or 0 where `y` is larger.
pub open spec fn sub_sat(x: int, y: int) -> int {
    if x < y {
        0
    } else {
        x - y
    }
}

/// A vertical move: reads the window of `rows` lines from line `top`, shown from
/// column `read_col`. Where it holds a line, the view ends after it, and with
/// `reset_col` the column becomes the columns shown; else nothing moves.
pub open spec fn scroll_rows(
    s: Seq<u8>,
    row: int,
    col: int,
    top: int,
    read_col: int,
    reset_col: bool,
    rows: int,
    cols: int,
) -> Moved {
    let w = window(s, top, rows);
    if w.len() == 0 {
        Moved { row, col, page: None }
    } else {
        Moved {
            row: top + w.len(),
            col: if reset_col {
                cols_shown(s, w, read_col, cols)
            } else {
                col
            },
            page: Some(render(s, w, read_col, cols)),
        }
    }
}

/// A horizontal move: reads the current page's lines from column `left`. Where that
/// shows text, the view ends `cols` columns after `left`; else nothing moves.
pub open spec fn scroll_cols(s: Seq<u8>, row: int, col: int, left: int, rows: int, cols: int) -> Moved {
    let w = window(s, sub_sat(row, rows), rows);
    if !shows_text(s, w, left, cols) {
        Moved { row, col, page: None }
    } else {
        Moved { row, col: left + cols, page: Some(render(s, w, left, cols)) }
    }
}

/// The column from which a vertical move reads: the first one of the current view.
pub open spec fn view_col(col: int, cols: int) -> int {
    sub_sat(col, cols)
}

/// The first screen: the window from the first line and column.
pub open spec fn initial_screen_move(s: Seq<u8>, row: int, col: int, rows: int, cols: int) -> Moved {
    scroll_rows(s, row, col, 0, 0, true, rows, cols)
}

/// A redraw after a resize: the window that ends at the current line, from the
/// first column.
pub open spec fn reload_move(s: Seq<u8>, row: int, col: int, rows: int, cols: int) -> Moved {
    scroll_rows(s, row, col, sub_sat(row, rows), 0, true, rows, cols)
}

/// One line down: the window from one line below the current page's top.
pub open spec fn down_move(s: Seq<u8>, row: int, col: int, rows: int, cols: int) -> Moved {
    scroll_rows(s, row, col, sub_sat(row, sub_sat(rows, 1)), view_col(col, cols), false, rows, cols)
}

/// One line up: the window from one line above the current page's top.
pub open spec fn up_move(s: Seq<u8>, row: int, col: int, rows: int, cols: int) -> Moved {
    scroll_rows(s, row, col, sub_sat(row, rows + 1), view_col(col, cols), false, rows, cols)
}

/// One page down: the window that follows the current page.
pub open spec fn page_down_move(s: Seq<u8>, row: int, col: int, rows: int, cols: int) -> Moved {
    scroll_rows(s, row, col, row, view_col(col, cols), false, rows, cols)
}

/// One page up: the window that precedes the current page.
pub open spec fn page_up_move(s: Seq<u8>, row: int, col: int, rows: int, cols: int) -> Moved {
    scroll_rows(s, row, col, sub_sat(row, 2 * rows), view_col(col, cols), false, rows, cols)
}

/// To the start: the window from the first line.
pub open spec fn top_move(s: Seq<u8>, row: int, col: int, rows: int, cols: int) -> Moved {
    scroll_rows(s, row, col, 0, view_col(col, cols), false, rows, cols)
}

/// To the end: the last full window, found by a read from the farthest line that
/// `u64` can name, clamped to the number of lines.
pub open spec fn end_move(s: Seq<u8>, row: int, col: int, rows: int, cols: int) -> Moved {
    let last = at_most(u64::MAX - rows, all_lines(s).len() as int);
    scroll_rows(s, row, col, sub_sat(last, rows), view_col(col, cols), false, rows, cols)
}

/// One screen to the right: the current page from the column after the view.
pub open spec fn right_move(s: Seq<u8>, row: int, col: int, rows: int, cols: int) -> Moved {
    scroll_cols(s, row, col, col, rows, cols)
}

/// One screen to the left: the current page from the screen before the view.
pub open spec fn left_move(s: Seq<u8>, row: int, col: int, rows: int, cols: int) -> Moved {
    scroll_cols(s, row, col, sub_sat(col, 2 * cols), rows, cols)
}

/// What a command does to the view; `Exit` leaves it as it is.
pub open spec fn after_message(
    s: Seq<u8>,
    row: int,
    col: int,
    message: Message,
    rows: int,
    cols: int,
) -> Moved {
    match message {
        Message::ScrollDownPage => page_down_move(s, row, col, rows, cols),
        Message::ScrollDown => down_move(s, row, col, rows, cols),
        Message::ScrollUpPage => page_up_move(s, row, col, rows, cols),
        Message::ScrollUp => up_move(s, row, col, rows, cols),
        Message::ScrollLeft => left_move(s, row, col, rows, cols),
        Message::ScrollRight => right_move(s, row, col, rows, cols),
        Message::ScrollToBeginning => top_move(s, row, col, rows, cols),
        Message::ScrollToEnd => end_move(s, row, col, rows, cols),
        Message::Exit => Moved { row, col, page: None },
        Message::Reload => reload_move(s, row, col, rows, cols),
    }
}

/// Where the view stands after `messages`, one after another, on a screen of a fixed
/// size, and the page the last of them draws.
pub open spec fn replay(
    s: Seq<u8>,
    row: int,
    col: int,
    messages: Seq<Message>,
    rows: int,
    cols: int,
) -> Moved
    decreases messages.len(),
{
    if messages.len() == 0 {
        Moved { row, col, page: None }
    } else {
        let before = replay(s, row, col, messages.drop_last(), rows, cols);
        after_message(s, before.row, before.col, messages.last(), rows, cols)
    }
}

/// The text of a page, if there is one.
pub open spec fn page_text(page: Option<String>) -> Option<Seq<char>> {
    match page {
        Some(text) => Some(text@),
        None => None,
    }
}

/// The view's position over a paged reader.
pub struct ScreenMoveHandler<'a> {
    /// The line after the last one shown.
    row_offset: u64,
    /// The column after the last one shown.
    col_offset: u64,
    paged_reader: PagedReader<'a>,
}

impl<'a> ScreenMoveHandler<'a> {
    /// The line after the last one shown.
    pub closed spec fn row(&self) -> int {
        self.row_offset as int
    }

    /// The column after the last one shown.
    pub closed spec fn col(&self) -> int {
        self.col_offset as int
    }

    /// The reader the view reads from.
    pub closed spec fn reader(&self) -> PagedReader<'a> {
        self.paged_reader
    }

    /// The bytes of the source.
    pub open spec fn bytes(&self) -> Seq<u8> {
        self.reader().bytes()
    }

    /// The reader is well formed.
    pub open spec fn wf(&self) -> bool {
        self.reader().wf()
    }

    /// `after` is `before` moved as `m` says, with the same source, the lines known
    /// before still known, and `page` the page that `m` draws.
    pub open spec fn lands(before: &Self, after: &Self, page: Option<String>, m: Moved) -> bool {
        &&& after.wf()
        &&& after.bytes() == before.bytes()
        &&& before.reader().index().len() <= after.reader().index().len()
        &&& after.reader().index().take(before.reader().index().len() as int)
            == before.reader().index()
        &&& after.row() == m.row
        &&& after.col() == m.col
        &&& page_text(page) == m.page
    }

    /// A view at the start of the source, nothing shown yet.
    pub fn new(paged_reader: PagedReader<'a>) -> (r: Self)
        requires
            paged_reader.wf(),
        ensures
            r.wf(),
            r.reader() == paged_reader,
            r.row() == 0,
            r.col() == 0,
    {
        ScreenMoveHandler { row_offset: 0, col_offset: 0, paged_reader }
    }

    /// The line after the last one shown, and the column after the last one shown.
    pub fn offsets(&self) -> (r: (u64, u64))
        ensures
            r.0 == self.row(),
            r.1 == self.col(),
    {
        (self.row_offset, self.col_offset)
    }

    /// Reads the window of `rows` lines from line `top`, shown from column `read_col`,
    /// and moves the view there only where it holds a line.
    fn move_y(&mut self, top: u64, read_col: u64, reset_col: bool, rows: u16, cols: u16) -> (r:
        Option<String>)
        requires
            old(self).wf(),
        ensures
            Self::lands(
                old(self),
                final(self),
                r,
                scroll_rows(
                    old(self).bytes(),
                    old(self).row(),
                    old(self).col(),
                    top as int,
                    read_col as int,
                    reset_col,
                    rows as int,
                    cols as int,
                ),
            ),
    {
        let ghost s = self.paged_reader.bytes();
        proof {
            lemma_lines_within(s);
        }
        let (page, rows_read, cols_read) = self.paged_reader.read_file_paged(
            top,
            read_col,
            rows,
            cols,
        );
        if rows_read == 0 {
            None
        } else {
            self.row_offset = top + rows_read as u64;
            if reset_col {
                self.col_offset = cols_read as u64;
            }
            Some(page)
        }
    }

    /// Reads the current page from column `left`, and moves the view there only where
    /// that shows text.
    fn move_x(&mut self, left: u64, rows: u16, cols: u16) -> (r: Option<String>)
        requires
            old(self).wf(),
        ensures
            Self::lands(
                old(self),
                final(self),
                r,
                scroll_cols(
                    old(self).bytes(),
                    old(self).row(),
                    old(self).col(),
                    left as int,
                    rows as int,
                    cols as int,
                ),
            ),
    {
        let ghost s = self.paged_reader.bytes();
        let top = self.row_offset.saturating_sub(rows as u64);
        let ghost w = window(s, top as int, rows as int);
        let (page, _rows_read, cols_read) = self.paged_reader.read_file_paged(
            top,
            left,
            rows,
            cols,
        );
        if cols_read == 0 {
            assert(!shows_text(s, w, left as int, cols as int));
            None
        } else {
            proof {
                lemma_lines_within(s);
                let k = choose|k: int| 0 <= k < w.len() && shows(s, #[trigger] w[k], left as int, cols as int);
                let table = all_lines(s);
                assert(w[k] == table[k + at_most(top as int, table.len() as int)]);
            }
            self.col_offset = left + cols_read as u64;
            Some(page)
        }
    }

    /// The first page: the window from the first line, from the first column.
    pub fn initial_screen(&mut self, rows: u16, cols: u16) -> (r: Option<String>)
        requires
            old(self).wf(),
        ensures
            Self::lands(
                old(self),
                final(self),
                r,
                initial_screen_move(old(self).bytes(), old(self).row(), old(self).col(), rows as int, cols as int),
            ),
    {
        self.move_y(0, 0, true, rows, cols)
    }

    /// Redraws after a resize: the window that ends at the current line, from the first
    /// column, so that the view keeps its place and loses its horizontal offset.
    pub fn reload(&mut self, rows: u16, cols: u16) -> (r: Option<String>)
        requires
            old(self).wf(),
        ensures
            Self::lands(
                old(self),
                final(self),
                r,
                reload_move(old(self).bytes(), old(self).row(), old(self).col(), rows as int, cols as int),
            ),
    {
        let top = self.row_offset.saturating_sub(rows as u64);
        self.move_y(top, 0, true, rows, cols)
    }

    /// One line down: reads from one line below the current page's top, and moves by
    /// the lines shown.
    pub fn move_down(&mut self, rows: u16, cols: u16) -> (r: Option<String>)
        requires
            old(self).wf(),
        ensures
            Self::lands(
                old(self),
                final(self),
                r,
                down_move(old(self).bytes(), old(self).row(), old(self).col(), rows as int, cols as int),
            ),
    {
        let top = self.row_offset.saturating_sub((rows as u64).saturating_sub(1));
        let read_col = self.col_offset.saturating_sub(cols as u64);
        self.move_y(top, read_col, false, rows, cols)
    }

    /// One line up: reads from one line above the current page's top.
    pub fn move_up(&mut self, rows: u16, cols: u16) -> (r: Option<String>)
        requires
            old(self).wf(),
        ensures
            Self::lands(
                old(self),
                final(self),
                r,
                up_move(old(self).bytes(), old(self).row(), old(self).col(), rows as int, cols as int),
            ),
    {
        let top = self.row_offset.saturating_sub(rows as u64 + 1);
        let read_col = self.col_offset.saturating_sub(cols as u64);
        self.move_y(top, read_col, false, rows, cols)
    }

    /// One page down: reads the window that follows the current page.
    pub fn move_down_page(&mut self, rows: u16, cols: u16) -> (r: Option<String>)
        requires
            old(self).wf(),
        ensures
            Self::lands(
                old(self),
                final(self),
                r,
                page_down_move(old(self).bytes(), old(self).row(), old(self).col(), rows as int, cols as int),
            ),
    {
        let read_col = self.col_offset.saturating_sub(cols as u64);
        self.move_y(self.row_offset, read_col, false, rows, cols)
    }

    /// One page up: reads from two pages above the current page's end, which shows the
    /// page before the current one.
    pub fn move_up_page(&mut self, rows: u16, cols: u16) -> (r: Option<String>)
        requires
            old(self).wf(),
        ensures
            Self::lands(
                old(self),
                final(self),
                r,
                page_up_move(old(self).bytes(), old(self).row(), old(self).col(), rows as int, cols as int),
            ),
    {
        let top = self.row_offset.saturating_sub(rows as u64 * 2);
        let read_col = self.col_offset.saturating_sub(cols as u64);
        self.move_y(top, read_col, false, rows, cols)
    }

    /// To the start of the source.
    pub fn move_to_top(&mut self, rows: u16, cols: u16) -> (r: Option<String>)
        requires
            old(self).wf(),
        ensures
            Self::lands(
                old(self),
                final(self),
                r,
                top_move(old(self).bytes(), old(self).row(), old(self).col(), rows as int, cols as int),
            ),
    {
        let read_col = self.col_offset.saturating_sub(cols as u64);
        self.move_y(0, read_col, false, rows, cols)
    }

    /// One screen to the right: the current page from the column after the view. Where
    /// no line of the page reaches that column, nothing moves.
    pub fn move_right(&mut self, rows: u16, cols: u16) -> (r: Option<String>)
        requires
            old(self).wf(),
        ensures
            Self::lands(
                old(self),
                final(self),
                r,
                right_move(old(self).bytes(), old(self).row(), old(self).col(), rows as int, cols as int),
            ),
    {
        self.move_x(self.col_offset, rows, cols)
    }

    /// One screen to the left: the current page from the screen before the view.
    pub fn move_left(&mut self, rows: u16, cols: u16) -> (r: Option<String>)
        requires
            old(self).wf(),
        ensures
            Self::lands(
                old(self),
                final(self),
                r,
                left_move(old(self).bytes(), old(self).row(), old(self).col(), rows as int, cols as int),
            ),
    {
        let left = self.col_offset.saturating_sub(cols as u64 * 2);
        self.move_x(left, rows, cols)
    }

    /// To the end of the source: a read from the farthest line that `u64` can name
    /// finds every line; the view then shows the last full window, and ends after the
    /// last line.
    pub fn move_to_end(&mut self, rows: u16, cols: u16) -> (r: Option<String>)
        requires
            old(self).wf(),
        ensures
            Self::lands(
                old(self),
                final(self),
                r,
                end_move(old(self).bytes(), old(self).row(), old(self).col(), rows as int, cols as int),
            ),
    {
        let ghost s = self.paged_reader.bytes();
        let ghost known = self.paged_reader.index();
        proof {
            lemma_lines_within(s);
        }
        let farthest = u64::MAX - rows as u64;
        let read_col = self.col_offset.saturating_sub(cols as u64);
        let (_page, _rows_read, _cols_read) = self.paged_reader.read_file_paged(
            farthest,
            read_col,
            rows,
            cols,
        );
        let ghost middle = self.paged_reader.index();
        let lines = self.paged_reader.cached_rows() as u64;
        assert(lines == all_lines(s).len());
        let last = if farthest < lines {
            farthest
        } else {
            lines
        };
        let r = self.move_y(last.saturating_sub(rows as u64), read_col, false, rows, cols);
        assert(self.paged_reader.index().take(known.len() as int) =~= known) by {
            assert(self.paged_reader.index().take(middle.len() as int) == middle);
            assert(middle.take(known.len() as int) == known);
        }
        r
    }

    /// Carries out one command; `Exit` stops without a move.
    pub fn handle(&mut self, message: Message, rows: u16, cols: u16) -> (r: Outcome)
        requires
            old(self).wf(),
        ensures
            Self::lands(
                old(self),
                final(self),
                match r {
                    Outcome::Redraw(text) => Some(text),
                    _ => None,
                },
                after_message(
                    old(self).bytes(),
                    old(self).row(),
                    old(self).col(),
                    message,
                    rows as int,
                    cols as int,
                ),
            ),
            (r is Exit) <==> message == Message::Exit,
    {
        let page = match message {
            Message::ScrollUpPage => self.move_up_page(rows, cols),
            Message::ScrollDownPage => self.move_down_page(rows, cols),
            Message::ScrollLeft => self.move_left(rows, cols),
            Message::ScrollRight => self.move_right(rows, cols),
            Message::ScrollUp => self.move_up(rows, cols),
            Message::ScrollDown => self.move_down(rows, cols),
            Message::ScrollToBeginning => self.move_to_top(rows, cols),
            Message::ScrollToEnd => self.move_to_end(rows, cols),
            Message::Reload => self.reload(rows, cols),
            Message::Exit => {
                assert(self.paged_reader.index().take(self.paged_reader.index().len() as int)
                    =~= self.paged_reader.index());
                return Outcome::Exit;
            },
        };
        match page {
            Some(text) => Outcome::Redraw(text),
            None => Outcome::NoChange,
        }
    }
}

/// `message`, `n` times.
pub open spec fn repeated(message: Message, n: nat) -> Seq<Message> {
    Seq::new(n, |i: int| message)
}

/// Pages one after another, with a row separator between two.
pub open spec fn join_pages(pages: Seq<Seq<char>>) -> Seq<char>
    decreases pages.len(),
{
    if pages.len() == 0 {
        seq![]
    } else if pages.len() == 1 {
        pages[0]
    } else {
        join_pages(pages.drop_last()) + row_separator() + pages.last()
    }
}

/// A command that draws nothing leaves the view where it was, so that repeating it
/// any number of times moves nothing and draws nothing. At the end of the source a
/// page down is such a command.
pub proof fn lemma_no_progress_is_stable(
    s: Seq<u8>,
    row: int,
    col: int,
    message: Message,
    rows: int,
    cols: int,
    n: nat,
)
    requires
        rows >= 0,
        after_message(s, row, col, message, rows, cols).page is None,
    ensures
        replay(s, row, col, repeated(message, n), rows, cols) == (Moved { row, col, page: None }),
        row >= all_lines(s).len() ==> page_down_move(s, row, col, rows, cols).page is None,
    decreases n,
{
    if n > 0 {
        lemma_no_progress_is_stable(s, row, col, message, rows, cols, (n - 1) as nat);
        assert(repeated(message, n).drop_last() =~= repeated(message, (n - 1) as nat));
    }
}

/// From a view whose page starts at the first line, a line up, a page up and a move
/// to the start all show the first page again: the view's top stays at the first
/// line, and the view ends after the first page (at 0 on a screen of no rows).
pub proof fn lemma_up_at_start(s: Seq<u8>, row: int, col: int, message: Message, rows: int, cols: int)
    requires
        0 <= row <= rows,
        message == Message::ScrollUp || message == Message::ScrollUpPage || message
            == Message::ScrollToBeginning,
    ensures
        after_message(s, row, col, message, rows, cols) == (Moved {
            row: at_most(rows, all_lines(s).len() as int),
            col,
            page: if rows == 0 {
                None
            } else {
                Some(render(s, window(s, 0, rows), view_col(col, cols), cols))
            },
        }),
{
    lemma_some_line(s);
}

/// Where no line of the current page reaches the column a pan reads from, the pan
/// shows nothing and the view keeps its column.
pub proof fn lemma_pan_past_lines(s: Seq<u8>, row: int, col: int, left: int, rows: int, cols: int)
    requires
        0 <= left,
        0 <= rows,
        forall|k: int|
            0 <= k < window(s, sub_sat(row, rows), rows).len() ==> {
                let line = #[trigger] window(s, sub_sat(row, rows), rows)[k];
                line.1 - line.0 <= left
            },
    ensures
        scroll_cols(s, row, col, left, rows, cols) == (Moved { row, col, page: None }),
        left == col ==> right_move(s, row, col, rows, cols) == (Moved { row, col, page: None }),
        left == sub_sat(col, 2 * cols) ==> left_move(s, row, col, rows, cols) == (Moved {
            row,
            col,
            page: None,
        }),
{
    crate::reader::lemma_column_clamp(s, sub_sat(row, rows), left, rows, cols);
}

/// After `k` page downs from the start, through a source of `pages` full pages.
proof fn lemma_page_downs(s: Seq<u8>, col: int, rows: int, cols: int, pages: nat, k: nat)
    requires
        rows >= 1,
        all_lines(s).len() == pages * rows,
        k <= pages,
    ensures
        replay(s, 0, col, repeated(Message::ScrollDownPage, k), rows, cols).row == k * rows,
        replay(s, 0, col, repeated(Message::ScrollDownPage, k), rows, cols).col == col,
        k > 0 ==> replay(s, 0, col, repeated(Message::ScrollDownPage, k), rows, cols).page
            == Some(render(s, window(s, (k - 1) * rows, rows), view_col(col, cols), cols)),
    decreases k,
{
    if k > 0 {
        let j = (k - 1) as nat;
        lemma_page_downs(s, col, rows, cols, pages, j);
        assert(repeated(Message::ScrollDownPage, k).drop_last() =~= repeated(
            Message::ScrollDownPage,
            j,
        ));
        assert(j * rows + rows == k * rows) by (nonlinear_arith)
            requires
                k == j + 1,
        ;
        assert(k * rows <= pages * rows) by (nonlinear_arith)
            requires
                k <= pages,
                rows >= 1,
        ;
        assert(0 <= j * rows) by (nonlinear_arith)
            requires
                rows >= 1,
        ;
        assert(window(s, j * rows, rows).len() == rows);
    }
}

/// The text of the first `k` pages of `rows` lines, one after another, is the text of
/// the first `k * rows` lines.
proof fn lemma_join_pages(s: Seq<u8>, read_col: int, rows: int, cols: int, pages: nat, k: nat)
    requires
        rows >= 1,
        all_lines(s).len() == pages * rows,
        1 <= k <= pages,
    ensures
        join_pages(
            Seq::new(pages, |i: int| render(s, window(s, i * rows, rows), read_col, cols)).take(
                k as int,
            ),
        ) == render(s, all_lines(s).take(k * rows), read_col, cols),
    decreases k,
{
    let table = all_lines(s);
    let texts = Seq::new(pages, |i: int| render(s, window(s, i * rows, rows), read_col, cols));
    let j = (k - 1) as nat;
    assert(j * rows + rows == k * rows) by (nonlinear_arith)
        requires
            k == j + 1,
    ;
    assert(k * rows <= pages * rows) by (nonlinear_arith)
        requires
            k <= pages,
            rows >= 1,
    ;
    assert(0 <= j * rows) by (nonlinear_arith)
        requires
            rows >= 1,
    ;
    assert(window(s, j * rows, rows) =~= table.subrange(j * rows, k * rows));
    if k == 1 {
        assert(table.take(k * rows) =~= window(s, 0, rows));
    } else {
        lemma_join_pages(s, read_col, rows, cols, pages, j);
        assert(texts.take(k as int).drop_last() =~= texts.take(j as int));
        assert(1 * rows <= j * rows) by (nonlinear_arith)
            requires
                j >= 1,
                rows >= 1,
        ;
        assert(table.take(k * rows) =~= table.take(j * rows) + window(s, j * rows, rows));
        lemma_render_concat(s, table.take(j * rows), window(s, j * rows, rows), read_col, cols);
    }
}

/// Paging down from the start through a source whose line count is a multiple of the
/// page height shows each page in turn; the pages one after another are the text of
/// the whole source, line by line, in order; and a further page down shows nothing.
pub proof fn lemma_page_down_round_trip(s: Seq<u8>, col: int, rows: int, cols: int, pages: nat)
    requires
        rows >= 1,
        all_lines(s).len() == pages * rows,
    ensures
        forall|k: nat|
            k < pages ==> #[trigger] replay(s, 0, col, repeated(Message::ScrollDownPage, k + 1), rows, cols)
                == (Moved {
                row: (k + 1) * rows,
                col,
                page: Some(render(s, window(s, k * rows, rows), view_col(col, cols), cols)),
            }),
        pages > 0 ==> join_pages(
            Seq::new(
                pages,
                |k: int| render(s, window(s, k * rows, rows), view_col(col, cols), cols),
            ),
        ) == render(s, all_lines(s), view_col(col, cols), cols),
        page_down_move(s, pages * rows, col, rows, cols).page is None,
{
    assert forall|k: nat| k < pages implies #[trigger] replay(
        s,
        0,
        col,
        repeated(Message::ScrollDownPage, k + 1),
        rows,
        cols,
    ) == (Moved {
        row: (k + 1) * rows,
        col,
        page: Some(render(s, window(s, k * rows, rows), view_col(col, cols), cols)),
    }) by {
        lemma_page_downs(s, col, rows, cols, pages, k + 1);
    }
    if pages > 0 {
        let texts = Seq::new(
            pages,
            |k: int| render(s, window(s, k * rows, rows), view_col(col, cols), cols),
        );
        lemma_join_pages(s, view_col(col, cols), rows, cols, pages, pages);
        assert(texts.take(pages as int) =~= texts);
        assert(all_lines(s).take(pages * rows) =~= all_lines(s));
    }
}

} // verus!

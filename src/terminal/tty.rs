use vstd::prelude::*;

use crate::drivers::framebuffer::{Framebuffer, RGB, on_screen};
use crate::terminal::ansi::{AnsiColor, AnsiCommand, AnsiHandler, AnsiStage, AnsiState, ParserResult, run};
use crate::terminal::themes::Theme;
use vstd::string::StringSliceAdditionalSpecFns;

verus! {

/// Most cells the scrollback buffer grows to.
pub const MAX_CELLS: usize = 0x400_0000;

/// A position in buffer coordinates.
#[derive(PartialEq, Eq, Structural, Clone, Copy, Debug)]
pub struct Pos {
    pub line: usize,
    pub column: usize,
}

impl Pos {
    pub fn origin() -> (r: Self)
        ensures
            r == (Pos { line: 0, column: 0 }),
    {
        Pos { line: 0, column: 0 }
    }
}

impl Default for Pos {
    fn default() -> (r: Self)
        ensures
            r == (Pos { line: 0, column: 0 }),
    {
        Pos::origin()
    }
}

/// Foreground and background colors of a cell.
#[derive(PartialEq, Eq, Structural, Clone, Copy, Debug)]
pub struct Style {
    pub foreground: AnsiColor,
    pub background: AnsiColor,
}

pub open spec fn default_style() -> Style {
    Style { foreground: AnsiColor::DefaultForeground, background: AnsiColor::DefaultBackground }
}

impl Default for Style {
    fn default() -> (r: Self)
        ensures
            r == default_style(),
    {
        Style { foreground: AnsiColor::DefaultForeground, background: AnsiColor::DefaultBackground }
    }
}

/// One character of the terminal with its style.
#[derive(PartialEq, Eq, Structural, Clone, Copy, Debug)]
pub struct TextCell {
    pub style: Style,
    pub content: char,
}

impl TextCell {
    pub fn empty() -> (r: Option<Self>)
        ensures
            r is None,
    {
        None
    }
}

/// `1 +` the index of the last non-empty cell among the `n` cells from `lo`, or 0.
pub open spec fn line_len(c: Seq<Option<TextCell>>, lo: int, n: int) -> int
    decreases n,
{
    if n <= 0 {
        0
    } else if c[lo + n - 1] is Some {
        n
    } else {
        line_len(c, lo, n - 1)
    }
}

/// A buffer's contents: its cells, row after row, `lines` rows of `cols` cells.
pub ghost struct BufferModel {
    pub cells: Seq<Option<TextCell>>,
    pub lines: nat,
    pub cols: nat,
}

/// Rows after doubling `lines` until cell `pos` is not the last nor past it, as far as
/// `MAX_CELLS` allows.
pub open spec fn grown_lines(lines: nat, cols: nat, pos: int) -> nat
    decreases MAX_CELLS - lines,
{
    if lines > 0 && cols > 0 && lines * 2 <= MAX_CELLS && pos + 1 >= lines * cols && lines * cols
        * 2 <= MAX_CELLS {
        grown_lines(lines * 2, cols, pos)
    } else {
        lines
    }
}

/// `m` grown so that it holds cell `pos`, as far as `MAX_CELLS` allows; new cells are empty.
pub open spec fn grown(m: BufferModel, pos: int) -> BufferModel {
    let lines = grown_lines(m.lines, m.cols, pos);
    BufferModel {
        cells: Seq::new(lines * m.cols, |j: int| if j < m.cells.len() { m.cells[j] } else { None }),
        lines,
        cols: m.cols,
    }
}

/// `m` with `cell` placed at index `pos`, after growing.
pub open spec fn put(m: BufferModel, pos: int, cell: TextCell) -> BufferModel {
    let g = grown(m, pos);
    if pos < g.cells.len() {
        BufferModel { cells: g.cells.update(pos, Some(cell)), ..g }
    } else {
        g
    }
}

/// `m` with the first `n` characters of `text` placed from index `pos` on.
pub open spec fn put_all(m: BufferModel, pos: int, text: Seq<char>, style: Style, n: int) -> BufferModel
    decreases n,
{
    if n <= 0 {
        m
    } else {
        put(put_all(m, pos, text, style, n - 1), pos + n - 1, TextCell { style, content: text[n - 1] })
    }
}

/// `m` after `write_char(ch, line, column, style)`.
pub open spec fn char_written(m: BufferModel, ch: char, line: int, column: int, style: Style) -> BufferModel {
    if m.cols == 0 || line >= (MAX_CELLS as int) / (m.cols as int) {
        m
    } else {
        put(m, line * m.cols + column, TextCell { style, content: ch })
    }
}

/// The text of a terminal, row after row, with its style; `max_lines` rows of `max_columns`
/// cells.
pub struct TerminalBuffer {
    max_lines: usize,
    max_columns: usize,
    buffer: Vec<Option<TextCell>>,
}

impl TerminalBuffer {
    pub closed spec fn cells(&self) -> Seq<Option<TextCell>> {
        self.buffer@
    }

    pub closed spec fn lines(&self) -> nat {
        self.max_lines as nat
    }

    pub closed spec fn columns(&self) -> nat {
        self.max_columns as nat
    }

    pub closed spec fn model(&self) -> BufferModel {
        BufferModel { cells: self.buffer@, lines: self.max_lines as nat, cols: self.max_columns as nat }
    }

    pub open spec fn wf(&self) -> bool {
        &&& self.columns() > 0
        &&& self.lines() > 0
        &&& self.cells().len() == self.lines() * self.columns()
        &&& self.cells().len() <= MAX_CELLS
    }

    /// `after` holds what `self` held, and empty cells past it, but at the cells `[pos, pos + n)`.
    pub open spec fn keeps_outside(&self, after: Self, pos: int, n: int) -> bool {
        &&& after.wf()
        &&& after.columns() == self.columns()
        &&& after.lines() >= self.lines()
        &&& after.cells().len() >= self.cells().len()
        &&& forall|j: int|
            0 <= j < after.cells().len() && !(pos <= j < pos + n) ==> #[trigger] after.cells()[j]
                == if j < self.cells().len() {
                self.cells()[j]
            } else {
                None
            }
    }

    pub proof fn lemma_sizes(&self)
        requires
            self.wf(),
        ensures
            self.columns() <= MAX_CELLS,
            self.lines() <= MAX_CELLS,
    {
        assert(self.columns() <= self.cells().len() && self.lines() <= self.cells().len())
            by (nonlinear_arith)
            requires
                self.cells().len() == self.lines() * self.columns(),
                self.lines() > 0,
                self.columns() > 0,
        ;
    }

    /// An empty buffer of `lines` rows of `columns` cells.
    pub fn new(lines: usize, columns: usize) -> (r: Self)
        requires
            lines > 0,
            columns > 0,
            lines * columns <= MAX_CELLS,
        ensures
            r.wf(),
            r.lines() == lines,
            r.columns() == columns,
            forall|j: int| 0 <= j < r.cells().len() ==> r.cells()[j] is None,
    {
        let length = lines * columns;
        let mut buffer: Vec<Option<TextCell>> = Vec::new();
        while buffer.len() < length
            invariant
                buffer@.len() <= length,
                forall|j: int| 0 <= j < buffer@.len() ==> buffer@[j] is None,
            decreases length - buffer@.len(),
        {
            buffer.push(TextCell::empty());
        }
        TerminalBuffer { max_lines: lines, max_columns: columns, buffer }
    }

    pub fn max_lines(&self) -> (r: usize)
        ensures
            r == self.lines(),
    {
        self.max_lines
    }

    pub fn max_columns(&self) -> (r: usize)
        ensures
            r == self.columns(),
    {
        self.max_columns
    }

    /// The cell at index `index`, row after row.
    pub fn cell(&self, index: usize) -> (r: Option<TextCell>)
        requires
            index < self.cells().len(),
        ensures
            r == self.cells()[index as int],
    {
        self.buffer[index]
    }

    /// Doubles the number of rows; the new rows are empty.
    fn grow_buffer(&mut self)
        requires
            old(self).wf(),
            old(self).cells().len() * 2 <= MAX_CELLS,
        ensures
            old(self).keeps_outside(*final(self), 0, 0),
            final(self).lines() == old(self).lines() * 2,
            final(self).cells().len() == old(self).cells().len() * 2,
    {
        let old_len = self.buffer.len();
        let new_len = old_len * 2;
        while self.buffer.len() < new_len
            invariant
                self.max_lines == old(self).max_lines,
                self.max_columns == old(self).max_columns,
                old_len == old(self).cells().len(),
                new_len == 2 * old_len,
                old_len <= self.buffer@.len() <= new_len,
                forall|j: int| 0 <= j < self.buffer@.len() ==> self.buffer@[j] == if j < old_len {
                    old(self).cells()[j]
                } else {
                    None
                },
            decreases new_len - self.buffer@.len(),
        {
            self.buffer.push(None);
        }
        let ghost ol = old(self).lines();
        let ghost oc = old(self).cells().len();
        assert(ol * 2 <= MAX_CELLS) by (nonlinear_arith)
            requires
                oc == ol * self.columns(),
                self.columns() >= 1,
                oc * 2 <= MAX_CELLS,
        ;
        self.max_lines = self.max_lines * 2;
        assert(self.cells().len() == self.lines() * self.columns()) by (nonlinear_arith)
            requires
                self.cells().len() == 2 * oc,
                oc == ol * self.columns(),
                self.lines() == 2 * ol,
        ;
    }

    /// Grows the buffer until it holds cell `pos`, as far as `MAX_CELLS` allows.
    fn reserve_cell(&mut self, pos: usize)
        requires
            old(self).wf(),
            pos < MAX_CELLS,
        ensures
            old(self).keeps_outside(*final(self), 0, 0),
            pos + 1 < MAX_CELLS / 2 ==> pos + 1 < final(self).cells().len(),
            old(self).cells().len() > pos + 1 ==> final(self).cells() == old(self).cells(),
            final(self).model() == grown(old(self).model(), pos as int),
    {
        proof {
            assert(self.cells().len() > 0) by (nonlinear_arith)
                requires
                    self.cells().len() == self.lines() * self.columns(),
                    self.lines() > 0,
                    self.columns() > 0,
            ;
        }
        while pos + 1 >= self.buffer.len() && self.buffer.len() * 2 <= MAX_CELLS
            invariant
                self.wf(),
                pos < MAX_CELLS,
                self.cells().len() > 0,
                old(self).keeps_outside(*self, 0, 0),
                old(self).cells().len() > pos + 1 ==> self.cells() == old(self).cells(),
                pos + 1 < MAX_CELLS / 2 && self.cells().len() * 2 > MAX_CELLS ==> pos + 1
                    < self.cells().len(),
                grown(self.model(), pos as int) == grown(old(self).model(), pos as int),
            decreases MAX_CELLS - self.cells().len(),
        {
            let ghost mid = *self;
            proof {
                assert(mid.lines() * 2 <= MAX_CELLS) by (nonlinear_arith)
                    requires
                        mid.cells().len() == mid.lines() * mid.columns(),
                        mid.columns() > 0,
                        mid.cells().len() * 2 <= MAX_CELLS,
                ;
            }
            self.grow_buffer();
            proof {
                assert(self.model().lines == mid.model().lines * 2);
                assert(grown(self.model(), pos as int).cells =~= grown(mid.model(), pos as int).cells);
                assert forall|j: int|
                    0 <= j < self.cells().len() implies #[trigger] self.cells()[j] == if j
                    < old(self).cells().len() {
                    old(self).cells()[j]
                } else {
                    None
                } by {
                    assert(self.cells()[j] == if j < mid.cells().len() {
                        mid.cells()[j]
                    } else {
                        None
                    });
                }
            }
        }
        proof {
            assert(grown(self.model(), pos as int).cells =~= self.model().cells);
        }
    }

    /// Places `ch` at `line`, `column`, growing the buffer first if the cell is its last.
    pub fn write_char(&mut self, ch: char, line: usize, column: usize, style: Style)
        requires
            old(self).wf(),
            column < old(self).columns(),
        ensures
            old(self).keeps_outside(*final(self), line * old(self).columns() + column, 1),
            line * old(self).columns() + column + 1 < MAX_CELLS / 2 ==> final(self).cells()[line
                * old(self).columns() + column] == Some(TextCell { style, content: ch }),
            final(self).model() == char_written(old(self).model(), ch, line as int, column as int, style),
    {
        proof {
            assert(self.columns() <= MAX_CELLS) by (nonlinear_arith)
                requires
                    self.cells().len() == self.lines() * self.columns(),
                    self.lines() > 0,
                    self.cells().len() <= MAX_CELLS,
            ;
        }
        if line >= MAX_CELLS / self.max_columns {
            proof {
                let q = (MAX_CELLS as int) / (self.columns() as int);
                assert(line * self.columns() + 1 >= MAX_CELLS / 2) by (nonlinear_arith)
                    requires
                        line >= q,
                        q == (MAX_CELLS as int) / (self.columns() as int),
                        self.columns() > 0,
                        self.columns() <= MAX_CELLS,
                ;
            }
            return;
        }
        proof {
            assert(line * self.columns() + column < MAX_CELLS) by (nonlinear_arith)
                requires
                    line < (MAX_CELLS as int) / (self.columns() as int),
                    self.columns() > 0,
                    column < self.columns(),
            ;
        }
        let pos = line * self.max_columns + column;
        self.reserve_cell(pos);
        if pos < self.buffer.len() {
            self.buffer.set(pos, Some(TextCell { style, content: ch }));
            assert(self.model().cells =~= put(old(self).model(), pos as int, TextCell { style, content: ch }).cells);
        }
    }

    /// Places `cell` at index `pos`, growing the buffer first when needed.
    fn put_cell(&mut self, pos: usize, cell: TextCell)
        requires
            old(self).wf(),
            pos + 1 < MAX_CELLS / 2,
        ensures
            old(self).keeps_outside(*final(self), pos as int, 1),
            final(self).cells()[pos as int] == Some(cell),
            pos + 1 < final(self).cells().len(),
            final(self).model() == put(old(self).model(), pos as int, cell),
    {
        self.reserve_cell(pos);
        let ghost grown = *self;
        self.buffer.set(pos, Some(cell));
        assert(self.cells().len() == grown.cells().len());
        assert(self.model().cells =~= put(old(self).model(), pos as int, cell).cells);
    }

    /// Places the characters of `text` one after the other from `line`, `column` on, growing the
    /// buffer on demand. Returns how many cells were written.
    pub fn write_formatted(&mut self, text: &[char], line: usize, column: usize, style: Style) -> (r:
        usize)
        requires
            old(self).wf(),
            column < old(self).columns(),
            (line + 1) * old(self).columns() + text@.len() + 1 < MAX_CELLS / 2,
        ensures
            r == text@.len(),
            old(self).keeps_outside(*final(self), line * old(self).columns() + column, r as int),
            forall|i: int|
                0 <= i < r ==> #[trigger] final(self).cells()[line * old(self).columns() + column + i]
                    == Some(TextCell { style, content: text@[i] }),
            final(self).model() == put_all(
                old(self).model(),
                line * old(self).columns() + column,
                text@,
                style,
                text@.len() as int,
            ),
    {
        proof {
            assert(line * self.columns() + column < (line + 1) * self.columns()) by (nonlinear_arith)
                requires
                    column < self.columns(),
            ;
        }
        let ptr = line * self.max_columns + column;
        let mut offset: usize = 0;
        while offset < text.len()
            invariant
                self.wf(),
                offset <= text@.len(),
                ptr == line * old(self).columns() + column,
                ptr + text@.len() + 1 < MAX_CELLS / 2,
                offset > 0 ==> ptr + offset < self.cells().len(),
                self.columns() == old(self).columns(),
                old(self).keeps_outside(*self, ptr as int, offset as int),
                forall|i: int|
                    0 <= i < offset ==> #[trigger] self.cells()[ptr + i] == Some(
                        TextCell { style, content: text@[i] },
                    ),
                self.model() == put_all(old(self).model(), ptr as int, text@, style, offset as int),
            decreases text@.len() - offset,
        {
            let ghost before = *self;
            self.put_cell(ptr + offset, TextCell { style, content: text[offset] });
            proof {
                assert forall|i: int| 0 <= i < offset + 1 implies #[trigger] self.cells()[ptr + i]
                    == Some(TextCell { style, content: text@[i] }) by {
                    if i < offset {
                        assert(before.cells()[ptr + i] == Some(TextCell { style, content: text@[i] }));
                    }
                }
            }
            offset = offset + 1;
        }
        offset
    }

    /// `1 +` the column of the last non-empty cell of `line`, or 0; a line past the buffer is
    /// empty.
    pub fn get_line_length(&self, line: usize) -> (r: usize)
        requires
            self.wf(),
        ensures
            line < self.lines() ==> r == line_len(
                self.cells(),
                line * self.columns(),
                self.columns() as int,
            ),
            line >= self.lines() ==> r == 0,
            r <= self.columns(),
    {
        if line >= self.max_lines {
            return 0;
        }
        proof {
            assert((line + 1) * self.columns() <= self.cells().len()) by (nonlinear_arith)
                requires
                    line < self.lines(),
                    self.cells().len() == self.lines() * self.columns(),
            ;
            assert((line + 1) * self.columns() == line * self.columns() + self.columns())
                by (nonlinear_arith);
        }
        let start = line * self.max_columns;
        let mut n = self.max_columns;
        while n > 0
            invariant
                self.wf(),
                line < self.lines(),
                n <= self.columns(),
                start + self.columns() <= self.cells().len(),
                start == line * self.columns(),
                line_len(self.cells(), start as int, n as int) == line_len(
                    self.cells(),
                    start as int,
                    self.columns() as int,
                ),
            decreases n,
        {
            if self.buffer[start + n - 1].is_some() {
                return n;
            }
            n = n - 1;
        }
        0
    }

    /// Empties the cells `[start, start + len)`.
    pub fn clear_range(&mut self, start: usize, len: usize)
        requires
            old(self).wf(),
            start + len <= old(self).cells().len(),
        ensures
            old(self).keeps_outside(*final(self), start as int, len as int),
            final(self).cells().len() == old(self).cells().len(),
            forall|j: int| start <= j < start + len ==> #[trigger] final(self).cells()[j] is None,
    {
        let mut i = start;
        while i < start + len
            invariant
                self.wf(),
                start <= i <= start + len <= self.cells().len(),
                self.lines() == old(self).lines(),
                self.columns() == old(self).columns(),
                self.cells().len() == old(self).cells().len(),
                forall|j: int|
                    0 <= j < self.cells().len() ==> #[trigger] self.cells()[j] == if start <= j < i {
                        None
                    } else {
                        old(self).cells()[j]
                    },
            decreases start + len - i,
        {
            self.buffer.set(i, None);
            i = i + 1;
        }
    }

    /// The cells of the rows `[start_line, start_line + height)`.
    pub fn get_view(&self, start_line: usize, height: usize) -> (r: &[Option<TextCell>])
        requires
            self.wf(),
            start_line + height <= self.lines(),
        ensures
            r@ == self.cells().subrange(
                start_line * self.columns(),
                (start_line + height) * self.columns(),
            ),
    {
        proof {
            assert((start_line + height) * self.columns() <= self.cells().len()) by (nonlinear_arith)
                requires
                    start_line + height <= self.lines(),
                    self.cells().len() == self.lines() * self.columns(),
            ;
            assert(start_line * self.columns() <= (start_line + height) * self.columns())
                by (nonlinear_arith);
        }
        vstd::slice::slice_subrange(
            self.buffer.as_slice(),
            start_line * self.max_columns,
            (start_line + height) * self.max_columns,
        )
    }
}


/// Margin in pixels left and right of the text.
pub const HORIZONTAL_MARGIN: usize = 20;

/// Margin in pixels above and below the text.
pub const VERTICAL_MARGIN: usize = 20;

/// Rows of scrollback per visible row in a new terminal.
pub const SCROLLBACK_FACTOR: usize = 30;

/// Highest line the cursor or the view reaches.
pub const LINE_CAP: usize = 0x1000_0000;

/// A part of the screen that needs drawing again.
#[derive(PartialEq, Eq, Structural, Clone, Copy, Debug)]
pub enum DrawRequest {
    /// The whole visible window.
    Full,
    /// One buffer line.
    Line(usize),
    /// The window moved down by `delta` rows; `clear` asks to blank the rows it uncovered.
    Scroll { delta: usize, clear: bool },
}

/// `x + d`, kept within `[0, usize::MAX]`.
pub open spec fn saturating_signed(x: int, d: int) -> int {
    if x + d < 0 {
        0
    } else if x + d > usize::MAX {
        usize::MAX as int
    } else {
        x + d
    }
}

pub open spec fn min(a: int, b: int) -> int {
    if a < b {
        a
    } else {
        b
    }
}

fn saturating_add_signed(x: usize, d: isize) -> (r: usize)
    ensures
        r == saturating_signed(x as int, d as int),
{
    if d >= 0 {
        let u = d as usize;
        if x > usize::MAX - u {
            usize::MAX
        } else {
            x + u
        }
    } else {
        let m = (-(d + 1)) as usize + 1;
        if x >= m {
            x - m
        } else {
            0
        }
    }
}

/// What a terminal holds, as values.
pub ghost struct TermModel {
    pub pos: Pos,
    pub top: nat,
    pub rows: nat,
    pub pen: Style,
    pub decoder: AnsiState,
    pub buf: BufferModel,
    pub pending: Seq<DrawRequest>,
}

/// Length of line `l` of `b`, 0 past the buffer.
pub open spec fn line_length_of(b: BufferModel, l: int) -> int {
    if l < b.lines {
        line_len(b.cells, l * b.cols, b.cols as int)
    } else {
        0
    }
}

/// The cursor position that an absolute move to `line` rows below the top and `column` gives.
pub open spec fn absolute_pos(t: TermModel, line: int, column: int) -> Pos {
    let top = t.top as int;
    let l = min(min(top + line, top + t.rows), LINE_CAP as int);
    Pos { line: l as usize, column: min(column, line_length_of(t.buf, l)) as usize }
}

/// The cursor position that a relative move by `line_delta` and `column_delta` gives.
pub open spec fn relative_pos(t: TermModel, line_delta: int, column_delta: int) -> Pos {
    let l = min(saturating_signed(t.pos.line as int, line_delta), t.buf.lines as int);
    Pos {
        line: l as usize,
        column: min(saturating_signed(t.pos.column as int, column_delta), line_length_of(t.buf, l))
            as usize,
    }
}

/// The top of the view after scrolling by `delta`.
pub open spec fn scrolled_top(t: TermModel, delta: int) -> int {
    min(saturating_signed(t.top as int, delta), t.buf.lines as int)
}

/// `t` after the cursor moved `len` cells on, wrapping and scrolling.
pub open spec fn advanced(t: TermModel, len: int) -> TermModel {
    let cols = t.buf.cols as int;
    let c = t.pos.column + len;
    let line = min(t.pos.line + c / cols, LINE_CAP as int);
    let top = t.top as int;
    let new_top = if line > top + t.rows { line - t.rows } else { top };
    let scrolled = if new_top != top {
        seq![DrawRequest::Scroll { delta: (new_top - top) as usize, clear: false }]
    } else {
        Seq::empty()
    };
    let redrawn = if c / cols != 0 { seq![DrawRequest::Line(t.pos.line)] } else { Seq::empty() };
    TermModel {
        pos: Pos { line: line as usize, column: (c % cols) as usize },
        top: new_top as nat,
        pending: t.pending + scrolled + redrawn,
        ..t
    }
}

/// `t` after a newline.
pub open spec fn jumped(t: TermModel) -> TermModel {
    let line = min(t.pos.line + 1, LINE_CAP as int);
    let top = t.top as int;
    let scrolls = line > top + t.rows;
    TermModel {
        pos: Pos { line: line as usize, column: 0 },
        top: (if scrolls { top + 1 } else { top }) as nat,
        pending: t.pending + (if scrolls {
            seq![DrawRequest::Scroll { delta: 1, clear: false }]
        } else {
            Seq::empty()
        }) + seq![DrawRequest::Line((line - 1) as usize)],
        ..t
    }
}

/// `t` after `ch` was written at the cursor.
pub open spec fn char_put(t: TermModel, ch: char) -> TermModel {
    let buf = if t.pos.column < t.buf.cols {
        char_written(t.buf, ch, t.pos.line as int, t.pos.column as int, t.pen)
    } else {
        t.buf
    };
    advanced(TermModel { buf, ..t }, 1)
}

/// `t` after the characters of `text` were written one by one, from the `n`-th on.
pub open spec fn chars_put(t: TermModel, text: Seq<char>, n: int) -> TermModel
    decreases text.len() - n,
{
    if n >= text.len() || n < 0 {
        t
    } else {
        chars_put(char_put(t, text[n]), text, n + 1)
    }
}

/// `t` after `text` (at most 4 characters) was written at the cursor.
pub open spec fn text_put(t: TermModel, text: Seq<char>) -> TermModel {
    let cols = t.buf.cols as int;
    if t.pos.column < cols && t.pos.line < (MAX_CELLS as int / 8) / cols {
        advanced(
            TermModel {
                buf: put_all(t.buf, t.pos.line * cols + t.pos.column, text, t.pen, text.len() as int),
                ..t
            },
            text.len() as int,
        )
    } else {
        chars_put(t, text, 0)
    }
}

/// The decoder with no sequence under way.
pub open spec fn idle_decoder() -> AnsiState {
    AnsiState { stage: AnsiStage::Escape, params: Seq::empty() }
}

/// `t` after `command` was carried out.
pub open spec fn executed(t: TermModel, command: AnsiCommand) -> TermModel {
    match command {
        AnsiCommand::CursorMoveAbsolute { line, column } => {
            let p = absolute_pos(t, line as int, column as int);
            TermModel {
                pos: p,
                pending: t.pending.push(DrawRequest::Line(t.pos.line)).push(DrawRequest::Line(p.line)),
                ..t
            }
        },
        AnsiCommand::CursorMoveColumnAbsolute(column) => {
            let p = absolute_pos(t, t.pos.line as int, column as int);
            TermModel {
                pos: p,
                pending: t.pending.push(DrawRequest::Line(t.pos.line)).push(DrawRequest::Line(p.line)),
                ..t
            }
        },
        AnsiCommand::CursorMoveRelative { line, column } => {
            let p = relative_pos(t, line as int, column as int);
            TermModel {
                pos: p,
                pending: t.pending.push(DrawRequest::Line(t.pos.line)).push(DrawRequest::Line(p.line)),
                ..t
            }
        },
        AnsiCommand::ScrollRelative(delta) => TermModel {
            top: scrolled_top(t, delta as int) as nat,
            pending: t.pending.push(DrawRequest::Full),
            ..t
        },
        AnsiCommand::SetForeground(c) => TermModel { pen: Style { foreground: c, ..t.pen }, ..t },
        AnsiCommand::SetBackground(c) => TermModel { pen: Style { background: c, ..t.pen }, ..t },
        AnsiCommand::ResetGraphicRendition => TermModel { pen: default_style(), ..t },
        AnsiCommand::EraseDisplay { .. } => t,
        AnsiCommand::EraseLine(_) => t,
    }
}

/// `t` after an escape sequence was started or continued with `input` from `start` on, and
/// how many characters that used.
pub open spec fn sequence_fed(t: TermModel, input: Seq<char>, start: int) -> (TermModel, nat) {
    let st = if t.decoder.stage == AnsiStage::Escape {
        AnsiState { stage: AnsiStage::CtrlSequenceIdentifier, ..t.decoder }
    } else {
        t.decoder
    };
    let (st2, res, used) = run(st, input.skip(start));
    match res {
        ParserResult::Valid(cmd) => (executed(TermModel { decoder: idle_decoder(), ..t }, cmd), used),
        ParserResult::Incomplete => (TermModel { decoder: st2, ..t }, used),
        ParserResult::Error(_) => (TermModel { decoder: idle_decoder(), ..t }, used),
    }
}

/// `t` after the characters of `input` from `i` on were fed.
pub open spec fn fed(t: TermModel, input: Seq<char>, i: int) -> TermModel
    decreases input.len() - i,
{
    if i >= input.len() || i < 0 {
        t
    } else {
        let ch = input[i];
        if ch == '\n' {
            fed(jumped(t), input, i + 1)
        } else if ch == '\t' {
            fed(text_put(t, seq![' ', ' ', ' ', ' ']), input, i + 1)
        } else if ch == '\x1b' {
            let (t2, used) = sequence_fed(t, input, i + 1);
            if i + 1 + used > input.len() {
                t2
            } else {
                fed(t2, input, i + 1 + used)
            }
        } else {
            fed(char_put(t, ch), input, i + 1)
        }
    }
}

/// `t` after `push_input(input)`: a sequence under way continues first, then the characters
/// are fed, then the cursor's line is drawn.
pub open spec fn pushed(t: TermModel, input: Seq<char>) -> TermModel {
    let (t1, start) = if t.decoder.stage != AnsiStage::Escape {
        sequence_fed(t, input, 0)
    } else {
        (t, 0nat)
    };
    let t2 = fed(t1, input, start as int);
    TermModel { pending: t2.pending.push(DrawRequest::Line(t2.pos.line)), ..t2 }
}

/// A text terminal: a scrollback buffer, a cursor, a visible window of `height` rows of `width`
/// cells starting at line `scroll`, the current style, and the decoder of escape sequences.
/// What needs drawing again is queued as `DrawRequest`s.
pub struct Terminal {
    height: usize,
    font_width: usize,
    font_height: usize,
    cursor: Pos,
    scroll: usize,
    buffer: TerminalBuffer,
    ansi_handler: AnsiHandler,
    style: Style,
    theme: Theme,
    draws: Vec<DrawRequest>,
}

impl Terminal {
    pub closed spec fn pos(&self) -> Pos {
        self.cursor
    }

    pub closed spec fn top(&self) -> nat {
        self.scroll as nat
    }

    pub closed spec fn rows(&self) -> nat {
        self.height as nat
    }

    pub closed spec fn text(&self) -> TerminalBuffer {
        self.buffer
    }

    pub closed spec fn pen(&self) -> Style {
        self.style
    }

    pub closed spec fn pending(&self) -> Seq<DrawRequest> {
        self.draws@
    }

    pub closed spec fn decoder(&self) -> AnsiHandler {
        self.ansi_handler
    }

    pub closed spec fn colors(&self) -> Theme {
        self.theme
    }

    /// Width and height in pixels of a cell.
    pub closed spec fn cell_size(&self) -> (nat, nat) {
        (self.font_width as nat, self.font_height as nat)
    }

    pub closed spec fn model(&self) -> TermModel {
        TermModel {
            pos: self.cursor,
            top: self.scroll as nat,
            rows: self.height as nat,
            pen: self.style,
            decoder: self.ansi_handler@,
            buf: self.buffer.model(),
            pending: self.draws@,
        }
    }

    pub open spec fn wf(&self) -> bool {
        &&& self.text().wf()
        &&& self.decoder().wf()
        &&& 0 < self.rows() <= MAX_CELLS
        &&& self.pos().column <= self.text().columns()
        &&& self.pos().line <= LINE_CAP
        &&& self.top() <= LINE_CAP
        &&& self.cell_size().0 > 0
        &&& self.cell_size().1 > 0
        &&& self.rows() * self.cell_size().1 + 2 * VERTICAL_MARGIN <= usize::MAX
        &&& self.text().columns() * self.cell_size().0 + 2 * HORIZONTAL_MARGIN <= usize::MAX
    }

    /// Length of buffer line `l`, 0 past the buffer.
    pub open spec fn line_length(&self, l: int) -> int {
        if l < self.text().lines() {
            line_len(self.text().cells(), l * self.text().columns(), self.text().columns() as int)
        } else {
            0
        }
    }

    /// Where `move_cursor_absolute(line, column)` puts the cursor.
    pub open spec fn absolute_target(&self, line: int, column: int) -> Pos {
        let top = self.top() as int;
        let l = min(min(top + line, top + self.rows()), LINE_CAP as int);
        Pos { line: l as usize, column: min(column, self.line_length(l)) as usize }
    }

    /// Where `move_cursor_relative(line_delta, column_delta)` puts the cursor.
    pub open spec fn relative_target(&self, line_delta: int, column_delta: int) -> Pos {
        let l = min(saturating_signed(self.pos().line as int, line_delta), self.text().lines() as int);
        Pos {
            line: l as usize,
            column: min(saturating_signed(self.pos().column as int, column_delta), self.line_length(l))
                as usize,
        }
    }

    /// The top of the view after `scroll_relative(delta)`.
    pub open spec fn scroll_target(&self, delta: int) -> int {
        min(saturating_signed(self.top() as int, delta), self.text().lines() as int)
    }

    /// `after` differs from `self` at most in the cursor, the view and the queued draws.
    pub open spec fn moves(&self, after: Self) -> bool {
        &&& after.wf()
        &&& after.text() == self.text()
        &&& after.decoder() == self.decoder()
        &&& after.pen() == self.pen()
        &&& after.rows() == self.rows()
        &&& after.colors() == self.colors()
        &&& after.cell_size() == self.cell_size()
    }

    /// A terminal filling a display of the given size in pixels with glyphs of the given size.
    pub fn new(display_width: usize, display_height: usize, font_width: usize, font_height: usize) -> (r:
        Self)
        requires
            font_width > 0,
            font_height > 0,
            display_width >= 2 * HORIZONTAL_MARGIN + font_width,
            display_height >= 2 * VERTICAL_MARGIN + font_height,
            ((display_height - 2 * VERTICAL_MARGIN) / font_height as int) * SCROLLBACK_FACTOR * ((
            display_width - 2 * HORIZONTAL_MARGIN) / font_width as int) <= MAX_CELLS,
        ensures
            r.wf(),
            r.rows() == (display_height - 2 * VERTICAL_MARGIN) / font_height as int,
            r.text().columns() == (display_width - 2 * HORIZONTAL_MARGIN) / font_width as int,
            r.text().lines() == r.rows() * SCROLLBACK_FACTOR,
            r.pos() == (Pos { line: 0, column: 0 }),
            r.top() == 0,
            r.pen() == default_style(),
            r.decoder()@.stage == crate::terminal::ansi::AnsiStage::Escape,
            r.pending() == seq![DrawRequest::Full],
    {
        let height = (display_height - 2 * VERTICAL_MARGIN) / font_height;
        let width = (display_width - 2 * HORIZONTAL_MARGIN) / font_width;
        proof {
            assert(height >= 1 && width >= 1) by (nonlinear_arith)
                requires
                    height == (display_height - 2 * VERTICAL_MARGIN) / font_height as int,
                    width == (display_width - 2 * HORIZONTAL_MARGIN) / font_width as int,
                    display_height - 2 * VERTICAL_MARGIN >= font_height,
                    display_width - 2 * HORIZONTAL_MARGIN >= font_width,
                    font_width > 0,
                    font_height > 0,
            ;
            assert(height * font_height + 2 * VERTICAL_MARGIN <= display_height) by (nonlinear_arith)
                requires
                    height == (display_height - 2 * VERTICAL_MARGIN) / font_height as int,
                    display_height >= 2 * VERTICAL_MARGIN,
                    font_height > 0,
            ;
            assert(width * font_width + 2 * HORIZONTAL_MARGIN <= display_width) by (nonlinear_arith)
                requires
                    width == (display_width - 2 * HORIZONTAL_MARGIN) / font_width as int,
                    display_width >= 2 * HORIZONTAL_MARGIN,
                    font_width > 0,
            ;
            assert(height <= height * SCROLLBACK_FACTOR * width) by (nonlinear_arith)
                requires
                    width >= 1,
            ;
        }
        let mut draws: Vec<DrawRequest> = Vec::new();
        draws.push(DrawRequest::Full);
        Terminal {
            height,
            font_width,
            font_height,
            cursor: Pos::origin(),
            scroll: 0,
            buffer: TerminalBuffer::new(height * SCROLLBACK_FACTOR, width),
            ansi_handler: AnsiHandler::new(),
            style: Style::default(),
            theme: Theme::default(),
            draws,
        }
    }

    pub fn cursor(&self) -> (r: Pos)
        ensures
            r == self.pos(),
    {
        self.cursor
    }

    pub fn scroll(&self) -> (r: usize)
        ensures
            r == self.top(),
    {
        self.scroll
    }

    pub fn height(&self) -> (r: usize)
        ensures
            r == self.rows(),
    {
        self.height
    }

    pub fn width(&self) -> (r: usize)
        ensures
            r == self.text().columns(),
    {
        self.buffer.max_columns()
    }

    pub fn style(&self) -> (r: Style)
        ensures
            r == self.pen(),
    {
        self.style
    }

    pub fn buffer(&self) -> (r: &TerminalBuffer)
        ensures
            *r == self.text(),
    {
        &self.buffer
    }

    pub fn theme(&self) -> (r: &Theme)
        ensures
            *r == self.colors(),
    {
        &self.theme
    }

    /// The queued draw requests, oldest first; the queue is left empty.
    pub fn take_draw_requests(&mut self) -> (r: Vec<DrawRequest>)
        ensures
            r@ == old(self).pending(),
            final(self).pending() == Seq::<DrawRequest>::empty(),
            final(self).pos() == old(self).pos(),
            final(self).top() == old(self).top(),
            final(self).text() == old(self).text(),
            final(self).decoder() == old(self).decoder(),
            final(self).pen() == old(self).pen(),
            final(self).rows() == old(self).rows(),
            final(self).colors() == old(self).colors(),
            final(self).cell_size() == old(self).cell_size(),
    {
        let mut taken: Vec<DrawRequest> = Vec::new();
        std::mem::swap(&mut taken, &mut self.draws);
        taken
    }

    fn request_full_draw(&mut self)
        ensures
            final(self).pending() == old(self).pending().push(DrawRequest::Full),
            final(self).pos() == old(self).pos(),
            final(self).top() == old(self).top(),
            final(self).text() == old(self).text(),
            final(self).decoder() == old(self).decoder(),
            final(self).pen() == old(self).pen(),
            final(self).rows() == old(self).rows(),
            final(self).colors() == old(self).colors(),
            final(self).cell_size() == old(self).cell_size(),
    {
        self.draws.push(DrawRequest::Full);
    }

    fn request_line_draw(&mut self, line: usize)
        ensures
            final(self).pending() == old(self).pending().push(DrawRequest::Line(line)),
            final(self).pos() == old(self).pos(),
            final(self).top() == old(self).top(),
            final(self).text() == old(self).text(),
            final(self).decoder() == old(self).decoder(),
            final(self).pen() == old(self).pen(),
            final(self).rows() == old(self).rows(),
            final(self).colors() == old(self).colors(),
            final(self).cell_size() == old(self).cell_size(),
    {
        self.draws.push(DrawRequest::Line(line));
    }

    fn request_scroll_draw(&mut self, delta: usize, clear: bool)
        ensures
            final(self).pending() == old(self).pending().push(DrawRequest::Scroll { delta, clear }),
            final(self).pos() == old(self).pos(),
            final(self).top() == old(self).top(),
            final(self).text() == old(self).text(),
            final(self).decoder() == old(self).decoder(),
            final(self).pen() == old(self).pen(),
            final(self).rows() == old(self).rows(),
            final(self).colors() == old(self).colors(),
            final(self).cell_size() == old(self).cell_size(),
    {
        self.draws.push(DrawRequest::Scroll { delta, clear });
    }

    /// Moves the cursor `len` cells on, wrapping at the end of each line, and scrolls the view
    /// down so that the cursor stays visible.
    pub fn advance_cursor_wrapping(&mut self, len: usize)
        requires
            old(self).wf(),
            len <= 4,
        ensures
            old(self).moves(*final(self)),
            ({
                let cols = old(self).text().columns() as int;
                let c = old(self).pos().column + len;
                let line = min(old(self).pos().line + c / cols, LINE_CAP as int);
                let top = old(self).top() as int;
                let h = old(self).rows() as int;
                let new_top = if line > top + h { line - h } else { top };
                let scrolled = if new_top != top {
                    seq![DrawRequest::Scroll { delta: (new_top - top) as usize, clear: false }]
                } else {
                    Seq::empty()
                };
                let redrawn = if c / cols != 0 {
                    seq![DrawRequest::Line(old(self).pos().line)]
                } else {
                    Seq::empty()
                };
                &&& final(self).pos() == (Pos { line: line as usize, column: (c % cols) as usize })
                &&& final(self).top() == new_top
                &&& final(self).pending() == old(self).pending() + scrolled + redrawn
            }),
            final(self).model() == advanced(old(self).model(), len as int),
    {
        proof {
            self.buffer.lemma_sizes();
        }
        let cols = self.buffer.max_columns();
        let new_col_with_overflow = self.cursor.column + len;
        let old_line = self.cursor.line;
        let cursor_delta = new_col_with_overflow / cols;
        self.cursor.column = new_col_with_overflow % cols;
        self.cursor.line = if cursor_delta > LINE_CAP - self.cursor.line {
            LINE_CAP
        } else {
            self.cursor.line + cursor_delta
        };
        let ghost p0 = self.pending();
        if self.cursor.line > self.scroll + self.height {
            let old_scroll = self.scroll;
            self.scroll = self.cursor.line - self.height;
            let scroll_delta = self.scroll - old_scroll;
            if scroll_delta != 0 {
                self.request_scroll_draw(scroll_delta, false);
            }
        }
        let ghost p1 = self.pending();
        if cursor_delta != 0 {
            self.request_line_draw(old_line);
        }
        proof {
            assert(p1 == p0 || p1 == p0.push(DrawRequest::Scroll { delta: (self.top() - old(self).top()) as usize, clear: false }));
            assert(self.pending() =~= old(self).pending() + (if self.top() != old(self).top() {
                seq![DrawRequest::Scroll { delta: (self.top() - old(self).top()) as usize, clear: false }]
            } else {
                Seq::empty()
            }) + (if cursor_delta != 0 {
                seq![DrawRequest::Line(old_line)]
            } else {
                Seq::empty()
            }));
        }
    }

    /// Moves the cursor to the start of the next line, scrolling by one row when it leaves the
    /// view.
    pub fn jump_line(&mut self)
        requires
            old(self).wf(),
        ensures
            old(self).moves(*final(self)),
            ({
                let line = min(old(self).pos().line + 1, LINE_CAP as int);
                let top = old(self).top() as int;
                let scrolls = line > top + old(self).rows();
                &&& final(self).pos() == (Pos { line: line as usize, column: 0 })
                &&& final(self).top() == if scrolls { top + 1 } else { top }
                &&& final(self).pending() == old(self).pending() + (if scrolls {
                    seq![DrawRequest::Scroll { delta: 1, clear: false }]
                } else {
                    Seq::empty()
                }) + seq![DrawRequest::Line((line - 1) as usize)]
            }),
            final(self).model() == jumped(old(self).model()),
    {
        self.cursor.column = 0;
        if self.cursor.line < LINE_CAP {
            self.cursor.line = self.cursor.line + 1;
        }
        let scrolls = self.cursor.line > self.scroll + self.height;
        if scrolls {
            self.scroll = self.scroll + 1;
            self.request_scroll_draw(1, false);
        }
        self.request_line_draw(self.cursor.line - 1);
        proof {
            assert(self.pending() =~= old(self).pending() + (if scrolls {
                seq![DrawRequest::Scroll { delta: 1, clear: false }]
            } else {
                Seq::empty()
            }) + seq![DrawRequest::Line((self.pos().line - 1) as usize)]);
        }
    }

    /// Moves the cursor to `line` rows below the top of the view and to `column`, both kept
    /// within the view and the text of the line.
    pub fn move_cursor_absolute(&mut self, line: usize, column: usize)
        requires
            old(self).wf(),
        ensures
            old(self).moves(*final(self)),
            final(self).top() == old(self).top(),
            final(self).pos() == old(self).absolute_target(line as int, column as int),
            final(self).pending() == old(self).pending().push(DrawRequest::Line(old(self).pos().line)).push(
                DrawRequest::Line(old(self).absolute_target(line as int, column as int).line),
            ),
            final(self).model() == executed(
                old(self).model(),
                AnsiCommand::CursorMoveAbsolute { line, column },
            ),
    {
        let old_line = self.cursor.line;
        let top = self.scroll;
        let bottom = self.scroll + self.height;
        let target = if line > bottom - top {
            bottom
        } else {
            top + line
        };
        let target = if target > LINE_CAP {
            LINE_CAP
        } else {
            target
        };
        self.cursor.line = target;
        let length = self.buffer.get_line_length(target);
        self.cursor.column = if column < length {
            column
        } else {
            length
        };
        self.request_line_draw(old_line);
        self.request_line_draw(self.cursor.line);
    }

    /// Moves the cursor by the given numbers of lines and columns, kept within the buffer and
    /// the text of the line.
    pub fn move_cursor_relative(&mut self, line_delta: isize, column_delta: isize)
        requires
            old(self).wf(),
        ensures
            old(self).moves(*final(self)),
            final(self).top() == old(self).top(),
            final(self).pos() == old(self).relative_target(line_delta as int, column_delta as int),
            final(self).pending() == old(self).pending().push(DrawRequest::Line(old(self).pos().line)).push(
                DrawRequest::Line(old(self).relative_target(line_delta as int, column_delta as int).line),
            ),
            final(self).model() == executed(
                old(self).model(),
                AnsiCommand::CursorMoveRelative { line: line_delta, column: column_delta },
            ),
    {
        proof {
            self.buffer.lemma_sizes();
        }
        let old_line = self.cursor.line;
        let l = saturating_add_signed(self.cursor.line, line_delta);
        let max_lines = self.buffer.max_lines();
        self.cursor.line = if l < max_lines {
            l
        } else {
            max_lines
        };
        let length = self.buffer.get_line_length(self.cursor.line);
        let c = saturating_add_signed(self.cursor.column, column_delta);
        self.cursor.column = if c < length {
            c
        } else {
            length
        };
        self.request_line_draw(old_line);
        self.request_line_draw(self.cursor.line);
    }

    /// Moves the view down by `delta` rows (up when negative), within the buffer.
    pub fn scroll_relative(&mut self, delta: isize)
        requires
            old(self).wf(),
        ensures
            old(self).moves(*final(self)),
            final(self).pos() == old(self).pos(),
            final(self).top() == old(self).scroll_target(delta as int),
            final(self).pending() == old(self).pending().push(DrawRequest::Full),
            final(self).model() == executed(old(self).model(), AnsiCommand::ScrollRelative(delta)),
    {
        proof {
            self.buffer.lemma_sizes();
        }
        let s = saturating_add_signed(self.scroll, delta);
        let max_lines = self.buffer.max_lines();
        self.scroll = if s < max_lines {
            s
        } else {
            max_lines
        };
        self.request_full_draw();
    }

    pub fn set_background(&mut self, color: AnsiColor)
        ensures
            final(self).pen() == (Style { background: color, ..old(self).pen() }),
            final(self).pos() == old(self).pos(),
            final(self).top() == old(self).top(),
            final(self).text() == old(self).text(),
            final(self).decoder() == old(self).decoder(),
            final(self).rows() == old(self).rows(),
            final(self).colors() == old(self).colors(),
            final(self).pending() == old(self).pending(),
            final(self).model() == executed(old(self).model(), AnsiCommand::SetBackground(color)),
            final(self).cell_size() == old(self).cell_size(),
    {
        self.style.background = color;
    }

    pub fn set_foreground(&mut self, color: AnsiColor)
        ensures
            final(self).pen() == (Style { foreground: color, ..old(self).pen() }),
            final(self).pos() == old(self).pos(),
            final(self).top() == old(self).top(),
            final(self).text() == old(self).text(),
            final(self).decoder() == old(self).decoder(),
            final(self).rows() == old(self).rows(),
            final(self).colors() == old(self).colors(),
            final(self).pending() == old(self).pending(),
            final(self).model() == executed(old(self).model(), AnsiCommand::SetForeground(color)),
            final(self).cell_size() == old(self).cell_size(),
    {
        self.style.foreground = color;
    }

    /// Returns to the theme's default colors.
    pub fn reset_style(&mut self)
        ensures
            final(self).pen() == default_style(),
            final(self).pos() == old(self).pos(),
            final(self).top() == old(self).top(),
            final(self).text() == old(self).text(),
            final(self).decoder() == old(self).decoder(),
            final(self).rows() == old(self).rows(),
            final(self).colors() == old(self).colors(),
            final(self).pending() == old(self).pending(),
            final(self).model() == executed(old(self).model(), AnsiCommand::ResetGraphicRendition),
            final(self).cell_size() == old(self).cell_size(),
    {
        self.style.foreground = AnsiColor::DefaultForeground;
        self.style.background = AnsiColor::DefaultBackground;
    }

    /// The RGB value of `c` in the current theme.
    pub open spec fn rgb_of(&self, c: AnsiColor) -> RGB {
        match c {
            AnsiColor::ColorCode(code) => self.colors().ansi_colors@[code as int],
            AnsiColor::Rgb(red, green, blue) => RGB(
                crate::drivers::framebuffer::rgb_value(red as int, green as int, blue as int) as u32,
            ),
            AnsiColor::DefaultForeground => self.colors().foreground,
            AnsiColor::DefaultBackground => self.colors().background,
        }
    }

    /// The RGB value of `ansi_color` in the current theme.
    pub fn ansi_to_rgb(&self, ansi_color: AnsiColor) -> (r: RGB)
        requires
            ansi_color matches AnsiColor::ColorCode(c) ==> c < 16,
        ensures
            r == self.rgb_of(ansi_color),
            r == match ansi_color {
                AnsiColor::ColorCode(c) => self.colors().ansi_colors@[c as int],
                AnsiColor::Rgb(red, green, blue) => RGB(
                    crate::drivers::framebuffer::rgb_value(red as int, green as int, blue as int) as u32,
                ),
                AnsiColor::DefaultForeground => self.colors().foreground,
                AnsiColor::DefaultBackground => self.colors().background,
            },
    {
        match ansi_color {
            AnsiColor::ColorCode(code) => self.theme.ansi_colors[code as usize],
            AnsiColor::Rgb(r, g, b) => RGB::new(r, g, b),
            AnsiColor::DefaultForeground => self.theme.foreground,
            AnsiColor::DefaultBackground => self.theme.background,
        }
    }

    /// Carries out `command`. Erasing is not supported and leaves the terminal as it is.
    pub fn execute_ansi_command(&mut self, command: AnsiCommand)
        requires
            old(self).wf(),
        ensures
            final(self).wf(),
            final(self).text() == old(self).text(),
            final(self).decoder() == old(self).decoder(),
            final(self).rows() == old(self).rows(),
            final(self).colors() == old(self).colors(),
            command matches AnsiCommand::SetForeground(c) ==> final(self).pen() == (Style {
                foreground: c,
                ..old(self).pen()
            }),
            command matches AnsiCommand::SetBackground(c) ==> final(self).pen() == (Style {
                background: c,
                ..old(self).pen()
            }),
            command is ResetGraphicRendition ==> final(self).pen() == default_style(),
            !(command is SetForeground || command is SetBackground || command is ResetGraphicRendition)
                ==> final(self).pen() == old(self).pen(),
            (command is EraseDisplay || command is EraseLine) ==> *final(self) == *old(self),
            command matches AnsiCommand::CursorMoveAbsolute { line, column } ==> final(self).pos()
                == old(self).absolute_target(line as int, column as int),
            command matches AnsiCommand::CursorMoveColumnAbsolute(column) ==> final(self).pos()
                == old(self).absolute_target(old(self).pos().line as int, column as int),
            command matches AnsiCommand::CursorMoveRelative { line, column } ==> final(self).pos()
                == old(self).relative_target(line as int, column as int),
            command matches AnsiCommand::ScrollRelative(delta) ==> final(self).top()
                == old(self).scroll_target(delta as int) && final(self).pos() == old(self).pos(),
            (command is SetForeground || command is SetBackground || command is ResetGraphicRendition)
                ==> final(self).pos() == old(self).pos() && final(self).top() == old(self).top(),
            final(self).model() == executed(old(self).model(), command),
    {
        match command {
            AnsiCommand::CursorMoveAbsolute { line, column } => self.move_cursor_absolute(line, column),
            AnsiCommand::CursorMoveRelative { line, column } => self.move_cursor_relative(line, column),
            AnsiCommand::CursorMoveColumnAbsolute(column) => {
                let line = self.cursor.line;
                self.move_cursor_absolute(line, column)
            },
            AnsiCommand::EraseDisplay { mode, preserve_offscreen } => {},
            AnsiCommand::EraseLine(mode) => {},
            AnsiCommand::ScrollRelative(delta) => self.scroll_relative(delta),
            AnsiCommand::SetBackground(color) => self.set_background(color),
            AnsiCommand::SetForeground(color) => self.set_foreground(color),
            AnsiCommand::ResetGraphicRendition => self.reset_style(),
        }
    }

    /// Writes `text` at the cursor in the current style and moves the cursor past it.
    fn send_to_buffer(&mut self, text: &[char])
        requires
            old(self).wf(),
            text@.len() <= 4,
        ensures
            final(self).wf(),
            final(self).decoder() == old(self).decoder(),
            final(self).pen() == old(self).pen(),
            final(self).rows() == old(self).rows(),
            final(self).colors() == old(self).colors(),
            final(self).model() == text_put(old(self).model(), text@),
    {
        let line = self.cursor.line;
        let column = self.cursor.column;
        let cols = self.buffer.max_columns();
        proof {
            self.buffer.lemma_sizes();
        }
        if column < cols && line < MAX_CELLS / 8 / cols {
            proof {
                assert((line + 1) * cols + 5 < MAX_CELLS / 2) by (nonlinear_arith)
                    requires
                        line < (MAX_CELLS as int / 8) / (cols as int),
                        cols > 0,
                        cols <= MAX_CELLS,
                ;
            }
            let n = self.buffer.write_formatted(text, line, column, self.style);
            self.advance_cursor_wrapping(n);
        } else {
            let mut i: usize = 0;
            while i < text.len()
                invariant
                    self.wf(),
                    i <= text@.len() <= 4,
                    self.decoder() == old(self).decoder(),
                    self.pen() == old(self).pen(),
                    self.rows() == old(self).rows(),
                    self.colors() == old(self).colors(),
                    chars_put(self.model(), text@, i as int) == chars_put(old(self).model(), text@, 0),
                    !(column < cols && line < MAX_CELLS / 8 / cols),
                    line == old(self).pos().line,
                    column == old(self).pos().column,
                    cols == old(self).text().columns(),
                decreases text@.len() - i,
            {
                self.send_char_to_buffer(text[i]);
                i = i + 1;
            }
        }
    }

    /// Writes `ch` at the cursor in the current style and moves the cursor past it.
    fn send_char_to_buffer(&mut self, ch: char)
        requires
            old(self).wf(),
        ensures
            final(self).wf(),
            final(self).decoder() == old(self).decoder(),
            final(self).pen() == old(self).pen(),
            final(self).rows() == old(self).rows(),
            final(self).colors() == old(self).colors(),
            final(self).model() == char_put(old(self).model(), ch),
    {
        let line = self.cursor.line;
        let column = self.cursor.column;
        if column < self.buffer.max_columns() {
            self.buffer.write_char(ch, line, column, self.style);
        }
        self.advance_cursor_wrapping(1);
    }

    /// Starts or continues an escape sequence with `input` from `start` on; returns how many
    /// characters it used.
    fn parse_ansi(&mut self, input: &[char], start: usize) -> (used: usize)
        requires
            old(self).wf(),
            start <= input@.len(),
        ensures
            final(self).wf(),
            start + used <= input@.len(),
            final(self).rows() == old(self).rows(),
            final(self).colors() == old(self).colors(),
            (final(self).model(), used as nat) == sequence_fed(old(self).model(), input@, start as int),
    {
        self.ansi_handler.try_start();
        let ghost st = self.ansi_handler@;
        let (result, used) = self.ansi_handler.continue_parse(input, start);
        proof {
            lemma_run_used(st, input@.skip(start as int));
        }
        match result {
            ParserResult::Valid(command) => {
                self.ansi_handler.reset();
                self.execute_ansi_command(command);
            },
            ParserResult::Incomplete => {},
            ParserResult::Error(_) => {
                self.ansi_handler.reset();
            },
        }
        used
    }

    /// Feeds the characters of `s` to the terminal, as `push_input` does.
    pub fn write_str(&mut self, s: &str)
        requires
            old(self).wf(),
        ensures
            final(self).wf(),
            final(self).rows() == old(self).rows(),
            final(self).colors() == old(self).colors(),
            final(self).pending().len() > 0,
            final(self).pending().last() == DrawRequest::Line(final(self).pos().line),
            final(self).model() == pushed(old(self).model(), s@),
    {
        let chars = crate::terminal::logger::chars_of(s);
        self.push_input(chars.as_slice());
    }

    /// Feeds `input` to the terminal: newlines start a new line, tabs are four spaces, escape
    /// sequences are decoded and carried out, anything else is written at the cursor. A
    /// sequence cut at the end of `input` continues with the next input.
    pub fn push_input(&mut self, input: &[char])
        requires
            old(self).wf(),
        ensures
            final(self).wf(),
            final(self).rows() == old(self).rows(),
            final(self).colors() == old(self).colors(),
            final(self).pending().len() > 0,
            final(self).pending().last() == DrawRequest::Line(final(self).pos().line),
            final(self).model() == pushed(old(self).model(), input@),
    {
        let mut i: usize = 0;
        let ghost t0 = self.model();
        if self.ansi_handler.is_active() {
            i = self.parse_ansi(input, 0);
        }
        let ghost target = fed(self.model(), input@, i as int);
        proof {
            let (t1, start) = if t0.decoder.stage != AnsiStage::Escape {
                sequence_fed(t0, input@, 0)
            } else {
                (t0, 0nat)
            };
            assert(t1 == self.model() && start == i);
        }
        while i < input.len()
            invariant
                self.wf(),
                i <= input@.len(),
                self.rows() == old(self).rows(),
                self.colors() == old(self).colors(),
                fed(self.model(), input@, i as int) == target,
            decreases input@.len() - i,
        {
            let ch = input[i];
            i = i + 1;
            if ch == '\n' {
                self.jump_line();
            } else if ch == '\t' {
                let spaces = [' ', ' ', ' ', ' '];
                assert(spaces@ =~= seq![' ', ' ', ' ', ' ']);
                self.send_to_buffer(&spaces);
            } else if ch == '\x1b' {
                let used = self.parse_ansi(input, i);
                i = i + used;
            } else {
                self.send_char_to_buffer(ch);
            }
        }
        let line = self.cursor.line;
        self.request_line_draw(line);
    }
}

/// A run never uses more characters than it is given.
proof fn lemma_run_used(st: crate::terminal::ansi::AnsiState, s: Seq<char>)
    ensures
        run(st, s).2 <= s.len(),
    decreases s.len(),
{
    if s.len() > 0 {
        let (next, out) = crate::terminal::ansi::on_char(st, s[0]);
        if out is None {
            lemma_run_used(next, s.skip(1));
        }
    }
}


/// Collects text into a fixed number of bytes; text that does not fit is cut.
pub struct BufferWriter {
    buffer: Vec<u8>,
    cursor: usize,
}

impl BufferWriter {
    pub closed spec fn capacity(&self) -> nat {
        self.buffer@.len()
    }

    pub closed spec fn written(&self) -> Seq<u8> {
        self.buffer@.take(self.cursor as int)
    }

    pub closed spec fn wf(&self) -> bool {
        self.cursor <= self.buffer@.len()
    }

    pub fn new(capacity: usize) -> (r: Self)
        ensures
            r.wf(),
            r.capacity() == capacity,
            r.written() == Seq::<u8>::empty(),
    {
        let mut buffer: Vec<u8> = Vec::new();
        while buffer.len() < capacity
            invariant
                buffer@.len() <= capacity,
            decreases capacity - buffer@.len(),
        {
            buffer.push(0);
        }
        let r = BufferWriter { buffer, cursor: 0 };
        assert(r.written() =~= Seq::<u8>::empty());
        r
    }

    /// Appends the bytes of `s` when they fit; otherwise the free space is filled with the
    /// start of `s` and the text so far stays as it was.
    pub fn write_str(&mut self, s: &str)
        requires
            old(self).wf(),
        ensures
            final(self).wf(),
            final(self).capacity() == old(self).capacity(),
            old(self).written().len() + s.spec_bytes().len() <= old(self).capacity()
                ==> final(self).written() == old(self).written() + s.spec_bytes(),
            old(self).written().len() + s.spec_bytes().len() > old(self).capacity()
                ==> final(self).written() == old(self).written(),
    {
        let bytes = s.as_bytes();
        let remaining = self.buffer.len() - self.cursor;
        let n = if remaining < bytes.len() {
            remaining
        } else {
            bytes.len()
        };
        let ghost before = self.buffer@;
        let mut i: usize = 0;
        while i < n
            invariant
                self.cursor == old(self).cursor,
                self.cursor + n <= self.buffer@.len() <= usize::MAX,
                self.buffer@.len() == before.len(),
                n <= bytes@.len(),
                i <= n,
                forall|j: int|
                    0 <= j < self.buffer@.len() ==> #[trigger] self.buffer@[j] == if self.cursor <= j
                        < self.cursor + i {
                        bytes@[j - self.cursor]
                    } else {
                        before[j]
                    },
            decreases n - i,
        {
            self.buffer.set(self.cursor + i, bytes[i]);
            i = i + 1;
        }
        if n == bytes.len() {
            self.cursor = self.cursor + n;
            assert(self.written() =~= old(self).written() + bytes@);
        } else {
            assert(self.written() =~= old(self).written());
        }
    }

    /// The bytes written so far.
    pub fn contents(&self) -> (r: &[u8])
        requires
            self.wf(),
        ensures
            r@ == self.written(),
    {
        vstd::slice::slice_subrange(self.buffer.as_slice(), 0, self.cursor)
    }
}


/// `fg` laid over `bg` with opacity `alpha`, as the framebuffer stores it.
pub open spec fn blended(fg: RGB, bg: RGB, alpha: int) -> RGB {
    RGB(
        crate::drivers::framebuffer::rgb_value(
            crate::drivers::framebuffer::blend(((fg.0 / 65536) % 256) as int, ((bg.0 / 65536) % 256) as int, alpha),
            crate::drivers::framebuffer::blend(((fg.0 / 256) % 256) as int, ((bg.0 / 256) % 256) as int, alpha),
            crate::drivers::framebuffer::blend((fg.0 % 256) as int, (bg.0 % 256) as int, alpha),
        ) as u32,
    )
}

pub open spec fn color_ok(c: AnsiColor) -> bool {
    c matches AnsiColor::ColorCode(code) ==> code < 16
}

impl Terminal {
    /// The pixels of the glyph of `cell`, row by row: each intensity of the glyph blends the
    /// cell's foreground over its background. Nothing for a character the font lacks.
    pub fn glyph_pixels(&self, cell: TextCell) -> (r: Option<Vec<Vec<RGB>>>)
        requires
            color_ok(cell.style.foreground),
            color_ok(cell.style.background),
        ensures
            crate::terminal::font::glyph_of(cell.content) is None ==> r is None,
            crate::terminal::font::glyph_of(cell.content) matches Some(g) ==> (r matches Some(rows) && {
                &&& rows@.len() == g.len()
                &&& forall|i: int| 0 <= i < g.len() ==> #[trigger] rows@[i]@.len() == g[i].len()
                &&& forall|i: int, j: int|
                    0 <= i < g.len() && 0 <= j < g[i].len() ==> #[trigger] rows@[i]@[j] == blended(
                        self.rgb_of(cell.style.foreground),
                        self.rgb_of(cell.style.background),
                        g[i][j] as int,
                    )
            }),
    {
        let glyph = match crate::terminal::font::get_glyph(cell.content) {
            Some(g) => g,
            None => return None,
        };
        let ghost g = glyph@.map_values(|row: Vec<u8>| row@);
        let fg = self.ansi_to_rgb(cell.style.foreground);
        let bg = self.ansi_to_rgb(cell.style.background);
        let mut rows: Vec<Vec<RGB>> = Vec::new();
        let mut i: usize = 0;
        while i < glyph.len()
            invariant
                i <= glyph@.len(),
                g == glyph@.map_values(|row: Vec<u8>| row@),
                rows@.len() == i,
                forall|k: int| 0 <= k < i ==> #[trigger] rows@[k]@.len() == g[k].len(),
                forall|k: int, j: int|
                    0 <= k < i && 0 <= j < g[k].len() ==> #[trigger] rows@[k]@[j] == blended(fg, bg, g[k][j] as int),
            decreases glyph@.len() - i,
        {
            let src = &glyph[i];
            let mut row: Vec<RGB> = Vec::new();
            let mut j: usize = 0;
            while j < src.len()
                invariant
                    j <= src@.len(),
                    src@ == g[i as int],
                    row@.len() == j,
                    forall|l: int| 0 <= l < j ==> #[trigger] row@[l] == blended(fg, bg, src@[l] as int),
                decreases src@.len() - j,
            {
                row.push(RGB::alpha_blend(fg, bg, src[j]));
                j = j + 1;
            }
            rows.push(row);
            i = i + 1;
        }
        Some(rows)
    }
}


fn color_valid(c: AnsiColor) -> (r: bool)
    ensures
        r == color_ok(c),
{
    match c {
        AnsiColor::ColorCode(code) => code < 16,
        _ => true,
    }
}

impl Terminal {
    /// Whether buffer line `line` is in the view.
    pub open spec fn shows(&self, line: int) -> bool {
        self.top() <= line < self.top() + self.rows() && line < self.text().lines()
    }

    /// First pixel row of the strip of a line in the view.
    pub open spec fn strip_top(&self, line: int) -> int {
        VERTICAL_MARGIN + self.cell_size().1 * (line - self.top())
    }

    /// The pixel at column `x`, `dy` rows into the strip of `line`, once its first `c` cells are
    /// drawn: the glyph pixel of the right-most of them whose glyph covers it, else the
    /// background.
    pub open spec fn cell_pixel(&self, line: int, x: int, dy: int, c: int) -> u32
        decreases c,
    {
        if c <= 0 {
            self.colors().background.0
        } else {
            let col = c - 1;
            let x0 = HORIZONTAL_MARGIN + col * self.cell_size().0;
            match self.text().cells()[line * self.text().columns() + col] {
                Some(tc) => match crate::terminal::font::glyph_of(tc.content) {
                    Some(g) => if color_ok(tc.style.foreground) && color_ok(tc.style.background) && dy
                        < g.len() && x0 <= x < x0 + g[dy].len() {
                        blended(
                            self.rgb_of(tc.style.foreground),
                            self.rgb_of(tc.style.background),
                            g[dy][x - x0] as int,
                        ).0
                    } else {
                        self.cell_pixel(line, x, dy, col)
                    },
                    None => self.cell_pixel(line, x, dy, col),
                },
                None => self.cell_pixel(line, x, dy, col),
            }
        }
    }

    /// Draws buffer line `line` into its strip of `fb` when it is in the view: the strip is
    /// cleared to the background, then each cell's glyph is drawn at its column.
    pub fn line_draw(&self, fb: &mut Framebuffer, line: usize)
        requires
            self.wf(),
            old(fb).wf(),
        ensures
            final(fb).wf(),
            final(fb).geometry() == old(fb).geometry(),
            forall|a: int, b: int|
                #[trigger] on_screen(old(fb).geometry(), a, b) ==> final(fb).pixel(a, b) == if self.shows(
                    line as int,
                ) && self.strip_top(line as int) <= b < self.strip_top(line as int) + self.cell_size().1 {
                    self.cell_pixel(
                        line as int,
                        a,
                        b - self.strip_top(line as int),
                        self.text().columns() as int,
                    )
                } else {
                    old(fb).pixel(a, b)
                },
    {
        if line >= self.buffer.max_lines() || line < self.scroll || line - self.scroll >= self.height {
            return;
        }
        proof {
            assert(self.font_height * (line - self.scroll) < self.font_height * self.height) by (nonlinear_arith)
                requires
                    line - self.scroll < self.height,
                    self.font_height > 0,
            ;
            assert(self.font_height * self.height == self.rows() * self.cell_size().1) by (nonlinear_arith)
                requires
                    self.rows() == self.height,
                    self.cell_size().1 == self.font_height,
            ;
        }
        let y0 = VERTICAL_MARGIN + self.font_height * (line - self.scroll);
        fb.fill_rows(y0, self.font_height, self.theme.background);
        let cols = self.buffer.max_columns();
        proof {
            self.buffer.lemma_sizes();
            assert((line + 1) * cols <= self.text().cells().len()) by (nonlinear_arith)
                requires
                    line < self.text().lines(),
                    self.text().cells().len() == self.text().lines() * self.text().columns(),
                    cols == self.text().columns(),
            ;
            assert((line + 1) * cols == line * cols + cols) by (nonlinear_arith);
        }
        let mut c: usize = 0;
        while c < cols
            invariant
                self.wf(),
                fb.wf(),
                fb.geometry() == old(fb).geometry(),
                c <= cols == self.text().columns(),
                line * cols + cols <= self.text().cells().len(),
                y0 == self.strip_top(line as int),
                self.shows(line as int),
                forall|a: int, b: int|
                    #[trigger] on_screen(old(fb).geometry(), a, b) ==> fb.pixel(a, b) == if y0 <= b < y0
                        + self.cell_size().1 {
                        self.cell_pixel(line as int, a, b - y0, c as int)
                    } else {
                        old(fb).pixel(a, b)
                    },
            decreases cols - c,
        {
            let cell = self.buffer.cell(line * cols + c);
            match cell {
                Some(tc) => {
                    if color_valid(tc.style.foreground) && color_valid(tc.style.background) {
                        match self.glyph_pixels(tc) {
                            Some(rows) => {
                                let mut rows = rows;
                                rows.truncate(self.font_height);
                                proof {
                                    assert(c * self.font_width < cols * self.font_width) by (nonlinear_arith)
                                        requires
                                            c < cols,
                                            self.font_width > 0,
                                    ;
                                    assert(cols * self.font_width == self.text().columns() * self.cell_size().0)
                                        by (nonlinear_arith)
                                        requires
                                            cols == self.text().columns(),
                                            self.cell_size().0 == self.font_width,
                                    ;
                                }
                                let x0 = HORIZONTAL_MARGIN + c * self.font_width;
                                fb.draw_pixels(x0, y0, &rows);
                            },
                            None => {},
                        }
                    }
                },
                None => {},
            }
            c = c + 1;
        }
    }

    /// Draws the whole view into `fb`: the background, then every line of the view.
    pub fn full_draw(&self, fb: &mut Framebuffer)
        requires
            self.wf(),
            old(fb).wf(),
        ensures
            final(fb).wf(),
            final(fb).geometry() == old(fb).geometry(),
            forall|a: int, b: int|
                #[trigger] on_screen(old(fb).geometry(), a, b) ==> final(fb).pixel(a, b) == {
                    let r = (b - VERTICAL_MARGIN) / (self.cell_size().1 as int);
                    let line = self.top() + r;
                    if b >= VERTICAL_MARGIN && self.shows(line) {
                        self.cell_pixel(
                            line,
                            a,
                            b - self.strip_top(line),
                            self.text().columns() as int,
                        )
                    } else {
                        self.colors().background.0
                    }
                },
    {
        fb.fill(self.theme.background);
        let mut r: usize = 0;
        while r < self.height
            invariant
                self.wf(),
                fb.wf(),
                fb.geometry() == old(fb).geometry(),
                r <= self.rows(),
                forall|a: int, b: int|
                    #[trigger] on_screen(old(fb).geometry(), a, b) ==> fb.pixel(a, b) == {
                        let rr = (b - VERTICAL_MARGIN) / (self.cell_size().1 as int);
                        let line = self.top() + rr;
                        if b >= VERTICAL_MARGIN && rr < r && self.shows(line) {
                            self.cell_pixel(
                                line,
                                a,
                                b - self.strip_top(line),
                                self.text().columns() as int,
                            )
                        } else {
                            self.colors().background.0
                        }
                    },
            decreases self.rows() - r,
        {
            if self.scroll <= usize::MAX - r {
                self.line_draw(fb, self.scroll + r);
                proof {
                    let fh = self.cell_size().1 as int;
                    assert forall|a: int, b: int| #[trigger] on_screen(old(fb).geometry(), a, b) implies fb.pixel(a, b) == {
                        let rr = (b - VERTICAL_MARGIN) / fh;
                        let line = self.top() + rr;
                        if b >= VERTICAL_MARGIN && rr < r + 1 && self.shows(line) {
                            self.cell_pixel(line, a, b - self.strip_top(line), self.text().columns() as int)
                        } else {
                            self.colors().background.0
                        }
                    } by {
                        let st = VERTICAL_MARGIN + fh * r;
                        assert(self.strip_top(self.top() + r) == st);
                        assert((st <= b < st + fh) <==> (b >= VERTICAL_MARGIN && (b - VERTICAL_MARGIN) / fh == r))
                            by (nonlinear_arith)
                            requires
                                st == VERTICAL_MARGIN + fh * r,
                                fh > 0,
                        ;
                    }
                }
            }
            r = r + 1;
        }
        proof {
            assert forall|a: int, b: int| #[trigger] on_screen(old(fb).geometry(), a, b) implies b >= VERTICAL_MARGIN
                && self.shows(self.top() + (b - VERTICAL_MARGIN) / (self.cell_size().1 as int)) ==> (b
                - VERTICAL_MARGIN) / (self.cell_size().1 as int) < r by {}
        }
    }

    /// Rows of pixels that scrolling by `delta` lines moves within a text area of `band` rows.
    pub open spec fn scroll_rows(&self, delta: int, band: int) -> int {
        min(delta * self.cell_size().1, band)
    }

    /// Moves the text area of `fb` (all rows but the margins) up by `scroll_delta` lines of
    /// cells; with `clear_scroll`, the uncovered rows at its bottom become background.
    pub fn scroll_draw(&self, fb: &mut Framebuffer, scroll_delta: usize, clear_scroll: bool)
        requires
            self.wf(),
            old(fb).wf(),
        ensures
            final(fb).wf(),
            final(fb).geometry() == old(fb).geometry(),
            ({
                let h = old(fb).geometry().height as int;
                let end = if h >= 2 * VERTICAL_MARGIN { h - VERTICAL_MARGIN } else { VERTICAL_MARGIN as int };
                let moved = self.scroll_rows(scroll_delta as int, end - VERTICAL_MARGIN);
                forall|a: int, b: int|
                    #[trigger] on_screen(old(fb).geometry(), a, b) ==> final(fb).pixel(a, b) == if VERTICAL_MARGIN
                        <= b < end - moved {
                        old(fb).pixel(a, b + moved)
                    } else if clear_scroll && end - moved <= b < end {
                        self.colors().background.0
                    } else {
                        old(fb).pixel(a, b)
                    }
            }),
    {
        let h = fb.height();
        let end = if h >= 2 * VERTICAL_MARGIN {
            h - VERTICAL_MARGIN
        } else {
            VERTICAL_MARGIN
        };
        let band = end - VERTICAL_MARGIN;
        let moved = if scroll_delta > band / self.font_height {
            band
        } else {
            proof {
                assert(scroll_delta * self.font_height <= band) by (nonlinear_arith)
                    requires
                        scroll_delta <= (band as int) / (self.font_height as int),
                        self.font_height > 0,
                ;
            }
            scroll_delta * self.font_height
        };
        proof {
            assert(moved == self.scroll_rows(scroll_delta as int, band as int)) by (nonlinear_arith)
                requires
                    scroll_delta > (band as int) / (self.font_height as int) ==> moved == band,
                    scroll_delta <= (band as int) / (self.font_height as int) ==> moved == scroll_delta
                        * self.font_height,
                    self.font_height > 0,
                    self.cell_size().1 == self.font_height,
            ;
        }
        if end <= h {
            fb.copy_rows_up(VERTICAL_MARGIN, moved, end);
            if clear_scroll {
                fb.fill_rows(end - moved, moved, self.theme.background);
            }
        }
    }
}

} // verus!

use vstd::prelude::*;

verus! {

/// The escape character that opens a sequence.
pub const ESC: char = '\x1b';

/// The character that follows `ESC` in a control sequence.
pub const BRACKET: char = '[';

/// Capacity of the parameter buffer.
pub const BUFFER_SIZE: usize = 20;

/// Most parameters a sequence may carry.
pub const MAX_PARAMS: usize = 5;

#[derive(PartialEq, Eq, Structural, Clone, Copy, Debug)]
pub enum EraseMode {
    BeforeCursor,
    AfterCursor,
    All,
}

/// A color as a sequence names it: one of the 16 theme colors, a pure RGB value, or the
/// theme's default for the element.
#[derive(PartialEq, Eq, Structural, Clone, Copy, Debug)]
pub enum AnsiColor {
    ColorCode(u8),
    Rgb(u8, u8, u8),
    DefaultForeground,
    DefaultBackground,
}

#[derive(PartialEq, Eq, Structural, Clone, Copy, Debug)]
pub enum Direction {
    Up,
    Down,
    Left,
    Right,
}

#[allow(inconsistent_fields)]
#[derive(PartialEq, Eq, Structural, Clone, Copy, Debug)]
pub enum AnsiCommand {
    CursorMoveAbsolute { line: usize, column: usize },
    CursorMoveRelative { line: isize, column: isize },
    CursorMoveColumnAbsolute(usize),
    EraseDisplay { mode: EraseMode, preserve_offscreen: bool },
    EraseLine(EraseMode),
    ScrollRelative(isize),
    SetBackground(AnsiColor),
    SetForeground(AnsiColor),
    ResetGraphicRendition,
}

#[derive(PartialEq, Eq, Structural, Clone, Copy, Debug)]
pub enum AnsiError {
    Unsupported,
    InvalidParameters,
    BufferOverflow,
}

/// Level of the 6x6x6 color cube for a coordinate `0..6`.
pub open spec fn cube_level(i: int) -> int {
    if i == 0 {
        0
    } else {
        55 + 40 * i
    }
}

/// The color that a 256-color code names.
pub open spec fn color_256(code: int) -> AnsiColor {
    if code < 16 {
        AnsiColor::ColorCode(code as u8)
    } else if code < 232 {
        let v = code - 16;
        AnsiColor::Rgb(
            cube_level(v / 36) as u8,
            cube_level((v / 6) % 6) as u8,
            cube_level(v % 6) as u8,
        )
    } else {
        let l = 8 + (code - 232) * 10;
        AnsiColor::Rgb(l as u8, l as u8, l as u8)
    }
}

/// Applies a color to the foreground (zone 38) or background (zone 48).
pub open spec fn color_for_zone(zone: int, color: AnsiColor) -> Result<AnsiCommand, AnsiError> {
    if zone == 38 {
        Ok(AnsiCommand::SetForeground(color))
    } else if zone == 48 {
        Ok(AnsiCommand::SetBackground(color))
    } else {
        Err(AnsiError::InvalidParameters)
    }
}

pub open spec fn is_byte(v: int) -> bool {
    0 <= v <= 255
}

/// `zone;2;r;g;b`: a pure RGB color.
pub open spec fn rgb_sgr(zone: int, r: int, g: int, b: int) -> Result<AnsiCommand, AnsiError> {
    if !is_byte(r) || !is_byte(g) || !is_byte(b) {
        Err(AnsiError::InvalidParameters)
    } else {
        color_for_zone(zone, AnsiColor::Rgb(r as u8, g as u8, b as u8))
    }
}

/// `zone;5;code`: one of 256 colors.
pub open spec fn sgr_256(zone: int, code: int) -> Result<AnsiCommand, AnsiError> {
    if !is_byte(code) {
        Err(AnsiError::InvalidParameters)
    } else {
        color_for_zone(zone, color_256(code))
    }
}

/// A single SGR code: reset, or one of the 16 theme colors.
pub open spec fn sgr_16(code: int) -> Result<AnsiCommand, AnsiError> {
    if code == 0 {
        Ok(AnsiCommand::ResetGraphicRendition)
    } else if 30 <= code < 38 {
        Ok(AnsiCommand::SetForeground(AnsiColor::ColorCode((code - 30) as u8)))
    } else if 40 <= code < 48 {
        Ok(AnsiCommand::SetBackground(AnsiColor::ColorCode((code - 40) as u8)))
    } else if 90 <= code < 98 {
        Ok(AnsiCommand::SetForeground(AnsiColor::ColorCode((code - 90 + 8) as u8)))
    } else if 100 <= code < 108 {
        Ok(AnsiCommand::SetBackground(AnsiColor::ColorCode((code - 100 + 8) as u8)))
    } else {
        Err(AnsiError::InvalidParameters)
    }
}

/// Select Graphic Rendition with `n` parameters `p`.
pub open spec fn sgr(n: int, p: Seq<i32>) -> Result<AnsiCommand, AnsiError> {
    if n == 0 {
        Ok(AnsiCommand::ResetGraphicRendition)
    } else if p[1] == 2 && (n == 4 || n == 5) {
        rgb_sgr(p[0] as int, p[2] as int, p[3] as int, p[4] as int)
    } else if p[1] == 5 && (n == 2 || n == 3) {
        sgr_256(p[0] as int, p[2] as int)
    } else if n == 1 {
        sgr_16(p[0] as int)
    } else {
        Err(AnsiError::InvalidParameters)
    }
}

pub open spec fn erase_display(n: int, p: Seq<i32>) -> Result<AnsiCommand, AnsiError> {
    if n > 1 {
        Err(AnsiError::InvalidParameters)
    } else if p[0] == 0 {
        Ok(AnsiCommand::EraseDisplay { mode: EraseMode::AfterCursor, preserve_offscreen: true })
    } else if p[0] == 1 {
        Ok(AnsiCommand::EraseDisplay { mode: EraseMode::BeforeCursor, preserve_offscreen: true })
    } else if p[0] == 2 {
        Ok(AnsiCommand::EraseDisplay { mode: EraseMode::All, preserve_offscreen: true })
    } else if p[0] == 3 {
        Ok(AnsiCommand::EraseDisplay { mode: EraseMode::All, preserve_offscreen: false })
    } else {
        Err(AnsiError::InvalidParameters)
    }
}

pub open spec fn erase_line(n: int, p: Seq<i32>) -> Result<AnsiCommand, AnsiError> {
    if n > 1 {
        Err(AnsiError::InvalidParameters)
    } else if p[0] == 0 {
        Ok(AnsiCommand::EraseLine(EraseMode::AfterCursor))
    } else if p[0] == 1 {
        Ok(AnsiCommand::EraseLine(EraseMode::BeforeCursor))
    } else if p[0] == 2 {
        Ok(AnsiCommand::EraseLine(EraseMode::All))
    } else {
        Err(AnsiError::InvalidParameters)
    }
}

pub open spec fn move_relative(n: int, p: Seq<i32>, d: Direction) -> Result<AnsiCommand, AnsiError> {
    if n > 1 {
        Err(AnsiError::InvalidParameters)
    } else {
        let k = p[0] as isize;
        Ok(
            match d {
                Direction::Up => AnsiCommand::CursorMoveRelative { line: -k as isize, column: 0 },
                Direction::Down => AnsiCommand::CursorMoveRelative { line: k, column: 0 },
                Direction::Left => AnsiCommand::CursorMoveRelative { line: 0, column: -k as isize },
                Direction::Right => AnsiCommand::CursorMoveRelative { line: 0, column: k },
            },
        )
    }
}

pub open spec fn move_absolute(n: int, p: Seq<i32>) -> Result<AnsiCommand, AnsiError> {
    if n > 2 {
        Err(AnsiError::Unsupported)
    } else if p[0] < 0 || p[1] < 0 {
        Err(AnsiError::InvalidParameters)
    } else {
        Ok(AnsiCommand::CursorMoveAbsolute { line: p[0] as usize, column: p[1] as usize })
    }
}

pub open spec fn move_column(n: int, p: Seq<i32>) -> Result<AnsiCommand, AnsiError> {
    if n > 1 || p[0] < 0 {
        Err(AnsiError::InvalidParameters)
    } else {
        Ok(AnsiCommand::CursorMoveColumnAbsolute(p[0] as usize))
    }
}

pub open spec fn scroll(n: int, p: Seq<i32>, d: Direction) -> Result<AnsiCommand, AnsiError> {
    let k: isize = if n == 0 {
        1
    } else {
        p[0] as isize
    };
    if n > 1 {
        Err(AnsiError::InvalidParameters)
    } else if d == Direction::Up {
        Ok(AnsiCommand::ScrollRelative(-k as isize))
    } else if d == Direction::Down {
        Ok(AnsiCommand::ScrollRelative(k))
    } else {
        Err(AnsiError::InvalidParameters)
    }
}

fn to_byte(v: i32) -> (r: Result<u8, AnsiError>)
    ensures
        is_byte(v as int) ==> r == Ok::<u8, AnsiError>(v as u8),
        !is_byte(v as int) ==> r == Err::<u8, AnsiError>(AnsiError::InvalidParameters),
{
    if 0 <= v && v <= 255 {
        Ok(v as u8)
    } else {
        Err(AnsiError::InvalidParameters)
    }
}

fn zone_color(zone: i32, color: AnsiColor) -> (r: Result<AnsiCommand, AnsiError>)
    ensures
        r == color_for_zone(zone as int, color),
{
    if zone == 38 {
        Ok(AnsiCommand::SetForeground(color))
    } else if zone == 48 {
        Ok(AnsiCommand::SetBackground(color))
    } else {
        Err(AnsiError::InvalidParameters)
    }
}

pub fn parse_rgb_sgr(zone: i32, r: i32, g: i32, b: i32) -> (res: Result<AnsiCommand, AnsiError>)
    ensures
        res == rgb_sgr(zone as int, r as int, g as int, b as int),
{
    let r = match to_byte(r) {
        Ok(v) => v,
        Err(e) => return Err(e),
    };
    let g = match to_byte(g) {
        Ok(v) => v,
        Err(e) => return Err(e),
    };
    let b = match to_byte(b) {
        Ok(v) => v,
        Err(e) => return Err(e),
    };
    zone_color(zone, AnsiColor::Rgb(r, g, b))
}

fn cube(i: u8) -> (r: u8)
    requires
        i < 6,
    ensures
        r == cube_level(i as int),
{
    if i == 0 {
        0
    } else {
        55 + 40 * i
    }
}

pub fn parse_256_sgr(zone: i32, color_code: i32) -> (r: Result<AnsiCommand, AnsiError>)
    ensures
        r == sgr_256(zone as int, color_code as int),
{
    let code = match to_byte(color_code) {
        Ok(v) => v,
        Err(e) => return Err(e),
    };
    let color = if code < 16 {
        AnsiColor::ColorCode(code)
    } else if code < 232 {
        let v = code - 16;
        AnsiColor::Rgb(cube(v / 36), cube((v / 6) % 6), cube(v % 6))
    } else {
        let l: u8 = 8 + (code - 232) * 10;
        AnsiColor::Rgb(l, l, l)
    };
    zone_color(zone, color)
}

pub fn parse_16_sgr(color_code: i32) -> (r: Result<AnsiCommand, AnsiError>)
    ensures
        r == sgr_16(color_code as int),
{
    let code = match to_byte(color_code) {
        Ok(v) => v,
        Err(e) => return Err(e),
    };
    if code == 0 {
        Ok(AnsiCommand::ResetGraphicRendition)
    } else if 30 <= code && code < 38 {
        Ok(AnsiCommand::SetForeground(AnsiColor::ColorCode(code - 30)))
    } else if 40 <= code && code < 48 {
        Ok(AnsiCommand::SetBackground(AnsiColor::ColorCode(code - 40)))
    } else if 90 <= code && code < 98 {
        Ok(AnsiCommand::SetForeground(AnsiColor::ColorCode(code - 90 + 8)))
    } else if 100 <= code && code < 108 {
        Ok(AnsiCommand::SetBackground(AnsiColor::ColorCode(code - 100 + 8)))
    } else {
        Err(AnsiError::InvalidParameters)
    }
}

pub fn parse_sgr(n_params: usize, params: &[i32]) -> (r: Result<AnsiCommand, AnsiError>)
    requires
        params@.len() == MAX_PARAMS,
    ensures
        r == sgr(n_params as int, params@),
{
    if n_params == 0 {
        Ok(AnsiCommand::ResetGraphicRendition)
    } else if params[1] == 2 && (n_params == 4 || n_params == 5) {
        parse_rgb_sgr(params[0], params[2], params[3], params[4])
    } else if params[1] == 5 && (n_params == 2 || n_params == 3) {
        parse_256_sgr(params[0], params[2])
    } else if n_params == 1 {
        parse_16_sgr(params[0])
    } else {
        Err(AnsiError::InvalidParameters)
    }
}

pub fn parse_erase_display(n_params: usize, params: &[i32]) -> (r: Result<AnsiCommand, AnsiError>)
    requires
        params@.len() == MAX_PARAMS,
    ensures
        r == erase_display(n_params as int, params@),
{
    if n_params > 1 {
        return Err(AnsiError::InvalidParameters);
    }
    match params[0] {
        0 => Ok(AnsiCommand::EraseDisplay { mode: EraseMode::AfterCursor, preserve_offscreen: true }),
        1 => Ok(AnsiCommand::EraseDisplay { mode: EraseMode::BeforeCursor, preserve_offscreen: true }),
        2 => Ok(AnsiCommand::EraseDisplay { mode: EraseMode::All, preserve_offscreen: true }),
        3 => Ok(AnsiCommand::EraseDisplay { mode: EraseMode::All, preserve_offscreen: false }),
        _ => Err(AnsiError::InvalidParameters),
    }
}

pub fn parse_erase_line(n_params: usize, params: &[i32]) -> (r: Result<AnsiCommand, AnsiError>)
    requires
        params@.len() == MAX_PARAMS,
    ensures
        r == erase_line(n_params as int, params@),
{
    if n_params > 1 {
        return Err(AnsiError::InvalidParameters);
    }
    match params[0] {
        0 => Ok(AnsiCommand::EraseLine(EraseMode::AfterCursor)),
        1 => Ok(AnsiCommand::EraseLine(EraseMode::BeforeCursor)),
        2 => Ok(AnsiCommand::EraseLine(EraseMode::All)),
        _ => Err(AnsiError::InvalidParameters),
    }
}

pub fn parse_move_cursor_relative(n_params: usize, params: &[i32], direction: Direction) -> (r:
    Result<AnsiCommand, AnsiError>)
    requires
        params@.len() == MAX_PARAMS,
        params@[0] >= 0,
    ensures
        r == move_relative(n_params as int, params@, direction),
{
    if n_params > 1 {
        return Err(AnsiError::InvalidParameters);
    }
    let distance = params[0] as isize;
    match direction {
        Direction::Up => Ok(AnsiCommand::CursorMoveRelative { line: -distance, column: 0 }),
        Direction::Down => Ok(AnsiCommand::CursorMoveRelative { line: distance, column: 0 }),
        Direction::Left => Ok(AnsiCommand::CursorMoveRelative { line: 0, column: -distance }),
        Direction::Right => Ok(AnsiCommand::CursorMoveRelative { line: 0, column: distance }),
    }
}

pub fn parse_move_cursor_absolute(n_params: usize, params: &[i32]) -> (r: Result<
    AnsiCommand,
    AnsiError,
>)
    requires
        params@.len() == MAX_PARAMS,
    ensures
        r == move_absolute(n_params as int, params@),
{
    if n_params > 2 {
        Err(AnsiError::Unsupported)
    } else if params[0] < 0 || params[1] < 0 {
        Err(AnsiError::InvalidParameters)
    } else {
        Ok(AnsiCommand::CursorMoveAbsolute { line: params[0] as usize, column: params[1] as usize })
    }
}

pub fn parse_move_cursor_column(n_params: usize, params: &[i32]) -> (r: Result<
    AnsiCommand,
    AnsiError,
>)
    requires
        params@.len() == MAX_PARAMS,
    ensures
        r == move_column(n_params as int, params@),
{
    if n_params > 1 || params[0] < 0 {
        Err(AnsiError::InvalidParameters)
    } else {
        Ok(AnsiCommand::CursorMoveColumnAbsolute(params[0] as usize))
    }
}

pub fn parse_scroll(n_params: usize, params: &[i32], direction: Direction) -> (r: Result<
    AnsiCommand,
    AnsiError,
>)
    requires
        params@.len() == MAX_PARAMS,
        params@[0] >= 0,
    ensures
        r == scroll(n_params as int, params@, direction),
{
    if n_params > 1 {
        return Err(AnsiError::InvalidParameters);
    }
    let distance: isize = if n_params == 0 {
        1
    } else {
        params[0] as isize
    };
    match direction {
        Direction::Up => Ok(AnsiCommand::ScrollRelative(-distance)),
        Direction::Down => Ok(AnsiCommand::ScrollRelative(distance)),
        _ => Err(AnsiError::InvalidParameters),
    }
}

/// Decimal value of the digit string `f`.
pub open spec fn decimal(f: Seq<u8>) -> int
    decreases f.len(),
{
    if f.len() == 0 {
        0
    } else {
        decimal(f.drop_last()) * 10 + (f.last() - 48)
    }
}

pub open spec fn all_digits(f: Seq<u8>) -> bool {
    forall|i: int| 0 <= i < f.len() ==> 48 <= #[trigger] f[i] <= 57
}

/// The value of one parameter field: digits only (none stands for 0), fitting an `i32`.
pub open spec fn field_value(f: Seq<u8>) -> Option<i32> {
    if all_digits(f) && decimal(f) <= i32::MAX {
        Some(decimal(f) as i32)
    } else {
        None
    }
}

/// Parameters read so far: the finished fields and the bytes of the open one.
pub ghost struct ParamScan {
    pub finished: Seq<i32>,
    pub open: Seq<u8>,
}

/// Reads the `;`-separated fields of `s`, failing on a bad field or on a sixth field.
pub open spec fn scan(s: Seq<u8>) -> Result<ParamScan, AnsiError>
    decreases s.len(),
{
    if s.len() == 0 {
        Ok(ParamScan { finished: Seq::empty(), open: Seq::empty() })
    } else {
        match scan(s.drop_last()) {
            Err(e) => Err(e),
            Ok(st) => if s.last() == 59 {
                match field_value(st.open) {
                    None => Err(AnsiError::InvalidParameters),
                    Some(v) => if st.finished.len() + 1 == MAX_PARAMS {
                        Err(AnsiError::Unsupported)
                    } else {
                        Ok(ParamScan { finished: st.finished.push(v), open: Seq::empty() })
                    },
                }
            } else {
                Ok(ParamScan { finished: st.finished, open: st.open.push(s.last()) })
            },
        }
    }
}

/// The parameter list of a sequence whose parameter bytes are `s`.
pub open spec fn parse_params(s: Seq<u8>) -> Result<Seq<i32>, AnsiError> {
    if s.len() == 0 {
        Ok(Seq::empty())
    } else {
        match scan(s) {
            Err(e) => Err(e),
            Ok(st) => match field_value(st.open) {
                None => Err(AnsiError::InvalidParameters),
                Some(v) => Ok(st.finished.push(v)),
            },
        }
    }
}

/// `vals` padded with zeros to `MAX_PARAMS` entries.
pub open spec fn padded(vals: Seq<i32>) -> Seq<i32> {
    Seq::new(MAX_PARAMS as nat, |i: int| if i < vals.len() { vals[i] } else { 0 })
}

/// The command that final byte `ch` selects, with `n` parameters `p`.
pub open spec fn dispatch(ch: char, n: int, p: Seq<i32>) -> Result<AnsiCommand, AnsiError> {
    if ch == 'm' {
        sgr(n, p)
    } else if ch == 'J' {
        erase_display(n, p)
    } else if ch == 'K' {
        erase_line(n, p)
    } else if ch == 'A' {
        move_relative(n, p, Direction::Up)
    } else if ch == 'B' {
        move_relative(n, p, Direction::Down)
    } else if ch == 'C' {
        move_relative(n, p, Direction::Right)
    } else if ch == 'D' {
        move_relative(n, p, Direction::Left)
    } else if ch == 'H' || ch == 'f' {
        move_absolute(n, p)
    } else if ch == 'G' {
        move_column(n, p)
    } else if ch == 'S' {
        scroll(n, p, Direction::Up)
    } else if ch == 'T' {
        scroll(n, p, Direction::Down)
    } else {
        Err(AnsiError::Unsupported)
    }
}

/// The outcome of a sequence with parameter bytes `params` closed by `ch`.
pub open spec fn final_result(params: Seq<u8>, ch: char) -> Result<AnsiCommand, AnsiError> {
    match parse_params(params) {
        Err(e) => Err(e),
        Ok(vals) => dispatch(ch, vals.len() as int, padded(vals)),
    }
}

proof fn lemma_scan_err(s: Seq<u8>, k: int)
    requires
        0 <= k <= s.len(),
        scan(s.take(k)) is Err,
    ensures
        scan(s) == scan(s.take(k)),
    decreases s.len() - k,
{
    if k < s.len() {
        assert(s.drop_last().take(k) =~= s.take(k));
        lemma_scan_err(s.drop_last(), k);
    } else {
        assert(s.take(k) =~= s);
    }
}

/// Reads the parameter bytes `bytes` as a list of integers.
fn parse_parameters(bytes: &Vec<u8>) -> (r: Result<Vec<i32>, AnsiError>)
    requires
        bytes@.len() < BUFFER_SIZE,
    ensures
        match r {
            Ok(v) => parse_params(bytes@) == Ok::<Seq<i32>, AnsiError>(v@) && v@.len() <= MAX_PARAMS
                && forall|i: int| 0 <= i < v@.len() ==> v@[i] >= 0,
            Err(e) => parse_params(bytes@) == Err::<Seq<i32>, AnsiError>(e),
        },
{
    let mut values: Vec<i32> = Vec::new();
    if bytes.len() == 0 {
        return Ok(values);
    }
    let mut i: usize = 0;
    let mut start: usize = 0;
    let mut value: u64 = 0;
    let mut digits = true;
    let mut big = false;
    proof {
        assert(bytes@.take(0) =~= Seq::<u8>::empty());
        assert(bytes@.subrange(0, 0) =~= Seq::<u8>::empty());
    }
    while i < bytes.len()
        invariant
            bytes@.len() < BUFFER_SIZE,
            start <= i <= bytes@.len(),
            scan(bytes@.take(i as int)) == Ok::<ParamScan, AnsiError>(
                ParamScan { finished: values@, open: bytes@.subrange(start as int, i as int) },
            ),
            values@.len() < MAX_PARAMS,
            forall|j: int| 0 <= j < values@.len() ==> values@[j] >= 0,
            digits == all_digits(bytes@.subrange(start as int, i as int)),
            digits ==> big == (decimal(bytes@.subrange(start as int, i as int)) > i32::MAX),
            digits && !big ==> value == decimal(bytes@.subrange(start as int, i as int)),
            digits ==> decimal(bytes@.subrange(start as int, i as int)) >= 0,
        decreases bytes@.len() - i,
    {
        let b = bytes[i];
        let ghost open = bytes@.subrange(start as int, i as int);
        proof {
            assert(bytes@.take(i + 1).drop_last() =~= bytes@.take(i as int));
            assert(bytes@.take(i + 1).last() == b);
        }
        if b == 59 {
            if !digits || big {
                proof {
                    lemma_scan_err(bytes@, i + 1);
                }
                return Err(AnsiError::InvalidParameters);
            }
            if values.len() + 1 == MAX_PARAMS {
                proof {
                    lemma_scan_err(bytes@, i + 1);
                }
                return Err(AnsiError::Unsupported);
            }
            values.push(value as i32);
            i = i + 1;
            start = i;
            value = 0;
            digits = true;
            big = false;
            proof {
                assert(bytes@.subrange(start as int, i as int) =~= Seq::<u8>::empty());
            }
        } else {
            proof {
                assert(bytes@.subrange(start as int, i + 1) =~= open.push(b));
                assert(open.push(b).drop_last() =~= open);
                if digits && 48 <= b <= 57 {
                    assert forall|j: int| 0 <= j < open.len() + 1 implies 48 <= #[trigger] open.push(
                        b,
                    )[j] <= 57 by {
                        if j < open.len() {
                            assert(open.push(b)[j] == open[j]);
                        }
                    }
                }
                if digits && !(48 <= b <= 57) {
                    assert(open.push(b)[open.len() as int] == b);
                }
                if !digits {
                    let k = choose|k: int| 0 <= k < open.len() && !(48 <= #[trigger] open[k] <= 57);
                    assert(open.push(b)[k] == open[k]);
                }
            }
            if digits && 48 <= b && b <= 57 {
                if !big {
                    value = value * 10 + (b - 48) as u64;
                    if value > 2147483647 {
                        big = true;
                    }
                }
            } else {
                digits = false;
            }
            i = i + 1;
        }
    }
    proof {
        assert(bytes@.take(i as int) =~= bytes@);
    }
    if !digits || big {
        return Err(AnsiError::InvalidParameters);
    }
    values.push(value as i32);
    Ok(values)
}


/// The decoding stage of an `AnsiHandler`.
#[derive(PartialEq, Eq, Structural, Clone, Copy, Debug)]
pub enum AnsiStage {
    Escape,
    CtrlSequenceIdentifier,
    Parameters,
    Intermediate,
    Final,
}

/// Whether `ch` is accepted at stage `stage`.
pub open spec fn stage_accepts(stage: AnsiStage, ch: char) -> bool {
    match stage {
        AnsiStage::Escape => ch == ESC,
        AnsiStage::CtrlSequenceIdentifier => ch == BRACKET,
        AnsiStage::Parameters => 0x30 <= ch as u32 && (ch as u32) < 0x40,
        AnsiStage::Intermediate => 0x20 <= ch as u32 && (ch as u32) < 0x30,
        AnsiStage::Final => 0x40 <= ch as u32 && (ch as u32) < 0x80,
    }
}

pub open spec fn stage_after(stage: AnsiStage) -> Option<AnsiStage> {
    match stage {
        AnsiStage::Escape => Some(AnsiStage::CtrlSequenceIdentifier),
        AnsiStage::CtrlSequenceIdentifier => Some(AnsiStage::Parameters),
        AnsiStage::Parameters => Some(AnsiStage::Intermediate),
        AnsiStage::Intermediate => Some(AnsiStage::Final),
        AnsiStage::Final => None,
    }
}

impl AnsiStage {
    pub fn in_char_range(&self, ch: &char) -> (r: bool)
        ensures
            r == stage_accepts(*self, *ch),
    {
        let c = *ch as u32;
        match self {
            AnsiStage::Escape => *ch == ESC,
            AnsiStage::CtrlSequenceIdentifier => *ch == BRACKET,
            AnsiStage::Parameters => 0x30 <= c && c < 0x40,
            AnsiStage::Intermediate => 0x20 <= c && c < 0x30,
            AnsiStage::Final => 0x40 <= c && c < 0x80,
        }
    }

    pub fn next(&self) -> (r: Option<Self>)
        ensures
            r == stage_after(*self),
    {
        match self {
            AnsiStage::Escape => Some(AnsiStage::CtrlSequenceIdentifier),
            AnsiStage::CtrlSequenceIdentifier => Some(AnsiStage::Parameters),
            AnsiStage::Parameters => Some(AnsiStage::Intermediate),
            AnsiStage::Intermediate => Some(AnsiStage::Final),
            AnsiStage::Final => None,
        }
    }
}

/// What feeding input to the decoder gave.
#[derive(PartialEq, Eq, Structural, Clone, Copy, Debug)]
pub enum ParserResult {
    Valid(AnsiCommand),
    Incomplete,
    Error(AnsiError),
}

pub open spec fn as_parser_result(r: Result<AnsiCommand, AnsiError>) -> ParserResult {
    match r {
        Ok(c) => ParserResult::Valid(c),
        Err(e) => ParserResult::Error(e),
    }
}

/// Decoder state: the stage and the parameter bytes read so far.
pub ghost struct AnsiState {
    pub stage: AnsiStage,
    pub params: Seq<u8>,
}

/// One character at the final stage.
pub open spec fn final_step(st: AnsiState, ch: char) -> (AnsiState, Option<ParserResult>) {
    let st = AnsiState { stage: AnsiStage::Final, ..st };
    if stage_accepts(AnsiStage::Final, ch) {
        (st, Some(as_parser_result(final_result(st.params, ch))))
    } else {
        (st, Some(ParserResult::Error(AnsiError::Unsupported)))
    }
}

/// One character at the intermediate stage: intermediates are not supported, anything else
/// is looked at as a final byte.
pub open spec fn intermediate_step(st: AnsiState, ch: char) -> (AnsiState, Option<ParserResult>) {
    if stage_accepts(AnsiStage::Intermediate, ch) {
        (AnsiState { stage: AnsiStage::Intermediate, ..st }, Some(ParserResult::Error(AnsiError::Unsupported)))
    } else {
        final_step(st, ch)
    }
}

/// The decoder's reaction to one character: the next state, and the outcome once there is one.
pub open spec fn on_char(st: AnsiState, ch: char) -> (AnsiState, Option<ParserResult>) {
    match st.stage {
        AnsiStage::Escape => if ch == ESC {
            (AnsiState { stage: AnsiStage::CtrlSequenceIdentifier, ..st }, None)
        } else {
            (st, Some(ParserResult::Error(AnsiError::Unsupported)))
        },
        AnsiStage::CtrlSequenceIdentifier => if ch == BRACKET {
            (AnsiState { stage: AnsiStage::Parameters, ..st }, None)
        } else {
            (st, Some(ParserResult::Error(AnsiError::Unsupported)))
        },
        AnsiStage::Parameters => if stage_accepts(AnsiStage::Parameters, ch) {
            if st.params.len() + 1 == BUFFER_SIZE {
                (st, Some(ParserResult::Error(AnsiError::BufferOverflow)))
            } else {
                (AnsiState { params: st.params.push(ch as u8), ..st }, None)
            }
        } else {
            intermediate_step(st, ch)
        },
        AnsiStage::Intermediate => intermediate_step(st, ch),
        AnsiStage::Final => final_step(st, ch),
    }
}

/// Feeding `s` from state `st`: the state reached, the outcome, and how many characters were used.
pub open spec fn run(st: AnsiState, s: Seq<char>) -> (AnsiState, ParserResult, nat)
    decreases s.len(),
{
    if s.len() == 0 {
        (st, ParserResult::Incomplete, 0)
    } else {
        let (next, out) = on_char(st, s[0]);
        match out {
            Some(res) => (next, res, 1),
            None => {
                let (last, res, used) = run(next, s.skip(1));
                (last, res, used + 1)
            },
        }
    }
}

/// Decoder of `ESC [ parameters intermediates final` sequences. Keeps the parameters of a
/// sequence that arrives in pieces.
pub struct AnsiHandler {
    buffer: Vec<u8>,
    ptr: usize,
    stage: AnsiStage,
}

impl View for AnsiHandler {
    type V = AnsiState;

    closed spec fn view(&self) -> AnsiState {
        AnsiState { stage: self.stage, params: self.buffer@.take(self.ptr as int) }
    }
}

impl AnsiHandler {
    pub closed spec fn wf(&self) -> bool {
        &&& self.buffer@.len() == BUFFER_SIZE
        &&& self.ptr < BUFFER_SIZE
    }

    pub fn new() -> (r: Self)
        ensures
            r.wf(),
            r@.stage == AnsiStage::Escape,
            r@.params == Seq::<u8>::empty(),
    {
        let mut buffer: Vec<u8> = Vec::new();
        while buffer.len() < BUFFER_SIZE
            invariant
                buffer@.len() <= BUFFER_SIZE,
            decreases BUFFER_SIZE - buffer@.len(),
        {
            buffer.push(0);
        }
        let r = AnsiHandler { buffer, ptr: 0, stage: AnsiStage::Escape };
        assert(r@.params =~= Seq::<u8>::empty());
        r
    }

    /// Feeds `input` from position `start` on, until a sequence is complete, fails, or the
    /// input ends. Returns the outcome and how many characters it used.
    pub fn continue_parse(&mut self, input: &[char], start: usize) -> (r: (ParserResult, usize))
        requires
            old(self).wf(),
            start <= input@.len(),
        ensures
            final(self).wf(),
            ({
                let (st, res, used) = run(old(self)@, input@.skip(start as int));
                final(self)@ == st && r.0 == res && r.1 == used
            }),
    {
        let mut i = start;
        let ghost target = run(self@, input@.skip(start as int));
        while i < input.len()
            invariant
                self.wf(),
                start <= i <= input@.len(),
                target == run(old(self)@, input@.skip(start as int)),
                ({
                    let (st, res, used) = run(self@, input@.skip(i as int));
                    st == target.0 && res == target.1 && used + (i - start) == target.2
                }),
            decreases input@.len() - i,
        {
            let ch = input[i];
            proof {
                assert(input@.skip(i as int)[0] == ch);
                assert(input@.skip(i as int).skip(1) =~= input@.skip(i + 1));
            }
            match self.stage {
                AnsiStage::Escape | AnsiStage::CtrlSequenceIdentifier | AnsiStage::Final => {
                    if self.stage.in_char_range(&ch) {
                        match self.stage.next() {
                            Some(next) => {
                                self.stage = next;
                            },
                            None => {
                                let result = self.parse_final(ch);
                                proof {
                                    assert(self@.stage == AnsiStage::Final);
                                    assert(on_char(self@, ch) == (self@, Some(as_parser_result(result))));
                                }
                                return match result {
                                    Ok(command) => (ParserResult::Valid(command), i + 1 - start),
                                    Err(error) => (ParserResult::Error(error), i + 1 - start),
                                };
                            },
                        }
                    } else {
                        proof {
                            assert(on_char(self@, ch) == (self@, Some(ParserResult::Error(AnsiError::Unsupported))));
                        }
                        return (ParserResult::Error(AnsiError::Unsupported), i + 1 - start);
                    }
                },
                AnsiStage::Parameters => {
                    if self.stage.in_char_range(&ch) {
                        if self.ptr + 1 == BUFFER_SIZE {
                            return (ParserResult::Error(AnsiError::BufferOverflow), i + 1 - start);
                        }
                        let ghost before = self@;
                        self.buffer.set(self.ptr, ch as u8);
                        self.ptr = self.ptr + 1;
                        proof {
                            assert(self@.params =~= before.params.push(ch as u8));
                        }
                    } else {
                        self.stage = AnsiStage::Intermediate;
                        if self.stage.in_char_range(&ch) {
                            return (ParserResult::Error(AnsiError::Unsupported), i + 1 - start);
                        }
                        self.stage = AnsiStage::Final;
                        if self.stage.in_char_range(&ch) {
                            let result = self.parse_final(ch);
                            return match result {
                                Ok(command) => (ParserResult::Valid(command), i + 1 - start),
                                Err(error) => (ParserResult::Error(error), i + 1 - start),
                            };
                        }
                        return (ParserResult::Error(AnsiError::Unsupported), i + 1 - start);
                    }
                },
                AnsiStage::Intermediate => {
                    if self.stage.in_char_range(&ch) {
                        proof {
                            assert(on_char(self@, ch) == (self@, Some(ParserResult::Error(AnsiError::Unsupported))));
                        }
                        return (ParserResult::Error(AnsiError::Unsupported), i + 1 - start);
                    }
                    self.stage = AnsiStage::Final;
                    if self.stage.in_char_range(&ch) {
                        let result = self.parse_final(ch);
                        return match result {
                            Ok(command) => (ParserResult::Valid(command), i + 1 - start),
                            Err(error) => (ParserResult::Error(error), i + 1 - start),
                        };
                    }
                    return (ParserResult::Error(AnsiError::Unsupported), i + 1 - start);
                },
            }
            i = i + 1;
        }
        proof {
            assert(input@.skip(i as int).len() == 0);
        }
        (ParserResult::Incomplete, i - start)
    }

    /// Parses the buffered parameters once `final_char` closed the sequence.
    fn parse_final(&self, final_char: char) -> (r: Result<AnsiCommand, AnsiError>)
        requires
            self.wf(),
        ensures
            r == final_result(self@.params, final_char),
    {
        let mut bytes: Vec<u8> = Vec::new();
        let mut k: usize = 0;
        while k < self.ptr
            invariant
                self.wf(),
                k <= self.ptr,
                bytes@ == self.buffer@.take(k as int),
            decreases self.ptr - k,
        {
            proof {
                assert(self.buffer@.take(k + 1) =~= self.buffer@.take(k as int).push(self.buffer@[k as int]));
            }
            bytes.push(self.buffer[k]);
            k = k + 1;
        }
        let values = match parse_parameters(&bytes) {
            Ok(v) => v,
            Err(e) => return Err(e),
        };
        let n_params = values.len();
        let mut params: Vec<i32> = Vec::new();
        let mut j: usize = 0;
        while j < MAX_PARAMS
            invariant
                j <= MAX_PARAMS,
                n_params == values@.len() <= MAX_PARAMS,
                forall|i: int| 0 <= i < values@.len() ==> values@[i] >= 0,
                params@.len() == j,
                forall|i: int| 0 <= i < j ==> #[trigger] params@[i] == padded(values@)[i],
            decreases MAX_PARAMS - j,
        {
            if j < n_params {
                params.push(values[j]);
            } else {
                params.push(0);
            }
            j = j + 1;
        }
        proof {
            assert(params@ =~= padded(values@));
            assert(params@[0] >= 0);
        }
        let p = params.as_slice();
        if final_char == 'm' {
            parse_sgr(n_params, p)
        } else if final_char == 'J' {
            parse_erase_display(n_params, p)
        } else if final_char == 'K' {
            parse_erase_line(n_params, p)
        } else if final_char == 'A' {
            parse_move_cursor_relative(n_params, p, Direction::Up)
        } else if final_char == 'B' {
            parse_move_cursor_relative(n_params, p, Direction::Down)
        } else if final_char == 'C' {
            parse_move_cursor_relative(n_params, p, Direction::Right)
        } else if final_char == 'D' {
            parse_move_cursor_relative(n_params, p, Direction::Left)
        } else if final_char == 'H' || final_char == 'f' {
            parse_move_cursor_absolute(n_params, p)
        } else if final_char == 'G' {
            parse_move_cursor_column(n_params, p)
        } else if final_char == 'S' {
            parse_scroll(n_params, p, Direction::Up)
        } else if final_char == 'T' {
            parse_scroll(n_params, p, Direction::Down)
        } else {
            Err(AnsiError::Unsupported)
        }
    }

    /// Whether a sequence is being decoded.
    pub fn is_active(&self) -> (r: bool)
        ensures
            r == (self@.stage != AnsiStage::Escape),
    {
        self.stage != AnsiStage::Escape
    }

    /// Forgets any partial sequence.
    pub fn reset(&mut self)
        requires
            old(self).wf(),
        ensures
            final(self).wf(),
            final(self)@.stage == AnsiStage::Escape,
            final(self)@.params == Seq::<u8>::empty(),
    {
        let mut k: usize = 0;
        while k < self.buffer.len()
            invariant
                self.buffer@.len() == BUFFER_SIZE,
                self.ptr < BUFFER_SIZE,
            decreases self.buffer@.len() - k,
        {
            self.buffer.set(k, 0);
            k = k + 1;
        }
        self.ptr = 0;
        self.stage = AnsiStage::Escape;
        assert(self@.params =~= Seq::<u8>::empty());
    }

    /// Moves past the escape character when it was already consumed by the caller.
    pub fn try_start(&mut self)
        requires
            old(self).wf(),
        ensures
            final(self).wf(),
            final(self)@.params == old(self)@.params,
            final(self)@.stage == if old(self)@.stage == AnsiStage::Escape {
                AnsiStage::CtrlSequenceIdentifier
            } else {
                old(self)@.stage
            },
    {
        if self.stage == AnsiStage::Escape {
            self.stage = AnsiStage::CtrlSequenceIdentifier;
        }
    }
}

} // verus!

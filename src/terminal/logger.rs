use vstd::prelude::*;
use vstd::std_specs::iter::IteratorSpec;

verus! {

/// Severity of a log entry, from least to most severe.
#[derive(PartialEq, Eq, Structural, Clone, Copy, Debug)]
pub enum LogLevel {
    Debug,
    Info,
    Warn,
    Error,
    Critical,
}

pub open spec fn severity(level: LogLevel) -> int {
    match level {
        LogLevel::Debug => 0,
        LogLevel::Info => 1,
        LogLevel::Warn => 2,
        LogLevel::Error => 3,
        LogLevel::Critical => 4,
    }
}

/// The level's name, colored for the terminal.
pub open spec fn level_label(level: LogLevel) -> Seq<char> {
    match level {
        LogLevel::Debug => seq!['\x1b', '[', '3', '2', 'm', 'D', 'E', 'B', 'U', 'G', '\x1b', '[', '0', 'm'],
        LogLevel::Info => seq!['\x1b', '[', '3', '2', 'm', 'I', 'N', 'F', 'O', '\x1b', '[', '0', 'm'],
        LogLevel::Warn => seq!['\x1b', '[', '3', '3', 'm', 'W', 'A', 'R', 'N', '\x1b', '[', '0', 'm'],
        LogLevel::Error => seq!['\x1b', '[', '9', '1', 'm', 'E', 'R', 'R', 'O', 'R', '\x1b', '[', '0', 'm'],
        LogLevel::Critical => seq![
            '\x1b', '[', '3', '1', 'm', 'C', 'R', 'I', 'T', 'I', 'C', 'A', 'L', '\x1b', '[', '0', 'm',
        ],
    }
}

/// The line written for `message` at `level`: `[LEVEL]: message` and a newline.
pub open spec fn entry(level: LogLevel, message: Seq<char>) -> Seq<char> {
    seq!['['] + level_label(level) + seq![']', ':', ' '] + message + seq!['\n']
}

impl LogLevel {
    pub fn rank(&self) -> (r: u8)
        ensures
            r == severity(*self),
    {
        match self {
            LogLevel::Debug => 0,
            LogLevel::Info => 1,
            LogLevel::Warn => 2,
            LogLevel::Error => 3,
            LogLevel::Critical => 4,
        }
    }

    /// The level's name, colored for the terminal.
    pub fn label(&self) -> (r: Vec<char>)
        ensures
            r@ == level_label(*self),
    {
        let r = match self {
            LogLevel::Debug => vec!['\x1b', '[', '3', '2', 'm', 'D', 'E', 'B', 'U', 'G', '\x1b', '[', '0', 'm'],
            LogLevel::Info => vec!['\x1b', '[', '3', '2', 'm', 'I', 'N', 'F', 'O', '\x1b', '[', '0', 'm'],
            LogLevel::Warn => vec!['\x1b', '[', '3', '3', 'm', 'W', 'A', 'R', 'N', '\x1b', '[', '0', 'm'],
            LogLevel::Error => vec![
                '\x1b', '[', '9', '1', 'm', 'E', 'R', 'R', 'O', 'R', '\x1b', '[', '0', 'm',
            ],
            LogLevel::Critical => vec![
                '\x1b', '[', '3', '1', 'm', 'C', 'R', 'I', 'T', 'I', 'C', 'A', 'L', '\x1b', '[', '0', 'm',
            ],
        };
        assert(r@ =~= level_label(*self));
        r
    }
}

/// The characters of `s`.
pub fn chars_of(s: &str) -> (r: Vec<char>)
    ensures
        r@ == s@,
{
    let mut out: Vec<char> = Vec::new();
    let mut it = s.chars();
    proof {
        vstd::string::axiom_spec_iter(s);
    }
    loop
        invariant
            out@ + it.remaining() == s@,
            it.obeys_prophetic_iter_laws(),
            it.decrease() is Some,
        decreases it.decrease()->0,
    {
        let ghost before = it.remaining();
        match it.next() {
            Some(c) => {
                proof {
                    assert(before.len() > 0);
                    assert(out@.push(c) + before.drop_first() =~= out@ + before);
                }
                out.push(c);
            },
            None => {
                assert(out@ =~= s@);
                return out;
            },
        }
    }
}

fn append(out: &mut Vec<char>, s: &[char])
    ensures
        final(out)@ == old(out)@ + s@,
{
    let mut i: usize = 0;
    while i < s.len()
        invariant
            i <= s@.len(),
            out@ == old(out)@ + s@.take(i as int),
        decreases s@.len() - i,
    {
        proof {
            assert(s@.take(i + 1) =~= s@.take(i as int).push(s@[i as int]));
        }
        out.push(s[i]);
        i = i + 1;
    }
    assert(s@.take(i as int) =~= s@);
}

/// Writes entries at or above a threshold level.
#[derive(Clone, Copy, Debug)]
pub struct Logger {
    level: LogLevel,
}

impl Logger {
    pub closed spec fn threshold(&self) -> LogLevel {
        self.level
    }

    /// `r` is what logging `message` at `level` gives.
    pub open spec fn logs(&self, level: LogLevel, message: Seq<char>, r: Option<Vec<char>>) -> bool {
        &&& severity(level) < severity(self.threshold()) ==> r is None
        &&& severity(level) >= severity(self.threshold()) ==> (r matches Some(v) && v@ == entry(
            level,
            message,
        ))
    }

    pub fn new(level: LogLevel) -> (r: Self)
        ensures
            r.threshold() == level,
    {
        Logger { level }
    }

    /// The line to write for `message` at `level`, or nothing when `level` is below the
    /// threshold.
    pub fn log(&self, level: LogLevel, message: &str) -> (r: Option<Vec<char>>)
        ensures
            self.logs(level, message@, r),
    {
        if level.rank() < self.level.rank() {
            return None;
        }
        let mut out: Vec<char> = Vec::new();
        out.push('[');
        let label = level.label();
        append(&mut out, label.as_slice());
        append(&mut out, &[']', ':', ' ']);
        let text = chars_of(message);
        append(&mut out, text.as_slice());
        out.push('\n');
        assert(out@ =~= entry(level, message@));
        Some(out)
    }

    pub fn debug(&self, message: &str) -> (r: Option<Vec<char>>)
        ensures
            self.logs(LogLevel::Debug, message@, r),
    {
        self.log(LogLevel::Debug, message)
    }

    pub fn info(&self, message: &str) -> (r: Option<Vec<char>>)
        ensures
            self.logs(LogLevel::Info, message@, r),
    {
        self.log(LogLevel::Info, message)
    }

    pub fn warn(&self, message: &str) -> (r: Option<Vec<char>>)
        ensures
            self.logs(LogLevel::Warn, message@, r),
    {
        self.log(LogLevel::Warn, message)
    }

    pub fn error(&self, message: &str) -> (r: Option<Vec<char>>)
        ensures
            self.logs(LogLevel::Error, message@, r),
    {
        self.log(LogLevel::Error, message)
    }

    pub fn critical(&self, message: &str) -> (r: Option<Vec<char>>)
        ensures
            self.logs(LogLevel::Critical, message@, r),
    {
        self.log(LogLevel::Critical, message)
    }
}

} // verus!

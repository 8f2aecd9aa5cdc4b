//! How deep a TOML text nests, found by one pass over its characters.
//!
//! The TOML parser goes one call deeper for each array and inline table
//! inside another and for each part of a dotted key or table header, and
//! has no limit of its own. The scan here follows the parser's tokenizer
//! through strings and comments, so that it sees the brackets and dots that
//! the parser sees, and tells the texts that stay within a fixed depth.

use vstd::prelude::*;
use vstd::std_specs::iter::IteratorSpec;

verus! {

broadcast use vstd::string::group_string_axioms;

/// The deepest nesting that a text may have to be handed to the parser.
pub const MAX_NESTING: usize = 128;

/// Where a scan is among the tokens of a text. The string modes are those
/// of a basic string (`"`) or of a literal one (`'`), as the scan's
/// `literal` says.
#[derive(Copy, Clone, Debug, PartialEq, Eq, Structural)]
pub enum Mode {
    /// Outside strings and comments.
    Plain,
    /// In a comment, which the end of the line ends.
    Comment,
    /// Behind the quote that opens a string.
    Opened,
    /// Behind two quotes: an empty string, or two thirds of the opening of
    /// a multi-line string.
    OpenedTwice,
    /// In a string of one line.
    Line,
    /// Behind a backslash in a string of one line.
    LineEscape,
    /// In a multi-line string.
    Block,
    /// Behind a backslash in a multi-line string.
    BlockEscape,
    /// In a multi-line string, behind one quote.
    BlockQuote,
    /// In a multi-line string, behind two quotes.
    BlockQuoteTwice,
    /// Behind the three quotes that close a multi-line string; up to two
    /// more quotes belong to the string.
    Closed,
    /// Behind the three closing quotes and one more.
    ClosedOnce,
}

/// What a scan knows at a place in a text.
#[derive(Copy, Clone, Debug, PartialEq, Eq, Structural)]
pub struct Scan {
    pub mode: Mode,
    /// Whether the string that the scan is in, if any, is a literal one.
    pub literal: bool,
    /// The brackets and braces open at this place.
    pub depth: usize,
    /// The dots outside strings and comments since the last end of a line
    /// at which no bracket was open.
    pub dots: usize,
    /// The most dots that any such stretch has held so far.
    pub header: usize,
    /// Whether `header`, `dots` and `depth` together have been above
    /// `MAX_NESTING` at some place so far.
    pub deep: bool,
}

/// `n` and one more, or `n` where it is above `MAX_NESTING` already.
pub open spec fn bump(n: usize) -> usize {
    if n <= MAX_NESTING {
        (n + 1) as usize
    } else {
        n
    }
}

/// The scan with its nesting checked against `MAX_NESTING`.
pub open spec fn checked(s: Scan) -> Scan {
    if s.header > MAX_NESTING || s.dots > MAX_NESTING - s.header || s.depth > MAX_NESTING
        - s.header - s.dots {
        Scan { deep: true, ..s }
    } else {
        s
    }
}

/// The scan behind the character `c`, met outside strings and comments.
pub open spec fn plain(s: Scan, c: char) -> Scan {
    if c == '[' || c == '{' {
        checked(Scan { mode: Mode::Plain, depth: bump(s.depth), ..s })
    } else if c == ']' || c == '}' {
        Scan { mode: Mode::Plain, depth: if s.depth > 0 { (s.depth - 1) as usize } else { 0 }, ..s }
    } else if c == '.' {
        checked(Scan { mode: Mode::Plain, dots: bump(s.dots), ..s })
    } else if c == '\n' {
        if s.depth == 0 {
            Scan {
                mode: Mode::Plain,
                dots: 0,
                header: if s.header < s.dots { s.dots } else { s.header },
                ..s
            }
        } else {
            Scan { mode: Mode::Plain, ..s }
        }
    } else if c == '"' {
        Scan { mode: Mode::Opened, literal: false, ..s }
    } else if c == '\'' {
        Scan { mode: Mode::Opened, literal: true, ..s }
    } else if c == '#' {
        Scan { mode: Mode::Comment, ..s }
    } else {
        Scan { mode: Mode::Plain, ..s }
    }
}

/// The quote that ends the string that the scan is in.
pub open spec fn quote(s: Scan) -> char {
    if s.literal {
        '\''
    } else {
        '"'
    }
}

/// The scan behind the character `c`, met in a string of one line.
pub open spec fn in_line(s: Scan, c: char) -> Scan {
    if c == quote(s) {
        Scan { mode: Mode::Plain, ..s }
    } else if c == '\\' && !s.literal {
        Scan { mode: Mode::LineEscape, ..s }
    } else if c == '\n' {
        plain(s, c)
    } else {
        Scan { mode: Mode::Line, ..s }
    }
}

/// The scan behind the character `c`, met in a multi-line string.
pub open spec fn in_block(s: Scan, c: char) -> Scan {
    if c == quote(s) {
        Scan { mode: Mode::BlockQuote, ..s }
    } else if c == '\\' && !s.literal {
        Scan { mode: Mode::BlockEscape, ..s }
    } else {
        Scan { mode: Mode::Block, ..s }
    }
}

/// The scan behind the character `c`.
pub open spec fn step(s: Scan, c: char) -> Scan {
    match s.mode {
        Mode::Plain => plain(s, c),
        Mode::Comment => if c == '\n' {
            plain(s, c)
        } else {
            s
        },
        Mode::Opened => if c == quote(s) {
            Scan { mode: Mode::OpenedTwice, ..s }
        } else {
            in_line(s, c)
        },
        Mode::OpenedTwice => if c == quote(s) {
            Scan { mode: Mode::Block, ..s }
        } else {
            plain(s, c)
        },
        Mode::Line => in_line(s, c),
        Mode::LineEscape => Scan { mode: Mode::Line, ..s },
        Mode::Block => in_block(s, c),
        Mode::BlockEscape => Scan { mode: Mode::Block, ..s },
        Mode::BlockQuote => if c == quote(s) {
            Scan { mode: Mode::BlockQuoteTwice, ..s }
        } else {
            in_block(s, c)
        },
        Mode::BlockQuoteTwice => if c == quote(s) {
            Scan { mode: Mode::Closed, ..s }
        } else {
            in_block(s, c)
        },
        Mode::Closed => if c == quote(s) {
            Scan { mode: Mode::ClosedOnce, ..s }
        } else {
            plain(s, c)
        },
        Mode::ClosedOnce => if c == quote(s) {
            Scan { mode: Mode::Plain, ..s }
        } else {
            plain(s, c)
        },
    }
}

/// The scan at the start of a text.
pub open spec fn start() -> Scan {
    Scan { mode: Mode::Plain, literal: false, depth: 0, dots: 0, header: 0, deep: false }
}

/// The scan behind the whole of `text`.
pub open spec fn scan(text: Seq<char>) -> Scan
    decreases text.len(),
{
    if text.len() == 0 {
        start()
    } else {
        step(scan(text.drop_last()), text.last())
    }
}

/// Whether `text` nests deeper than `MAX_NESTING` at some place: whether
/// the brackets and braces open there, the dots since the line began, and
/// the most dots of any line before, come to more than that together.
pub open spec fn too_deep(text: Seq<char>) -> bool {
    scan(text).deep
}

fn bumped(n: usize) -> (r: usize)
    ensures
        r == bump(n),
{
    if n <= MAX_NESTING {
        n + 1
    } else {
        n
    }
}

fn check(s: Scan) -> (r: Scan)
    ensures
        r == checked(s),
{
    if s.header > MAX_NESTING || s.dots > MAX_NESTING - s.header || s.depth > MAX_NESTING
        - s.header - s.dots {
        Scan { deep: true, ..s }
    } else {
        s
    }
}

fn plainly(s: Scan, c: char) -> (r: Scan)
    ensures
        r == plain(s, c),
{
    if c == '[' || c == '{' {
        check(Scan { mode: Mode::Plain, depth: bumped(s.depth), ..s })
    } else if c == ']' || c == '}' {
        Scan { mode: Mode::Plain, depth: if s.depth > 0 { s.depth - 1 } else { 0 }, ..s }
    } else if c == '.' {
        check(Scan { mode: Mode::Plain, dots: bumped(s.dots), ..s })
    } else if c == '\n' {
        if s.depth == 0 {
            Scan {
                mode: Mode::Plain,
                dots: 0,
                header: if s.header < s.dots { s.dots } else { s.header },
                ..s
            }
        } else {
            Scan { mode: Mode::Plain, ..s }
        }
    } else if c == '"' {
        Scan { mode: Mode::Opened, literal: false, ..s }
    } else if c == '\'' {
        Scan { mode: Mode::Opened, literal: true, ..s }
    } else if c == '#' {
        Scan { mode: Mode::Comment, ..s }
    } else {
        Scan { mode: Mode::Plain, ..s }
    }
}

fn closing(s: Scan) -> (r: char)
    ensures
        r == quote(s),
{
    if s.literal {
        '\''
    } else {
        '"'
    }
}

fn within_line(s: Scan, c: char) -> (r: Scan)
    ensures
        r == in_line(s, c),
{
    if c == closing(s) {
        Scan { mode: Mode::Plain, ..s }
    } else if c == '\\' && !s.literal {
        Scan { mode: Mode::LineEscape, ..s }
    } else if c == '\n' {
        plainly(s, c)
    } else {
        Scan { mode: Mode::Line, ..s }
    }
}

fn within_block(s: Scan, c: char) -> (r: Scan)
    ensures
        r == in_block(s, c),
{
    if c == closing(s) {
        Scan { mode: Mode::BlockQuote, ..s }
    } else if c == '\\' && !s.literal {
        Scan { mode: Mode::BlockEscape, ..s }
    } else {
        Scan { mode: Mode::Block, ..s }
    }
}

fn advance(s: Scan, c: char) -> (r: Scan)
    ensures
        r == step(s, c),
{
    let ends: bool = c == closing(s);
    match s.mode {
        Mode::Plain => plainly(s, c),
        Mode::Comment => if c == '\n' {
            plainly(s, c)
        } else {
            s
        },
        Mode::Opened => if ends {
            Scan { mode: Mode::OpenedTwice, ..s }
        } else {
            within_line(s, c)
        },
        Mode::OpenedTwice => if ends {
            Scan { mode: Mode::Block, ..s }
        } else {
            plainly(s, c)
        },
        Mode::Line => within_line(s, c),
        Mode::LineEscape => Scan { mode: Mode::Line, ..s },
        Mode::Block => within_block(s, c),
        Mode::BlockEscape => Scan { mode: Mode::Block, ..s },
        Mode::BlockQuote => if ends {
            Scan { mode: Mode::BlockQuoteTwice, ..s }
        } else {
            within_block(s, c)
        },
        Mode::BlockQuoteTwice => if ends {
            Scan { mode: Mode::Closed, ..s }
        } else {
            within_block(s, c)
        },
        Mode::Closed => if ends {
            Scan { mode: Mode::ClosedOnce, ..s }
        } else {
            plainly(s, c)
        },
        Mode::ClosedOnce => if ends {
            Scan { mode: Mode::Plain, ..s }
        } else {
            plainly(s, c)
        },
    }
}

/// Whether `text` nests deeper than `MAX_NESTING`.
pub fn nests_too_deep(text: &str) -> (r: bool)
    ensures
        r == too_deep(text@),
{
    let mut rest = text.chars();
    let mut s = Scan {
        mode: Mode::Plain,
        literal: false,
        depth: 0,
        dots: 0,
        header: 0,
        deep: false,
    };
    let ghost mut seen: int = 0;
    assert(text@.take(0) == Seq::<char>::empty());
    loop
        invariant
            0 <= seen <= text@.len(),
            rest.remaining() == text@.skip(seen),
            s == scan(text@.take(seen)),
        decreases text@.len() - seen,
    {
        match rest.next() {
            Some(c) => {
                proof {
                    assert(text@.take(seen + 1).drop_last() == text@.take(seen));
                    assert(text@.take(seen + 1).last() == c);
                    assert(text@.skip(seen).drop_first() == text@.skip(seen + 1));
                    seen = seen + 1;
                }
                s = advance(s, c);
            },
            None => {
                assert(text@.take(seen) == text@);
                return s.deep;
            },
        }
    }
}

} // verus!

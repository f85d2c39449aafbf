//! What a TOML+ source holds, found in passes over its characters without
//! evaluating it.
//!
//! The parser computes with 64-bit integers and calls itself once for each
//! level of a value, so that sums that are too large and values that are nested
//! too deeply are told apart here, before it is called. A pass follows the lines
//! of a source as the parser does: which of them are headers, which give a key a
//! value, and where a value goes on to the next line. In a value it follows
//! strings, escapes, comments and brackets.
//!
//! The parser takes characters outside of ASCII apart at each level of a value,
//! and escapes a list that is put into a text, so that deep values can also grow
//! without measure. How much is added to a source is bounded too.
//!
//! The parser takes quotes in more than one way, so that a value in which an
//! escaped quote, an escape outside of a string or an unfinished string stands
//! is taken loosely from there on: the text in its strings counts as if it stood
//! outside of them, and its brackets are never closed.
//!
//! A first pass bounds the variables that a source defines. A second one takes
//! every reference to a variable for anything within these bounds.

use crate::text::{chars_of, is_white, occurs_at, occurs_in, white};
use vstd::prelude::*;

verus! {

/// How deep values may be nested, and how many dots a header may have.
pub const MAX_DEPTH: u32 = 128;

/// How many question marks a value may have.
pub const MAX_ASKED: u32 = 1024;

/// How much the parser may add to a source where it takes characters apart and
/// puts variables and lists into texts.
pub const MAX_SPREAD: u64 = 0x400_0000;

/// How many lines and closing brackets a source may have.
pub const MAX_MARKS: u32 = 0x7fff_fff0;

/// The largest integer of the parser.
pub const MAX_INT: u64 = 0x7fff_ffff_ffff_ffff;

/// The largest number of a process.
pub const MAX_PID: u64 = 0xffff_ffff;

// ---- characters ----

/// An opening bracket.
pub open spec fn opens(c: char) -> bool {
    c == '(' || c == '[' || c == '{'
}

/// A closing bracket.
pub open spec fn closes(c: char) -> bool {
    c == ')' || c == ']' || c == '}'
}

/// A decimal digit.
pub open spec fn is_digit(c: char) -> bool {
    '0' <= c && c <= '9'
}

/// An ASCII letter.
pub open spec fn is_letter(c: char) -> bool {
    ('a' <= c && c <= 'z') || ('A' <= c && c <= 'Z')
}

/// A letter that is a hexadecimal digit.
pub open spec fn is_hex_letter(c: char) -> bool {
    ('a' <= c && c <= 'f') || ('A' <= c && c <= 'F')
}

/// A letter, a digit or `_`.
pub open spec fn is_tame(c: char) -> bool {
    is_letter(c) || is_digit(c) || c == '_'
}

/// A letter, a digit, `_` or `-`.
pub open spec fn is_key_char(c: char) -> bool {
    is_letter(c) || is_digit(c) || c == '_' || c == '-'
}

/// `+`, `-` or `*`.
pub open spec fn is_op(c: char) -> bool {
    c == '+' || c == '-' || c == '*'
}

/// A character at which a sum or product ends.
pub open spec fn is_break(c: char) -> bool {
    opens(c) || closes(c) || c == ',' || c == '=' || c == '?' || c == '#'
}

fn is_opening(c: char) -> (r: bool)
    ensures
        r == opens(c),
{
    c == '(' || c == '[' || c == '{'
}

fn is_closing(c: char) -> (r: bool)
    ensures
        r == closes(c),
{
    c == ')' || c == ']' || c == '}'
}

fn is_decimal(c: char) -> (r: bool)
    ensures
        r == is_digit(c),
{
    '0' <= c && c <= '9'
}

fn is_alpha(c: char) -> (r: bool)
    ensures
        r == is_letter(c),
{
    ('a' <= c && c <= 'z') || ('A' <= c && c <= 'Z')
}

fn in_key(c: char) -> (r: bool)
    ensures
        r == is_key_char(c),
{
    is_alpha(c) || is_decimal(c) || c == '_' || c == '-'
}

fn is_sign(c: char) -> (r: bool)
    ensures
        r == is_op(c),
{
    c == '+' || c == '-' || c == '*'
}

fn ends_term(c: char) -> (r: bool)
    ensures
        r == is_break(c),
{
    is_opening(c) || is_closing(c) || c == ',' || c == '=' || c == '?' || c == '#'
}

// ---- lines ----

/// Where in a line a character stands.
#[derive(Debug, Clone, Copy, PartialEq, Eq, Structural)]
pub enum Place {
    /// Nothing but white space came before.
    Fresh,
    /// In a key without quotes.
    Bare,
    /// In a key with quotes.
    Quoted,
    /// After a key.
    After,
    /// In a value.
    Value,
    /// In a line that gives no key a value.
    Idle,
}

/// What a value starts with. One that is `#{` alone opens a table whose entries
/// have lines of their own.
#[derive(Debug, Clone, Copy, PartialEq, Eq, Structural)]
pub enum Lead {
    Nothing,
    Hash,
    Brace,
    More,
}

/// What a line that starts with `[` has been so far.
#[derive(Debug, Clone, Copy, PartialEq, Eq, Structural)]
pub enum Header {
    /// The line does not start with `[`.
    No,
    Open,
    V,
    Va,
    Var,
    Vars,
    /// `[` and a name of letters, digits, `_`, `-` and dots.
    Name,
    /// `[vars]`.
    ClosedVars,
    /// A name in brackets.
    Closed,
    /// Anything else.
    Odd,
}

/// What a line that starts with `@` has been so far.
#[derive(Debug, Clone, Copy, PartialEq, Eq, Structural)]
pub enum Mark {
    /// The line does not start with `@`.
    No,
    Start,
    Name,
    Gap,
    Open,
    Hollow,
    /// A name and round brackets with nothing but white space in them.
    Closed,
    /// Anything else.
    Odd,
}

/// What a line holds up to a character.
#[derive(Debug, Clone, Copy, PartialEq, Eq, Structural)]
pub struct Line {
    pub place: Place,
    pub lead: Lead,
    /// Within a string.
    pub quoted: bool,
    /// The last character was a backslash that escapes the next.
    pub escaped: bool,
    /// Within a comment.
    pub comment: bool,
    /// Only white space so far.
    pub blank: bool,
    /// The last character that is no white space is `}`.
    pub closed: bool,
    pub header: Header,
    /// The dots, where the line starts with `[`.
    pub dots: u32,
    pub mark: Mark,
}

/// The start of a line; `on` tells whether a value goes on.
pub open spec fn line_start(on: bool) -> Line {
    Line {
        place: if on {
            Place::Value
        } else {
            Place::Fresh
        },
        lead: if on {
            Lead::More
        } else {
            Lead::Nothing
        },
        quoted: false,
        escaped: false,
        comment: false,
        blank: true,
        closed: false,
        header: Header::No,
        dots: 0,
        mark: Mark::No,
    }
}

/// `n` and `by` more, or `n` where it is large already.
pub open spec fn more(n: u32, by: u32) -> u32 {
    if n < 0x7fff_ffff && by < 0x7fff_ffff {
        (n + by) as u32
    } else {
        n
    }
}

/// The place after a character.
pub open spec fn next_place(l: Line, c: char) -> Place {
    match l.place {
        Place::Fresh => if is_white(c) {
            Place::Fresh
        } else if c == '"' {
            Place::Quoted
        } else if is_key_char(c) {
            Place::Bare
        } else {
            Place::Idle
        },
        Place::Bare => if is_key_char(c) {
            Place::Bare
        } else if is_white(c) {
            Place::After
        } else if c == '=' {
            Place::Value
        } else {
            Place::Idle
        },
        Place::Quoted => if c == '"' && !l.escaped {
            Place::After
        } else {
            Place::Quoted
        },
        Place::After => if is_white(c) {
            Place::After
        } else if c == '=' {
            Place::Value
        } else {
            Place::Idle
        },
        Place::Value => Place::Value,
        Place::Idle => Place::Idle,
    }
}

/// What a value starts with after a character of it.
pub open spec fn next_lead(lead: Lead, c: char) -> Lead {
    match lead {
        Lead::Nothing => if is_white(c) {
            Lead::Nothing
        } else if c == '#' {
            Lead::Hash
        } else {
            Lead::More
        },
        Lead::Hash => if c == '{' {
            Lead::Brace
        } else {
            Lead::More
        },
        Lead::Brace => if is_white(c) {
            Lead::Brace
        } else {
            Lead::More
        },
        Lead::More => Lead::More,
    }
}

/// A header with another character of its name.
pub open spec fn named(c: char) -> Header {
    if c == ']' {
        Header::Closed
    } else if is_key_char(c) || c == '.' {
        Header::Name
    } else {
        Header::Odd
    }
}

/// What a line that starts with `[` is after a character.
pub open spec fn next_header(h: Header, blank: bool, c: char) -> Header {
    match h {
        Header::No => if blank && c == '[' {
            Header::Open
        } else {
            Header::No
        },
        Header::Open => if c == 'v' {
            Header::V
        } else if c == ']' {
            Header::Odd
        } else {
            named(c)
        },
        Header::V => if c == 'a' {
            Header::Va
        } else {
            named(c)
        },
        Header::Va => if c == 'r' {
            Header::Var
        } else {
            named(c)
        },
        Header::Var => if c == 's' {
            Header::Vars
        } else {
            named(c)
        },
        Header::Vars => if c == ']' {
            Header::ClosedVars
        } else {
            named(c)
        },
        Header::Name => named(c),
        Header::ClosedVars => if is_white(c) {
            Header::ClosedVars
        } else {
            Header::Odd
        },
        Header::Closed => if is_white(c) {
            Header::Closed
        } else {
            Header::Odd
        },
        Header::Odd => Header::Odd,
    }
}

/// What a line that starts with `@` is after a character.
pub open spec fn next_mark(m: Mark, blank: bool, c: char) -> Mark {
    match m {
        Mark::No => if blank && c == '@' {
            Mark::Start
        } else {
            Mark::No
        },
        Mark::Start => if is_letter(c) || c == '_' {
            Mark::Name
        } else {
            Mark::Odd
        },
        Mark::Name => if is_tame(c) {
            Mark::Name
        } else if is_white(c) {
            Mark::Gap
        } else if c == '(' {
            Mark::Open
        } else {
            Mark::Odd
        },
        Mark::Gap => if is_white(c) {
            Mark::Gap
        } else if c == '(' {
            Mark::Open
        } else {
            Mark::Odd
        },
        Mark::Open => if is_white(c) {
            Mark::Hollow
        } else {
            Mark::Odd
        },
        Mark::Hollow => if is_white(c) {
            Mark::Hollow
        } else if c == ')' {
            Mark::Closed
        } else {
            Mark::Odd
        },
        Mark::Closed => if is_white(c) {
            Mark::Closed
        } else {
            Mark::Odd
        },
        Mark::Odd => Mark::Odd,
    }
}

/// The line is an annotation that the parser has no place for: it would start
/// after its end.
pub open spec fn hollow(l: Line) -> bool {
    l.mark == Mark::Closed && l.place == Place::Idle
}

/// A line with one more character.
pub open spec fn in_line(l: Line, c: char) -> Line {
    Line {
        place: next_place(l, c),
        lead: if l.place == Place::Value {
            next_lead(l.lead, c)
        } else {
            l.lead
        },
        quoted: if !l.escaped && c == '"' {
            !l.quoted
        } else {
            l.quoted
        },
        escaped: !l.escaped && c == '\\',
        comment: l.comment,
        blank: l.blank && is_white(c),
        closed: if is_white(c) {
            l.closed
        } else {
            c == '}'
        },
        header: next_header(l.header, l.blank, c),
        dots: if c == '.' && l.header != Header::No {
            more(l.dots, 1)
        } else {
            l.dots
        },
        mark: next_mark(l.mark, l.blank, c),
    }
}

fn add_to(n: u32, by: u32) -> (r: u32)
    ensures
        r == more(n, by),
{
    if n < 0x7fff_ffff && by < 0x7fff_ffff {
        n + by
    } else {
        n
    }
}

fn new_line(on: bool) -> (r: Line)
    ensures
        r == line_start(on),
{
    Line {
        place: if on {
            Place::Value
        } else {
            Place::Fresh
        },
        lead: if on {
            Lead::More
        } else {
            Lead::Nothing
        },
        quoted: false,
        escaped: false,
        comment: false,
        blank: true,
        closed: false,
        header: Header::No,
        dots: 0,
        mark: Mark::No,
    }
}

fn place_after(l: Line, c: char) -> (r: Place)
    ensures
        r == next_place(l, c),
{
    match l.place {
        Place::Fresh => if white(c) {
            Place::Fresh
        } else if c == '"' {
            Place::Quoted
        } else if in_key(c) {
            Place::Bare
        } else {
            Place::Idle
        },
        Place::Bare => if in_key(c) {
            Place::Bare
        } else if white(c) {
            Place::After
        } else if c == '=' {
            Place::Value
        } else {
            Place::Idle
        },
        Place::Quoted => if c == '"' && !l.escaped {
            Place::After
        } else {
            Place::Quoted
        },
        Place::After => if white(c) {
            Place::After
        } else if c == '=' {
            Place::Value
        } else {
            Place::Idle
        },
        Place::Value => Place::Value,
        Place::Idle => Place::Idle,
    }
}

fn lead_after(lead: Lead, c: char) -> (r: Lead)
    ensures
        r == next_lead(lead, c),
{
    match lead {
        Lead::Nothing => if white(c) {
            Lead::Nothing
        } else if c == '#' {
            Lead::Hash
        } else {
            Lead::More
        },
        Lead::Hash => if c == '{' {
            Lead::Brace
        } else {
            Lead::More
        },
        Lead::Brace => if white(c) {
            Lead::Brace
        } else {
            Lead::More
        },
        Lead::More => Lead::More,
    }
}

fn header_named(c: char) -> (r: Header)
    ensures
        r == named(c),
{
    if c == ']' {
        Header::Closed
    } else if in_key(c) || c == '.' {
        Header::Name
    } else {
        Header::Odd
    }
}

fn header_after(h: Header, blank: bool, c: char) -> (r: Header)
    ensures
        r == next_header(h, blank, c),
{
    match h {
        Header::No => if blank && c == '[' {
            Header::Open
        } else {
            Header::No
        },
        Header::Open => if c == 'v' {
            Header::V
        } else if c == ']' {
            Header::Odd
        } else {
            header_named(c)
        },
        Header::V => if c == 'a' {
            Header::Va
        } else {
            header_named(c)
        },
        Header::Va => if c == 'r' {
            Header::Var
        } else {
            header_named(c)
        },
        Header::Var => if c == 's' {
            Header::Vars
        } else {
            header_named(c)
        },
        Header::Vars => if c == ']' {
            Header::ClosedVars
        } else {
            header_named(c)
        },
        Header::Name => header_named(c),
        Header::ClosedVars => if white(c) {
            Header::ClosedVars
        } else {
            Header::Odd
        },
        Header::Closed => if white(c) {
            Header::Closed
        } else {
            Header::Odd
        },
        Header::Odd => Header::Odd,
    }
}

fn mark_after(m: Mark, blank: bool, c: char) -> (r: Mark)
    ensures
        r == next_mark(m, blank, c),
{
    match m {
        Mark::No => if blank && c == '@' {
            Mark::Start
        } else {
            Mark::No
        },
        Mark::Start => if is_alpha(c) || c == '_' {
            Mark::Name
        } else {
            Mark::Odd
        },
        Mark::Name => if is_alpha(c) || is_decimal(c) || c == '_' {
            Mark::Name
        } else if white(c) {
            Mark::Gap
        } else if c == '(' {
            Mark::Open
        } else {
            Mark::Odd
        },
        Mark::Gap => if white(c) {
            Mark::Gap
        } else if c == '(' {
            Mark::Open
        } else {
            Mark::Odd
        },
        Mark::Open => if white(c) {
            Mark::Hollow
        } else {
            Mark::Odd
        },
        Mark::Hollow => if white(c) {
            Mark::Hollow
        } else if c == ')' {
            Mark::Closed
        } else {
            Mark::Odd
        },
        Mark::Closed => if white(c) {
            Mark::Closed
        } else {
            Mark::Odd
        },
        Mark::Odd => Mark::Odd,
    }
}

fn read_line(l: Line, c: char) -> (r: Line)
    ensures
        r == in_line(l, c),
{
    let gap = white(c);
    Line {
        place: place_after(l, c),
        lead: if l.place == Place::Value {
            lead_after(l.lead, c)
        } else {
            l.lead
        },
        quoted: if !l.escaped && c == '"' {
            !l.quoted
        } else {
            l.quoted
        },
        escaped: !l.escaped && c == '\\',
        comment: l.comment,
        blank: l.blank && gap,
        closed: if gap {
            l.closed
        } else {
            c == '}'
        },
        header: header_after(l.header, l.blank, c),
        dots: if c == '.' && l.header != Header::No {
            add_to(l.dots, 1)
        } else {
            l.dots
        },
        mark: mark_after(l.mark, l.blank, c),
    }
}

// ---- sums and products ----

/// The integers from `lo` to `hi`.
#[derive(Debug, Clone, Copy, PartialEq, Eq, Structural)]
pub struct Range {
    pub lo: i128,
    pub hi: i128,
}

/// Every integer in the range is one of the parser's.
pub open spec fn fits(r: Range) -> bool {
    -0x8000_0000_0000_0000 <= r.lo && r.lo <= r.hi && r.hi <= 0x7fff_ffff_ffff_ffff
}

/// A range that does not fit.
pub open spec fn wide() -> Range {
    Range { lo: 0, hi: 0x1_0000_0000_0000_0000 }
}

/// A sign between two integers.
#[derive(Debug, Clone, Copy, PartialEq, Eq, Structural)]
pub enum Sign {
    No,
    Plus,
    Minus,
    Times,
}

/// The sign that a character is.
pub open spec fn sign_of(c: char) -> Sign {
    if c == '+' {
        Sign::Plus
    } else if c == '-' {
        Sign::Minus
    } else {
        Sign::Times
    }
}

/// The smaller of two.
pub open spec fn low(a: int, b: int) -> int {
    if a < b {
        a
    } else {
        b
    }
}

/// The larger of two.
pub open spec fn high(a: int, b: int) -> int {
    if a < b {
        b
    } else {
        a
    }
}

/// What the sign makes of an integer of `a` and one of `b`.
pub open spec fn combined(a: Range, sign: Sign, b: Range) -> Range {
    if sign == Sign::No {
        b
    } else if !fits(a) || !fits(b) {
        wide()
    } else {
        match sign {
            Sign::Plus => Range { lo: (a.lo + b.lo) as i128, hi: (a.hi + b.hi) as i128 },
            Sign::Minus => Range { lo: (a.lo - b.hi) as i128, hi: (a.hi - b.lo) as i128 },
            _ => Range {
                lo: low(low(a.lo * b.lo, a.lo * b.hi), low(a.hi * b.lo, a.hi * b.hi)) as i128,
                hi: high(high(a.lo * b.lo, a.lo * b.hi), high(a.hi * b.lo, a.hi * b.hi)) as i128,
            },
        }
    }
}

/// What stands between two signs, up to a character.
#[derive(Debug, Clone, Copy, PartialEq, Eq, Structural)]
pub enum Word {
    /// Nothing.
    Empty,
    /// The sign of an integer.
    Minus,
    /// A zero, which may start a number with a base.
    Zero,
    /// Decimal digits.
    Dec,
    /// Hexadecimal digits.
    Hex,
    /// Octal digits.
    Oct,
    /// Binary digits.
    Bin,
    /// A reference to a variable.
    Var,
    /// Something that is no integer, so that no integer comes of the sum or
    /// product either.
    Bad,
}

/// A sum or product of integers, up to a character. It is computed from the
/// left.
#[derive(Debug, Clone, Copy, PartialEq, Eq, Structural)]
pub struct Term {
    /// The sum or product before its last sign.
    pub sum: Range,
    /// The last sign, none where no integer stands before a sign.
    pub sign: Sign,
    /// What stands after the sign.
    pub word: Word,
    /// The digits after the sign, as a number.
    pub number: u64,
    /// The integer after the sign is negative.
    pub negative: bool,
}

/// No sum or product.
pub open spec fn no_term(word: Word) -> Term {
    Term { sum: Range { lo: 0, hi: 0 }, sign: Sign::No, word, number: 0, negative: false }
}

/// The integers that a variable may be.
pub open spec fn var_range(size: u64) -> Range {
    Range { lo: (0 - size) as i128, hi: size as i128 }
}

/// The integers that the part after the last sign may be, none where it is no
/// integer. `size` bounds the variables.
pub open spec fn atom(t: Term, size: u64) -> Option<Range> {
    match t.word {
        Word::Empty => None,
        Word::Minus => None,
        Word::Bad => None,
        Word::Var => Some(var_range(size)),
        _ => if t.number > MAX_INT {
            None
        } else if t.negative {
            Some(Range { lo: (0 - t.number) as i128, hi: (0 - t.number) as i128 })
        } else {
            Some(Range { lo: t.number as i128, hi: t.number as i128 })
        },
    }
}

/// The integers that the sum or product so far may be.
pub open spec fn total(t: Term, size: u64) -> Option<Range> {
    match atom(t, size) {
        Some(n) => Some(combined(t.sum, t.sign, n)),
        None => None,
    }
}

/// The value of a decimal or hexadecimal digit.
pub open spec fn digit_value(c: char) -> u64 {
    if is_digit(c) {
        (c as int - '0' as int) as u64
    } else if 'a' <= c && c <= 'f' {
        (c as int - 'a' as int + 10) as u64
    } else {
        (c as int - 'A' as int + 10) as u64
    }
}

/// A number with one more digit, or the largest number.
pub open spec fn shifted(n: u64, base: u64, digit: u64) -> u64 {
    if n * base + digit > u64::MAX {
        u64::MAX
    } else {
        (n * base + digit) as u64
    }
}

/// One more digit of an integer.
pub open spec fn with_digit(t: Term, base: u64, c: char, word: Word) -> Term {
    Term { number: shifted(t.number, base, digit_value(c)), word, ..t }
}

/// A sum or product with one more digit.
pub open spec fn in_digits(t: Term, c: char) -> Term {
    match t.word {
        Word::Bad => t,
        Word::Var => t,
        Word::Hex => with_digit(t, 16, c, Word::Hex),
        Word::Oct => with_digit(t, 8, c, Word::Oct),
        Word::Bin => with_digit(t, 2, c, Word::Bin),
        Word::Zero => with_digit(t, 10, c, Word::Dec),
        Word::Dec => with_digit(t, 10, c, Word::Dec),
        _ => with_digit(
            t,
            10,
            c,
            if c == '0' {
                Word::Zero
            } else {
                Word::Dec
            },
        ),
    }
}

/// A sum or product that no integer comes of.
pub open spec fn lost(t: Term) -> Term {
    Term { word: Word::Bad, ..t }
}

/// A sum or product with one more letter.
pub open spec fn in_letters(t: Term, c: char) -> Term {
    if t.word == Word::Zero && (c == 'x' || c == 'X') {
        Term { word: Word::Hex, ..t }
    } else if t.word == Word::Zero && (c == 'o' || c == 'O') {
        Term { word: Word::Oct, ..t }
    } else if t.word == Word::Zero && (c == 'b' || c == 'B') {
        Term { word: Word::Bin, ..t }
    } else if t.word == Word::Hex && is_hex_letter(c) {
        with_digit(t, 16, c, Word::Hex)
    } else if t.word == Word::Var {
        t
    } else {
        lost(t)
    }
}

/// A sum or product with one more sign. A `-` that nothing stands before is the
/// sign of an integer.
pub open spec fn in_signs(t: Term, c: char, size: u64) -> Term {
    match total(t, size) {
        Some(r) => Term { sum: r, sign: sign_of(c), ..no_term(Word::Empty) },
        None => if t.word == Word::Empty && c == '-' {
            Term { word: Word::Minus, negative: true, ..t }
        } else {
            lost(t)
        },
    }
}

/// A sum or product after white space.
pub open spec fn after_gap(t: Term) -> Term {
    if t.word == Word::Minus {
        lost(t)
    } else {
        t
    }
}

/// A sum or product with one more character.
pub open spec fn in_term(t: Term, c: char, size: u64) -> Term {
    if is_digit(c) {
        in_digits(t, c)
    } else if is_letter(c) {
        in_letters(t, c)
    } else if c == '_' {
        t
    } else if is_white(c) {
        after_gap(t)
    } else if is_op(c) {
        in_signs(t, c, size)
    } else if is_break(c) {
        no_term(Word::Empty)
    } else if c == '$' && t.word == Word::Empty {
        Term { word: Word::Var, ..t }
    } else {
        lost(t)
    }
}

/// A character at which what was computed so far is known.
pub open spec fn is_stop(c: char) -> bool {
    is_op(c) || c == '/' || is_break(c)
}

fn in_range(r: Range) -> (b: bool)
    ensures
        b == fits(r),
{
    -0x8000_0000_0000_0000 <= r.lo && r.lo <= r.hi && r.hi <= 0x7fff_ffff_ffff_ffff
}

fn sign_in(c: char) -> (r: Sign)
    ensures
        r == sign_of(c),
{
    if c == '+' {
        Sign::Plus
    } else if c == '-' {
        Sign::Minus
    } else {
        Sign::Times
    }
}

fn product(a: i128, b: i128) -> (r: i128)
    requires
        -0x8000_0000_0000_0000 <= a <= 0x7fff_ffff_ffff_ffff,
        -0x8000_0000_0000_0000 <= b <= 0x7fff_ffff_ffff_ffff,
    ensures
        r == a * b,
{
    proof {
        assert(-0x4000_0000_0000_0000_0000_0000_0000_0000 <= a * b
            <= 0x4000_0000_0000_0000_0000_0000_0000_0000) by (nonlinear_arith)
            requires
                -0x8000_0000_0000_0000 <= a <= 0x7fff_ffff_ffff_ffff,
                -0x8000_0000_0000_0000 <= b <= 0x7fff_ffff_ffff_ffff,
        ;
    }
    a * b
}

fn lower(a: i128, b: i128) -> (r: i128)
    ensures
        r == low(a as int, b as int),
{
    if a < b {
        a
    } else {
        b
    }
}

fn higher(a: i128, b: i128) -> (r: i128)
    ensures
        r == high(a as int, b as int),
{
    if a < b {
        b
    } else {
        a
    }
}

fn combine(a: Range, sign: Sign, b: Range) -> (r: Range)
    ensures
        r == combined(a, sign, b),
{
    if sign == Sign::No {
        return b;
    }
    if !in_range(a) || !in_range(b) {
        return Range { lo: 0, hi: 0x1_0000_0000_0000_0000 };
    }
    match sign {
        Sign::Plus => Range { lo: a.lo + b.lo, hi: a.hi + b.hi },
        Sign::Minus => Range { lo: a.lo - b.hi, hi: a.hi - b.lo },
        _ => {
            let (p, q) = (product(a.lo, b.lo), product(a.lo, b.hi));
            let (s, t) = (product(a.hi, b.lo), product(a.hi, b.hi));
            Range { lo: lower(lower(p, q), lower(s, t)), hi: higher(higher(p, q), higher(s, t)) }
        },
    }
}

fn new_term(word: Word) -> (r: Term)
    ensures
        r == no_term(word),
{
    Term { sum: Range { lo: 0, hi: 0 }, sign: Sign::No, word, number: 0, negative: false }
}

fn range_of_var(size: u64) -> (r: Range)
    ensures
        r == var_range(size),
{
    Range { lo: 0 - (size as i128), hi: size as i128 }
}

fn last_atom(t: Term, size: u64) -> (r: Option<Range>)
    ensures
        r == atom(t, size),
{
    match t.word {
        Word::Empty => None,
        Word::Minus => None,
        Word::Bad => None,
        Word::Var => Some(range_of_var(size)),
        _ => if t.number > MAX_INT {
            None
        } else {
            let n = t.number as i128;
            if t.negative {
                Some(Range { lo: 0 - n, hi: 0 - n })
            } else {
                Some(Range { lo: n, hi: n })
            }
        },
    }
}

fn sum_total(t: Term, size: u64) -> (r: Option<Range>)
    ensures
        r == total(t, size),
{
    match last_atom(t, size) {
        Some(n) => Some(combine(t.sum, t.sign, n)),
        None => None,
    }
}

fn value_of_digit(c: char) -> (r: u64)
    requires
        is_digit(c) || is_hex_letter(c),
    ensures
        r == digit_value(c),
{
    match c {
        '0' => 0,
        '1' => 1,
        '2' => 2,
        '3' => 3,
        '4' => 4,
        '5' => 5,
        '6' => 6,
        '7' => 7,
        '8' => 8,
        '9' => 9,
        'a' | 'A' => 10,
        'b' | 'B' => 11,
        'c' | 'C' => 12,
        'd' | 'D' => 13,
        'e' | 'E' => 14,
        _ => 15,
    }
}

fn add_digit(t: Term, base: u64, c: char, word: Word) -> (r: Term)
    requires
        is_digit(c) || is_hex_letter(c),
    ensures
        r == with_digit(t, base, c, word),
{
    let digit = value_of_digit(c);
    let number: u64 = match t.number.checked_mul(base) {
        Some(n) => match n.checked_add(digit) {
            Some(m) => m,
            None => u64::MAX,
        },
        None => u64::MAX,
    };
    Term { number, word, ..t }
}

fn read_digit(t: Term, c: char) -> (r: Term)
    requires
        is_digit(c),
    ensures
        r == in_digits(t, c),
{
    match t.word {
        Word::Bad => t,
        Word::Var => t,
        Word::Hex => add_digit(t, 16, c, Word::Hex),
        Word::Oct => add_digit(t, 8, c, Word::Oct),
        Word::Bin => add_digit(t, 2, c, Word::Bin),
        Word::Zero => add_digit(t, 10, c, Word::Dec),
        Word::Dec => add_digit(t, 10, c, Word::Dec),
        _ => add_digit(
            t,
            10,
            c,
            if c == '0' {
                Word::Zero
            } else {
                Word::Dec
            },
        ),
    }
}

fn lose(t: Term) -> (r: Term)
    ensures
        r == lost(t),
{
    Term { word: Word::Bad, ..t }
}

fn read_letter(t: Term, c: char) -> (r: Term)
    ensures
        r == in_letters(t, c),
{
    let hex = ('a' <= c && c <= 'f') || ('A' <= c && c <= 'F');
    if t.word == Word::Zero && (c == 'x' || c == 'X') {
        Term { word: Word::Hex, ..t }
    } else if t.word == Word::Zero && (c == 'o' || c == 'O') {
        Term { word: Word::Oct, ..t }
    } else if t.word == Word::Zero && (c == 'b' || c == 'B') {
        Term { word: Word::Bin, ..t }
    } else if t.word == Word::Hex && hex {
        add_digit(t, 16, c, Word::Hex)
    } else if t.word == Word::Var {
        t
    } else {
        lose(t)
    }
}

fn read_sign(t: Term, c: char, size: u64) -> (r: Term)
    ensures
        r == in_signs(t, c, size),
{
    match sum_total(t, size) {
        Some(r) => Term { sum: r, sign: sign_in(c), ..new_term(Word::Empty) },
        None => if t.word == Word::Empty && c == '-' {
            Term { word: Word::Minus, negative: true, ..t }
        } else {
            lose(t)
        },
    }
}

fn pass_gap(t: Term) -> (r: Term)
    ensures
        r == after_gap(t),
{
    if t.word == Word::Minus {
        lose(t)
    } else {
        t
    }
}

fn read_term(t: Term, c: char, size: u64) -> (r: Term)
    ensures
        r == in_term(t, c, size),
{
    if is_decimal(c) {
        read_digit(t, c)
    } else if is_alpha(c) {
        read_letter(t, c)
    } else if c == '_' {
        t
    } else if white(c) {
        pass_gap(t)
    } else if is_sign(c) {
        read_sign(t, c, size)
    } else if ends_term(c) {
        new_term(Word::Empty)
    } else if c == '$' && t.word == Word::Empty {
        Term { word: Word::Var, ..t }
    } else {
        lose(t)
    }
}

// ---- values ----

/// The last character of a value that is no white space.
#[derive(Debug, Clone, Copy, PartialEq, Eq, Structural)]
pub enum Tail {
    /// `+`.
    Plus,
    /// The end of a list or table, or a hash.
    Shut,
    Other,
}

/// What a value holds up to a character.
#[derive(Debug, Clone, Copy, PartialEq, Eq, Structural)]
pub struct Content {
    /// How many brackets are open.
    pub open: u32,
    /// The value is taken loosely.
    pub loose: bool,
    /// The brackets that opened since then.
    pub load: u32,
    /// The question marks.
    pub asked: u32,
    /// The value refers to a variable.
    pub refers: bool,
    /// The characters of the value, and what is added to them.
    pub weight: u64,
    /// What characters outside of ASCII add: the parser takes them apart at each
    /// level.
    pub extra: u64,
    /// The deepest level.
    pub high: u32,
    pub tail: Tail,
    /// How many lists and tables may be put into texts, which escapes what they
    /// hold.
    pub joins: u32,
    /// The sum or product so far.
    pub term: Term,
}

/// No value.
pub open spec fn no_value() -> Content {
    Content {
        open: 0,
        loose: false,
        load: 0,
        asked: 0,
        refers: false,
        weight: 0,
        extra: 0,
        high: 0,
        tail: Tail::Other,
        joins: 0,
        term: no_term(Word::Empty),
    }
}

/// The sum of two sizes, or the largest size.
pub open spec fn plus(a: u64, b: u64) -> u64 {
    if a + b > u64::MAX {
        u64::MAX
    } else {
        (a + b) as u64
    }
}

/// How deep a character of the value may stand.
pub open spec fn level(v: Content) -> u32 {
    more(v.open, v.load)
}

/// `n`, doubled `k` times, or the largest size.
pub open spec fn doubled(n: u64, k: nat) -> u64
    decreases k,
{
    if k == 0 {
        n
    } else {
        let half = doubled(n, (k - 1) as nat);
        plus(half, half)
    }
}

/// At most 64.
pub open spec fn few(k: int) -> nat {
    if k < 0 {
        0
    } else if k > 64 {
        64
    } else {
        k as nat
    }
}

/// What a character adds to a value in which it stands as deep as it does in `v`.
pub open spec fn bulk(v: Content, c: char) -> u64 {
    if c as int >= 128 && level(v) > 0 {
        doubled(8, few(2 * level(v)))
    } else {
        0
    }
}

/// The last character after `c`.
pub open spec fn next_tail(tail: Tail, c: char) -> Tail {
    if is_white(c) {
        tail
    } else if c == '+' {
        Tail::Plus
    } else if closes(c) || c == '#' {
        Tail::Shut
    } else {
        Tail::Other
    }
}

/// A list, a table or a variable that may be one stands beside a `+`. `nested`
/// tells whether there is such a variable.
pub open spec fn joined_at(v: Content, c: char, nested: bool) -> bool {
    ||| c == '+' && (v.tail == Tail::Shut || (v.refers && nested))
    ||| v.tail == Tail::Plus && (opens(c) || c == '#' || (c == '$' && nested))
}

/// The size of a value.
pub open spec fn swollen(v: Content) -> u64 {
    if v.joins == 0 {
        v.weight
    } else if v.joins <= v.high {
        doubled(v.weight, few(6 * v.joins))
    } else {
        doubled(v.weight, few(6 * (v.high + 1)))
    }
}

/// What a value adds to the source.
pub open spec fn gain(v: Content) -> u64 {
    if v.joins == 0 {
        v.extra
    } else {
        swollen(v)
    }
}

/// The brackets and strings of a value after a character that stands in a line
/// as `l` says.
pub open spec fn in_shape(v: Content, l: Line, c: char) -> Content {
    let plain = !l.escaped && !l.quoted;
    Content {
        open: if plain && opens(c) {
            more(v.open, 1)
        } else if plain && closes(c) && v.open > 0 {
            (v.open - 1) as u32
        } else {
            v.open
        },
        loose: v.loose || (!l.escaped && c == '\\' && !l.quoted) || (l.escaped && c == '"'),
        weight: plus(plus(v.weight, 1), bulk(v, c)),
        extra: plus(v.extra, bulk(v, c)),
        ..v
    }
}

/// What a character that counts does to a value. `known` bounds the variables.
pub open spec fn in_value(v: Content, c: char, known: Bounds) -> Content {
    let load = if opens(c) && v.loose {
        more(v.load, 1)
    } else {
        v.load
    };
    Content {
        weight: if c == '$' {
            plus(v.weight, known.weight)
        } else {
            v.weight
        },
        load,
        high: deeper(v.high, more(v.open, load)),
        tail: next_tail(v.tail, c),
        joins: if joined_at(v, c, known.depth > 0) {
            more(v.joins, 1)
        } else {
            v.joins
        },
        asked: if c == '?' {
            more(v.asked, 1)
        } else {
            v.asked
        },
        refers: v.refers || c == '$',
        term: in_term(v.term, c, known.size),
        ..v
    }
}

/// A value at the end of a line, which goes on to the next.
pub open spec fn carried(v: Content, l: Line) -> Content {
    Content { loose: v.loose || l.quoted, term: after_gap(v.term), ..v }
}

fn new_value() -> (r: Content)
    ensures
        r == no_value(),
{
    Content {
        open: 0,
        loose: false,
        load: 0,
        asked: 0,
        refers: false,
        weight: 0,
        extra: 0,
        high: 0,
        tail: Tail::Other,
        joins: 0,
        term: new_term(Word::Empty),
    }
}

fn sum_of(a: u64, b: u64) -> (r: u64)
    ensures
        r == plus(a, b),
{
    match a.checked_add(b) {
        Some(n) => n,
        None => u64::MAX,
    }
}

fn level_of(v: Content) -> (r: u32)
    ensures
        r == level(v),
{
    add_to(v.open, v.load)
}

fn double(n: u64, k: u64) -> (r: u64)
    requires
        k <= 64,
    ensures
        r == doubled(n, k as nat),
{
    let mut r: u64 = n;
    let mut i: u64 = 0;
    while i < k
        invariant
            i <= k,
            r == doubled(n, i as nat),
        decreases k - i,
    {
        r = sum_of(r, r);
        i = i + 1;
    }
    r
}

fn at_most_few(k: u64) -> (r: u64)
    ensures
        r == few(k as int),
{
    if k > 64 {
        64
    } else {
        k
    }
}

fn bulk_of(v: Content, c: char) -> (r: u64)
    ensures
        r == bulk(v, c),
{
    let n = level_of(v);
    if c as u32 >= 128 && n > 0 {
        double(8, at_most_few(2 * (n as u64)))
    } else {
        0
    }
}

fn tail_after(tail: Tail, c: char) -> (r: Tail)
    ensures
        r == next_tail(tail, c),
{
    if white(c) {
        tail
    } else if c == '+' {
        Tail::Plus
    } else if is_closing(c) || c == '#' {
        Tail::Shut
    } else {
        Tail::Other
    }
}

fn swell(v: Content) -> (r: u64)
    ensures
        r == swollen(v),
{
    if v.joins == 0 {
        v.weight
    } else if v.joins <= v.high {
        double(v.weight, at_most_few(6 * (v.joins as u64)))
    } else {
        double(v.weight, at_most_few(6 * (v.high as u64 + 1)))
    }
}

fn read_shape(v: Content, l: Line, c: char) -> (r: Content)
    ensures
        r == in_shape(v, l, c),
{
    let plain = !l.escaped && !l.quoted;
    let more_bulk: u64 = bulk_of(v, c);
    Content {
        open: if plain && is_opening(c) {
            add_to(v.open, 1)
        } else if plain && is_closing(c) && v.open > 0 {
            v.open - 1
        } else {
            v.open
        },
        loose: v.loose || (!l.escaped && c == '\\' && !l.quoted) || (l.escaped && c == '"'),
        weight: sum_of(sum_of(v.weight, 1), more_bulk),
        extra: sum_of(v.extra, more_bulk),
        ..v
    }
}

fn read_value(v: Content, c: char, known: Bounds) -> (r: Content)
    ensures
        r == in_value(v, c, known),
{
    let load = if is_opening(c) && v.loose {
        add_to(v.load, 1)
    } else {
        v.load
    };
    let here = add_to(v.open, load);
    let nested = known.depth > 0;
    let join = (c == '+' && (v.tail == Tail::Shut || (v.refers && nested))) || (v.tail == Tail::Plus
        && (is_opening(c) || c == '#' || (c == '$' && nested)));
    Content {
        weight: if c == '$' {
            sum_of(v.weight, known.weight)
        } else {
            v.weight
        },
        load,
        high: if v.high < here {
            here
        } else {
            v.high
        },
        tail: tail_after(v.tail, c),
        joins: if join {
            add_to(v.joins, 1)
        } else {
            v.joins
        },
        asked: if c == '?' {
            add_to(v.asked, 1)
        } else {
            v.asked
        },
        refers: v.refers || c == '$',
        term: read_term(v.term, c, known.size),
        ..v
    }
}

fn carry(v: Content, l: Line) -> (r: Content)
    ensures
        r == carried(v, l),
{
    Content { loose: v.loose || l.quoted, term: pass_gap(v.term), ..v }
}

// ---- sources ----

/// Bounds on variables.
#[derive(Debug, Clone, Copy, PartialEq, Eq, Structural)]
pub struct Bounds {
    /// How large a variable that is an integer may be, whatever its sign.
    pub size: u64,
    /// How deep a variable may be nested.
    pub depth: u32,
    /// How much a variable may add where it is referred to.
    pub weight: u64,
    /// A variable's name may hold signs and brackets.
    pub odd: bool,
}

/// What the part of a source up to a character holds.
#[derive(Debug, Clone, Copy, PartialEq, Eq, Structural)]
pub struct Scan {
    pub line: Line,
    pub value: Content,
    /// The lines define variables.
    pub vars: bool,
    /// Bounds on the variables that were defined.
    pub known: Bounds,
    /// What was added to the source so far.
    pub spread: u64,
    /// The lines and closing brackets so far.
    pub marks: u32,
    /// A sum or product may be too large.
    pub over: bool,
    /// A value or a header is nested too deeply, too much is added, or there is no
    /// place for an annotation.
    pub deep: bool,
    /// A value refers to the environment, the clock, the process or the machine.
    pub outside: bool,
}

/// Nothing yet.
pub open spec fn start() -> Scan {
    Scan {
        line: line_start(false),
        value: no_value(),
        vars: false,
        known: Bounds { size: MAX_PID, depth: 0, weight: 0, odd: false },
        spread: 0,
        marks: 0,
        over: false,
        deep: false,
        outside: false,
    }
}

/// The bounds to go by: those that are given, or those that are known.
pub open spec fn bounds(t: Scan, given: Option<Bounds>) -> Bounds {
    match given {
        Some(b) => b,
        None => t.known,
    }
}

/// The larger of the two absolute values.
pub open spec fn magnitude(r: Range) -> u64 {
    if !fits(r) {
        0
    } else {
        high(high(r.lo as int, 0 - r.lo), high(r.hi as int, 0 - r.hi)) as u64
    }
}

/// The larger of two numbers.
pub open spec fn larger(a: u64, b: u64) -> u64 {
    if a < b {
        b
    } else {
        a
    }
}

/// The larger of two depths.
pub open spec fn deeper(a: u32, b: u32) -> u32 {
    if a < b {
        b
    } else {
        a
    }
}

/// A value ends: what it may add as a variable is taken into account.
pub open spec fn weighed(t: Scan) -> Bounds {
    if t.vars {
        Bounds { weight: larger(t.known.weight, swollen(t.value)), ..t.known }
    } else {
        t.known
    }
}

/// A value ends, and so may a line.
pub open spec fn ended(t: Scan) -> Scan {
    let spread = plus(t.spread, gain(t.value));
    Scan {
        known: weighed(t),
        spread,
        deep: t.deep || spread > MAX_SPREAD || hollow(t.line),
        ..t
    }
}

/// What was computed in a value so far is taken into account.
pub open spec fn settle(t: Scan, given: Option<Bounds>) -> Scan {
    match total(t.value.term, bounds(t, given).size) {
        None => t,
        Some(r) => Scan {
            over: t.over || !fits(r),
            known: if t.vars {
                Bounds { size: larger(t.known.size, magnitude(r)), ..t.known }
            } else {
                t.known
            },
            ..t
        },
    }
}

/// How deep a variable stands that is referred to here, or anything else.
pub open spec fn reach(t: Scan, v: Content, c: char, given: Option<Bounds>) -> u32 {
    if c == '$' {
        more(level(v), bounds(t, given).depth)
    } else {
        level(v)
    }
}

/// A reference to a variable with an odd name may stand in a sum or product.
pub open spec fn mixes(v: Content, c: char, odd: bool) -> bool {
    odd && ((is_op(c) && v.refers) || (c == '$' && v.term.sign != Sign::No))
}

/// A character in a value that counts. `v` is the value with it, `out` tells
/// whether a name of something outside starts there.
pub open spec fn counted(t: Scan, v: Content, c: char, out: bool, given: Option<Bounds>) -> Scan {
    let u = if is_stop(c) {
        settle(t, given)
    } else {
        t
    };
    let w = in_value(v, c, bounds(t, given));
    let r = reach(t, w, c, given);
    let spread = if c == '$' {
        plus(t.spread, bounds(t, given).weight)
    } else {
        t.spread
    };
    Scan {
        value: w,
        known: if t.vars {
            Bounds { depth: deeper(u.known.depth, r), ..u.known }
        } else {
            u.known
        },
        spread,
        marks: if closes(c) {
            more(t.marks, 1)
        } else {
            t.marks
        },
        over: u.over || mixes(v, c, bounds(t, given).odd),
        deep: t.deep || r > MAX_DEPTH || w.asked > MAX_ASKED || spread > MAX_SPREAD,
        outside: t.outside || (c == '$' && out),
        ..u
    }
}

/// The value goes on to the next line.
pub open spec fn goes_on(t: Scan) -> bool {
    t.line.place == Place::Value && t.value.open > 0 && t.line.lead != Lead::Brace
}

/// A line ends.
pub open spec fn line_end(t: Scan, given: Option<Bounds>) -> Scan {
    let on = goes_on(t);
    let u = if on {
        t
    } else {
        settle(ended(t), given)
    };
    Scan {
        line: line_start(on),
        value: if on {
            carried(t.value, t.line)
        } else {
            no_value()
        },
        vars: if t.line.header == Header::ClosedVars {
            true
        } else if t.line.header == Header::Closed && t.line.place == Place::Idle {
            false
        } else {
            t.vars
        },
        marks: more(t.marks, 1),
        deep: u.deep || t.marks > MAX_MARKS,
        ..u
    }
}

/// A character of a line that is in no comment.
pub open spec fn taken(t: Scan, c: char, out: bool, given: Option<Bounds>) -> Scan {
    let l = in_line(t.line, c);
    let u = Scan {
        known: Bounds {
            odd: t.known.odd || (t.vars && t.line.blank && c == '"'),
            ..t.known
        },
        deep: t.deep || l.dots > MAX_DEPTH,
        ..t
    };
    let v = in_shape(t.value, t.line, c);
    if t.line.place != Place::Value {
        Scan { line: l, ..u }
    } else if v.loose || !t.line.quoted || !l.quoted {
        Scan { line: l, ..counted(u, v, c, out, given) }
    } else {
        Scan { line: l, value: v, ..u }
    }
}

/// What one more character makes of what was found; `brace` tells whether `{`
/// comes after it, `out` whether a name of something outside starts there.
#[verifier::opaque]
pub open spec fn step(t: Scan, c: char, brace: bool, out: bool, given: Option<Bounds>) -> Scan {
    if c == '\n' {
        line_end(t, given)
    } else if t.line.comment {
        t
    } else if c == '#' && !t.line.escaped && !t.line.quoted && !brace && !t.line.closed {
        Scan { line: Line { comment: true, ..t.line }, ..t }
    } else {
        taken(t, c, out, given)
    }
}

/// A name of something outside of the source starts at `i`: an environment
/// variable, the clock, the process or the machine.
pub open spec fn names_outside(s: Seq<char>, i: int) -> bool {
    occurs_at(s, "$ENV."@, i) || names_machine(s, i)
}

/// The name of a built-in variable that depends on the clock, the process or
/// the machine starts at `i`.
pub open spec fn names_machine(s: Seq<char>, i: int) -> bool {
    ||| occurs_at(s, "$NOW"@, i)
    ||| occurs_at(s, "$TODAY"@, i)
    ||| occurs_at(s, "$PLATFORM"@, i)
    ||| occurs_at(s, "$PID"@, i)
    ||| occurs_at(s, "$HOSTNAME"@, i)
    ||| occurs_at(s, "$CWD"@, i)
}

/// `{` stands at `i`.
pub open spec fn brace_at(s: Seq<char>, i: int) -> bool {
    i < s.len() && s[i] == '{'
}

/// What the first `n` characters of a source hold.
pub open spec fn scan(s: Seq<char>, n: int, given: Option<Bounds>) -> Scan
    decreases n,
{
    if n <= 0 {
        start()
    } else {
        step(
            scan(s, n - 1, given),
            s[n - 1],
            brace_at(s, n),
            names_outside(s, n - 1),
            given,
        )
    }
}

/// What a source holds.
pub open spec fn whole(s: Seq<char>, given: Option<Bounds>) -> Scan {
    let t = scan(s, s.len() as int, given);
    settle(ended(t), given)
}

/// Nothing is too large or nested too deeply.
pub open spec fn is_sound(t: Scan) -> bool {
    !t.over && !t.deep
}

/// A source that can be parsed: no sum or product of integers can leave 64
/// bits, nothing is nested too deeply, nothing makes it much larger, and every
/// annotation has a place.
pub open spec fn calm(s: Seq<char>) -> bool {
    is_sound(whole(s, None)) && is_sound(whole(s, Some(whole(s, None).known)))
}

/// A source that refers to nothing outside of it.
pub open spec fn settled(s: Seq<char>) -> bool {
    !whole(s, None).outside
}

/// A source that names nothing that depends on the clock, the process or the
/// machine.
pub open spec fn machine_free(s: Seq<char>) -> bool {
    forall|i: int| 0 <= i < s.len() ==> !#[trigger] names_machine(s, i)
}

fn size_of(r: Range) -> (n: u64)
    ensures
        n == magnitude(r),
{
    if !in_range(r) {
        return 0;
    }
    let m = higher(higher(r.lo, 0 - r.lo), higher(r.hi, 0 - r.hi));
    m as u64
}

fn bounds_for(t: Scan, given: Option<Bounds>) -> (r: Bounds)
    ensures
        r == bounds(t, given),
{
    match given {
        Some(b) => b,
        None => t.known,
    }
}

fn weigh(t: Scan) -> (r: Bounds)
    ensures
        r == weighed(t),
{
    let w = swell(t.value);
    if t.vars {
        Bounds {
            weight: if t.known.weight < w {
                w
            } else {
                t.known.weight
            },
            ..t.known
        }
    } else {
        t.known
    }
}

fn end_value(t: Scan) -> (r: Scan)
    ensures
        r == ended(t),
{
    let spread = sum_of(
        t.spread,
        if t.value.joins == 0 {
            t.value.extra
        } else {
            swell(t.value)
        },
    );
    Scan {
        known: weigh(t),
        spread,
        deep: t.deep || spread > MAX_SPREAD || (t.line.mark == Mark::Closed && t.line.place
            == Place::Idle),
        ..t
    }
}

fn take_stock(t: Scan, given: Option<Bounds>) -> (r: Scan)
    ensures
        r == settle(t, given),
{
    match sum_total(t.value.term, bounds_for(t, given).size) {
        None => t,
        Some(r) => {
            let n = size_of(r);
            Scan {
                over: t.over || !in_range(r),
                known: if t.vars {
                    Bounds {
                        size: if t.known.size < n {
                            n
                        } else {
                            t.known.size
                        },
                        ..t.known
                    }
                } else {
                    t.known
                },
                ..t
            }
        },
    }
}

fn reach_of(t: Scan, v: Content, c: char, given: Option<Bounds>) -> (r: u32)
    ensures
        r == reach(t, v, c, given),
{
    if c == '$' {
        add_to(level_of(v), bounds_for(t, given).depth)
    } else {
        level_of(v)
    }
}

fn count(t: Scan, v: Content, c: char, out: bool, given: Option<Bounds>) -> (r: Scan)
    ensures
        r == counted(t, v, c, out, given),
{
    let u = if is_sign(c) || c == '/' || ends_term(c) {
        take_stock(t, given)
    } else {
        t
    };
    let w = read_value(v, c, bounds_for(t, given));
    let r = reach_of(t, w, c, given);
    let spread: u64 = if c == '$' {
        sum_of(t.spread, bounds_for(t, given).weight)
    } else {
        t.spread
    };
    Scan {
        spread,
        value: w,
        known: if t.vars {
            Bounds {
                depth: if u.known.depth < r {
                    r
                } else {
                    u.known.depth
                },
                ..u.known
            }
        } else {
            u.known
        },
        marks: if is_closing(c) {
            add_to(t.marks, 1)
        } else {
            t.marks
        },
        over: u.over || (bounds_for(t, given).odd && ((is_sign(c) && v.refers) || (c == '$'
            && v.term.sign != Sign::No))),
        deep: t.deep || r > MAX_DEPTH || w.asked > MAX_ASKED || spread > MAX_SPREAD,
        outside: t.outside || (c == '$' && out),
        ..u
    }
}

fn end_line(t: Scan, given: Option<Bounds>) -> (r: Scan)
    ensures
        r == line_end(t, given),
{
    let on = t.line.place == Place::Value && t.value.open > 0 && t.line.lead != Lead::Brace;
    let u = if on {
        t
    } else {
        take_stock(end_value(t), given)
    };
    Scan {
        line: new_line(on),
        value: if on {
            carry(t.value, t.line)
        } else {
            new_value()
        },
        vars: if t.line.header == Header::ClosedVars {
            true
        } else if t.line.header == Header::Closed && t.line.place == Place::Idle {
            false
        } else {
            t.vars
        },
        marks: add_to(t.marks, 1),
        deep: u.deep || t.marks > MAX_MARKS,
        ..u
    }
}

fn take(t: Scan, c: char, out: bool, given: Option<Bounds>) -> (r: Scan)
    ensures
        r == taken(t, c, out, given),
{
    let l = read_line(t.line, c);
    let u = Scan {
        known: Bounds {
            odd: t.known.odd || (t.vars && t.line.blank && c == '"'),
            ..t.known
        },
        deep: t.deep || l.dots > MAX_DEPTH,
        ..t
    };
    let v = read_shape(t.value, t.line, c);
    if t.line.place != Place::Value {
        Scan { line: l, ..u }
    } else if v.loose || !t.line.quoted || !l.quoted {
        Scan { line: l, ..count(u, v, c, out, given) }
    } else {
        Scan { line: l, value: v, ..u }
    }
}

fn advance(t: Scan, c: char, brace: bool, out: bool, given: Option<Bounds>) -> (r: Scan)
    ensures
        r == step(t, c, brace, out, given),
{
    proof {
        reveal(step);
    }
    if c == '\n' {
        end_line(t, given)
    } else if t.line.comment {
        t
    } else if c == '#' && !t.line.escaped && !t.line.quoted && !brace && !t.line.closed {
        Scan { line: Line { comment: true, ..t.line }, ..t }
    } else {
        take(t, c, out, given)
    }
}

/// `pat` stands in `v` at `i`.
fn stands_at(v: &Vec<char>, i: usize, pat: &str) -> (r: bool)
    requires
        i < v.len(),
    ensures
        r == occurs_at(v@, pat@, i as int),
{
    let p = chars_of(pat);
    if p.len() > v.len() - i {
        return false;
    }
    let mut j: usize = 0;
    while j < p.len()
        invariant
            j <= p.len(),
            p@ == pat@,
            i + p.len() <= v.len(),
            forall|k: int| 0 <= k < j ==> v@[i + k] == pat@[k],
        decreases p.len() - j,
    {
        if v[i + j] != p[j] {
            assert(v@.subrange(i as int, i + p.len())[j as int] != pat@[j as int]);
            return false;
        }
        j = j + 1;
    }
    assert(v@.subrange(i as int, i + p.len()) =~= pat@);
    true
}

fn machine_at(v: &Vec<char>, i: usize) -> (r: bool)
    requires
        i < v.len(),
    ensures
        r == names_machine(v@, i as int),
{
    stands_at(v, i, "$NOW") || stands_at(v, i, "$TODAY") || stands_at(v, i, "$PLATFORM")
        || stands_at(v, i, "$PID") || stands_at(v, i, "$HOSTNAME") || stands_at(v, i, "$CWD")
}

/// Every name of something outside starts with `$`.
proof fn lemma_names_start(s: Seq<char>, i: int)
    requires
        0 <= i < s.len(),
        s[i] != '$',
    ensures
        !names_outside(s, i),
{
    reveal_strlit("$ENV.");
    reveal_strlit("$NOW");
    reveal_strlit("$TODAY");
    reveal_strlit("$PLATFORM");
    reveal_strlit("$PID");
    reveal_strlit("$HOSTNAME");
    reveal_strlit("$CWD");
    assert forall|pat: Seq<char>| pat.len() > 0 && pat[0] == '$' implies !#[trigger] occurs_at(
        s,
        pat,
        i,
    ) by {
        if occurs_at(s, pat, i) {
            assert(s.subrange(i, i + pat.len())[0] == s[i]);
        }
    }
}

fn new_scan() -> (r: Scan)
    ensures
        r == start(),
{
    Scan {
        line: new_line(false),
        value: new_value(),
        vars: false,
        known: Bounds { size: MAX_PID, depth: 0, weight: 0, odd: false },
        spread: 0,
        marks: 0,
        over: false,
        deep: false,
        outside: false,
    }
}

/// What a source holds, with the bounds on variables that are given.
pub fn survey(source: &str, given: Option<Bounds>) -> (r: Scan)
    ensures
        r == whole(source@, given),
{
    let v = chars_of(source);
    let mut t = new_scan();
    let mut i: usize = 0;
    while i < v.len()
        invariant
            i <= v.len(),
            v@ == source@,
            t == scan(source@, i as int, given),
        decreases v.len() - i,
    {
        let brace = i + 1 < v.len() && v[i + 1] == '{';
        let out = v[i] == '$' && (stands_at(&v, i, "$ENV.") || machine_at(&v, i));
        proof {
            if v@[i as int] != '$' {
                lemma_names_start(source@, i as int);
            }
        }
        t = advance(t, v[i], brace, out, given);
        i = i + 1;
    }
    take_stock(end_value(t), given)
}

/// Whether a source can be parsed.
pub fn is_calm(source: &str) -> (r: bool)
    ensures
        r == calm(source@),
{
    let first = survey(source, None);
    let second = survey(source, Some(first.known));
    !first.over && !first.deep && !second.over && !second.deep
}

// ---- sources that give one key a reference ----

/// In a value, outside of strings, comments, brackets and sums, with nothing
/// wrong so far.
pub open spec fn quiet(t: Scan) -> bool {
    &&& t.line.place == Place::Value && !t.line.quoted && !t.line.escaped && !t.line.comment
    &&& t.line.header == Header::No && !t.line.blank && t.line.dots == 0
    &&& t.value.open == 0 && !t.value.loose && t.value.load == 0 && t.value.asked <= 2
    &&& t.value.term.sign == Sign::No && t.value.extra == 0 && t.value.joins == 0
    &&& !t.vars && t.known == start().known && t.spread == 0 && !t.over && !t.deep
}

/// Within a string of a value, with nothing wrong so far.
pub open spec fn within(t: Scan) -> bool {
    quiet(Scan { line: Line { quoted: false, ..t.line }, ..t }) && t.line.quoted
}

/// No variable is nested.
pub open spec fn flat_bounds(given: Option<Bounds>) -> bool {
    given matches Some(b) ==> b == start().known
}

proof fn lemma_quiet_line(l: Line, c: char)
    requires
        l.place == Place::Value,
        l.header == Header::No,
        !l.blank,
        !l.escaped,
        c != '\\',
        c != '"',
    ensures
        in_line(l, c).place == Place::Value,
        in_line(l, c).header == Header::No,
        !in_line(l, c).blank,
        !in_line(l, c).escaped,
        in_line(l, c).quoted == l.quoted,
        in_line(l, c).comment == l.comment,
        in_line(l, c).dots == l.dots,
{
}

/// Another character of a reference.
pub proof fn lemma_quiet_step(t: Scan, c: char, brace: bool, out: bool, given: Option<Bounds>)
    requires
        quiet(t),
        is_tame(c) || c == ' ' || c == '.' || c == '$' || (c == '?' && t.value.asked < 2),
        flat_bounds(given),
    ensures
        quiet(step(t, c, brace, out, given)),
        step(t, c, brace, out, given).value.asked == t.value.asked + (if c == '?' {
            1int
        } else {
            0
        }),
{
    reveal(step);
    lemma_quiet_line(t.line, c);
    let v = in_shape(t.value, t.line, c);
    assert(bulk(t.value, c) == 0);
    assert(v == (Content { weight: v.weight, ..t.value }));
    let size = bounds(t, given).size;
    let w = in_value(v, c, bounds(t, given));
    assert(!is_op(c) && c != '/');
    assert(in_term(v.term, c, size).sign == Sign::No);
    assert(size == MAX_PID);
    match total(t.value.term, size) {
        Some(r) => {
            assert(r == atom(t.value.term, size)->0);
            assert(fits(r));
        },
        None => {},
    }
    assert(settle(t, given).over == t.over && settle(t, given).known == t.known);
    assert(level(w) == 0 && reach(t, w, c, given) == 0);
    let u = Scan {
        known: Bounds { odd: t.known.odd || (t.vars && t.line.blank && c == '"'), ..t.known },
        deep: t.deep || in_line(t.line, c).dots > MAX_DEPTH,
        ..t
    };
    assert(u == t);
    assert(step(t, c, brace, out, given) == taken(t, c, out, given));
}

/// The text of a string without quotes and escapes changes nothing.
pub proof fn lemma_string_run(s: Seq<char>, a: int, b: int, given: Option<Bounds>)
    requires
        0 <= a <= b <= s.len(),
        within(scan(s, a, given)),
        forall|i: int|
            a <= i < b ==> #[trigger] s[i] != '"' && s[i] != '\\' && s[i] != '\n',
    ensures
        within(scan(s, b, given)),
    decreases b - a,
{
    if a < b {
        reveal(step);
        lemma_string_run(s, a, b - 1, given);
        let t = scan(s, b - 1, given);
        let c = s[b - 1];
        assert(c != '"' && c != '\\' && c != '\n');
        lemma_quiet_line(t.line, c);
        let v = in_shape(t.value, t.line, c);
        assert(bulk(t.value, c) == 0);
        assert(v == (Content { weight: v.weight, ..t.value }));
    }
}

/// The characters of a reference change nothing.
pub proof fn lemma_tame_run(s: Seq<char>, a: int, b: int, given: Option<Bounds>)
    requires
        0 <= a <= b <= s.len(),
        quiet(scan(s, a, given)),
        flat_bounds(given),
        forall|i: int|
            a <= i < b ==> is_tame(#[trigger] s[i]) || s[i] == ' ' || s[i] == '.' || s[i] == '$',
    ensures
        quiet(scan(s, b, given)),
        scan(s, b, given).value.asked == scan(s, a, given).value.asked,
    decreases b - a,
{
    if a < b {
        lemma_tame_run(s, a, b - 1, given);
        lemma_quiet_step(
            scan(s, b - 1, given),
            s[b - 1],
            brace_at(s, b),
            names_outside(s, b - 1),
            given,
        );
    }
}

/// Where only a reference was read, the source can be parsed.
pub proof fn lemma_quiet_end(t: Scan, given: Option<Bounds>)
    requires
        quiet(t),
        flat_bounds(given),
    ensures
        is_sound(settle(ended(t), given)),
        settle(ended(t), given).known == start().known,
{
    let size = bounds(t, given).size;
    match total(t.value.term, size) {
        Some(r) => {
            assert(r == atom(t.value.term, size)->0);
            assert(fits(r));
        },
        None => {},
    }
}

// ---- sources that can always be parsed ----

/// A line that gives `key` the text `value`.
pub open spec fn text_line(key: Seq<char>, value: Seq<char>) -> Seq<char> {
    key + " = \""@ + value + "\"\n"@
}

/// Lines that give keys texts.
pub open spec fn text_lines(pairs: Seq<(Seq<char>, Seq<char>)>) -> Seq<char>
    decreases pairs.len(),
{
    if pairs.len() == 0 {
        Seq::empty()
    } else {
        text_lines(pairs.drop_last()) + text_line(pairs.last().0, pairs.last().1)
    }
}

/// At the start of a line, with nothing wrong so far.
pub open spec fn at_start(t: Scan) -> bool {
    t == (Scan { marks: t.marks, outside: t.outside, ..start() })
}

/// In a key, with nothing wrong so far.
pub open spec fn in_key_of(t: Scan) -> bool {
    at_start(Scan { line: line_start(false), ..t }) && t.line == (Line {
        place: Place::Bare,
        blank: false,
        ..line_start(false)
    })
}

proof fn lemma_marks(s: Seq<char>, n: int, given: Option<Bounds>)
    requires
        0 <= n <= s.len(),
    ensures
        scan(s, n, given).marks <= n,
    decreases n,
{
    if n > 0 {
        reveal(step);
        lemma_marks(s, n - 1, given);
    }
}

proof fn lemma_key_run(s: Seq<char>, a: int, b: int, given: Option<Bounds>)
    requires
        0 <= a < b <= s.len(),
        at_start(scan(s, a, given)),
        forall|i: int| a <= i < b ==> is_tame(#[trigger] s[i]),
    ensures
        in_key_of(scan(s, b, given)),
    decreases b - a,
{
    reveal(step);
    assert(is_tame(s[b - 1]));
    if a < b - 1 {
        lemma_key_run(s, a, b - 1, given);
    }
    let t = scan(s, b - 1, given);
    let l = in_line(t.line, s[b - 1]);
    assert(!is_white(s[b - 1]));
    assert(l == (Line { place: Place::Bare, blank: false, ..line_start(false) }));
}

/// After a key, ` = "` starts a string.
proof fn lemma_string_starts(s: Seq<char>, a: int, given: Option<Bounds>)
    requires
        0 < a,
        a + 4 <= s.len(),
        in_key_of(scan(s, a, given)),
        s[a] == ' ' && s[a + 1] == '=' && s[a + 2] == ' ' && s[a + 3] == '"',
        flat_bounds(given),
    ensures
        within(scan(s, a + 4, given)),
{
    let t2 = scan(s, a + 2, given);
    assert(quiet(t2)) by {
        reveal(step);
        let t = scan(s, a, given);
        let t1 = scan(s, a + 1, given);
        assert(t1.line == (Line { place: Place::After, blank: false, ..line_start(false) }));
        assert(t1 == (Scan { line: t1.line, ..t }));
        assert(t2.line == (Line { place: Place::Value, blank: false, ..line_start(false) }));
        assert(t2 == (Scan { line: t2.line, ..t }));
    }
    lemma_quiet_step(t2, ' ', brace_at(s, a + 3), names_outside(s, a + 2), given);
    assert(quiet(scan(s, a + 3, given)));
    lemma_quote_step(s, a + 4, given);
}

proof fn lemma_quote_step(s: Seq<char>, n: int, given: Option<Bounds>)
    requires
        0 < n <= s.len(),
        s[n - 1] == '"',
        quiet(scan(s, n - 1, given)) || within(scan(s, n - 1, given)),
    ensures
        quiet(scan(s, n - 1, given)) ==> within(scan(s, n, given)),
        within(scan(s, n - 1, given)) ==> quiet(scan(s, n, given)),
{
    reveal(step);
    let t = scan(s, n - 1, given);
    let v = in_shape(t.value, t.line, '"');
    assert(v == (Content { weight: v.weight, ..t.value }));
    assert(level(in_value(v, '"', bounds(t, given))) == 0);
}

/// A line that ends well leads to the start of the next.
proof fn lemma_line_over(s: Seq<char>, n: int, given: Option<Bounds>)
    requires
        0 < n <= s.len(),
        s.len() < 0x7fff_fff0,
        s[n - 1] == '\n',
        quiet(scan(s, n - 1, given)),
        flat_bounds(given),
    ensures
        at_start(scan(s, n, given)),
{
    reveal(step);
    let t = scan(s, n - 1, given);
    lemma_marks(s, n - 1, given);
    lemma_quiet_end(t, given);
    assert(!goes_on(t));
    let u = settle(ended(t), given);
    assert(u.spread == 0 && !u.over && !u.deep);
}

proof fn lemma_text_line(
    s: Seq<char>,
    a: int,
    key: Seq<char>,
    value: Seq<char>,
    given: Option<Bounds>,
)
    requires
        0 <= a,
        a + text_line(key, value).len() <= s.len(),
        s.len() < 0x7fff_fff0,
        s.subrange(a, a + text_line(key, value).len()) == text_line(key, value),
        at_start(scan(s, a, given)),
        flat_bounds(given),
        key.len() > 0,
        forall|i: int| 0 <= i < key.len() ==> is_tame(#[trigger] key[i]),
        forall|i: int|
            0 <= i < value.len() ==> #[trigger] value[i] != '"' && value[i] != '\\' && value[i]
                != '\n',
    ensures
        at_start(scan(s, a + text_line(key, value).len(), given)),
{
    reveal_strlit(" = \"");
    reveal_strlit("\"\n");
    let line = text_line(key, value);
    let k = key.len() as int;
    let n = value.len() as int;
    assert forall|i: int| 0 <= i < line.len() implies s[a + i] == line[i] by {
        assert(s.subrange(a, a + line.len())[i] == s[a + i]);
    }
    assert forall|i: int| a <= i < a + k implies is_tame(#[trigger] s[i]) by {
        assert(s[a + (i - a)] == line[i - a]);
        assert(line[i - a] == key[i - a]);
    }
    lemma_key_run(s, a, a + k, given);
    assert(s[a + k] == line[k] && s[a + (k + 1)] == line[k + 1] && s[a + (k + 2)] == line[k + 2]
        && s[a + (k + 3)] == line[k + 3]);
    lemma_string_starts(s, a + k, given);
    let b = a + k + 4;
    assert forall|i: int| b <= i < b + n implies #[trigger] s[i] != '"' && s[i] != '\\' && s[i]
        != '\n' by {
        assert(s[a + (i - a)] == line[i - a]);
        assert(line[i - a] == value[i - b]);
    }
    lemma_string_run(s, b, b + n, given);
    assert(s[a + (k + 4 + n)] == line[k + 4 + n]);
    assert(s[a + (k + 5 + n)] == line[k + 5 + n]);
    lemma_quote_step(s, b + n + 1, given);
    lemma_line_over(s, b + n + 2, given);
}

proof fn lemma_lines_before(pairs: Seq<(Seq<char>, Seq<char>)>, i: int)
    requires
        0 <= i <= pairs.len(),
    ensures
        text_lines(pairs.take(i)).len() <= text_lines(pairs).len(),
        text_lines(pairs).subrange(0, text_lines(pairs.take(i)).len() as int) == text_lines(
            pairs.take(i),
        ),
    decreases pairs.len(),
{
    let s = text_lines(pairs);
    if i == pairs.len() {
        assert(pairs.take(i) =~= pairs);
        assert(s.subrange(0, s.len() as int) =~= s);
    } else {
        let rest = pairs.drop_last();
        lemma_lines_before(rest, i);
        assert(rest.take(i) =~= pairs.take(i));
        let n = text_lines(pairs.take(i)).len() as int;
        assert(s.subrange(0, n) =~= text_lines(rest).subrange(0, n));
    }
}

proof fn lemma_text_lines(pairs: Seq<(Seq<char>, Seq<char>)>, i: int, given: Option<Bounds>)
    requires
        0 <= i <= pairs.len(),
        text_lines(pairs).len() < 0x7fff_fff0,
        flat_bounds(given),
        forall|j: int, x: int|
            0 <= j < pairs.len() && 0 <= x < pairs[j].0.len() ==> is_tame(
                #[trigger] pairs[j].0[x],
            ),
        forall|j: int| 0 <= j < pairs.len() ==> (#[trigger] pairs[j]).0.len() > 0,
        forall|j: int, x: int|
            0 <= j < pairs.len() && 0 <= x < pairs[j].1.len() ==> #[trigger] pairs[j].1[x] != '"'
                && pairs[j].1[x] != '\\' && pairs[j].1[x] != '\n',
    ensures
        at_start(scan(text_lines(pairs), text_lines(pairs.take(i)).len() as int, given)),
    decreases i,
{
    let s = text_lines(pairs);
    if i > 0 {
        lemma_text_lines(pairs, i - 1, given);
        lemma_lines_before(pairs, i);
        let (key, value) = pairs[i - 1];
        let line = text_line(key, value);
        let a = text_lines(pairs.take(i - 1)).len() as int;
        assert(pairs.take(i).drop_last() =~= pairs.take(i - 1));
        assert(pairs.take(i).last() == pairs[i - 1]);
        let b = text_lines(pairs.take(i)).len() as int;
        assert(b == a + line.len());
        assert(s.subrange(a, b) =~= text_lines(pairs.take(i)).subrange(a, b));
        assert(text_lines(pairs.take(i)).subrange(a, b) =~= line);
        lemma_text_line(s, a, key, value, given);
    } else {
        assert(text_lines(pairs.take(0)).len() == 0);
    }
}

/// A source that gives keys texts, line by line, can be parsed, however many lines
/// it has and whatever the texts are, as long as they hold no quotes, backslashes
/// and line feeds.
pub proof fn law_plain_lines_can_be_parsed(pairs: Seq<(Seq<char>, Seq<char>)>)
    requires
        text_lines(pairs).len() < 0x7fff_fff0,
        forall|j: int, x: int|
            0 <= j < pairs.len() && 0 <= x < pairs[j].0.len() ==> is_tame(
                #[trigger] pairs[j].0[x],
            ),
        forall|j: int| 0 <= j < pairs.len() ==> (#[trigger] pairs[j]).0.len() > 0,
        forall|j: int, x: int|
            0 <= j < pairs.len() && 0 <= x < pairs[j].1.len() ==> #[trigger] pairs[j].1[x] != '"'
                && pairs[j].1[x] != '\\' && pairs[j].1[x] != '\n',
    ensures
        calm(text_lines(pairs)),
{
    let s = text_lines(pairs);
    let n = pairs.len() as int;
    assert(pairs.take(n) =~= pairs);
    lemma_text_lines(pairs, n, None);
    lemma_text_lines(pairs, n, Some(start().known));
    lemma_start_is_sound(scan(s, s.len() as int, None), None);
    lemma_start_is_sound(
        scan(s, s.len() as int, Some(start().known)),
        Some(start().known),
    );
}

proof fn lemma_start_is_sound(t: Scan, given: Option<Bounds>)
    requires
        at_start(t),
        flat_bounds(given),
    ensures
        is_sound(settle(ended(t), given)),
        settle(ended(t), given).known == start().known,
{
    match total(t.value.term, bounds(t, given).size) {
        Some(r) => {
            assert(r == atom(t.value.term, bounds(t, given).size)->0);
            assert(fits(r));
        },
        None => {},
    }
}

/// A list that is nested `k` deep.
pub open spec fn nested_list(k: nat) -> Seq<char> {
    "x = "@ + Seq::new(k, |i: int| '[') + Seq::new(k, |i: int| ']')
}

/// In a value at depth `j`, outside of strings, with nothing wrong so far.
pub open spec fn nested_at(t: Scan, j: int) -> bool {
    &&& t.line.place == Place::Value && !t.line.quoted && !t.line.escaped && !t.line.comment
    &&& t.line.header == Header::No && !t.line.blank && t.line.dots == 0
    &&& t.value.open == j && !t.value.loose && t.value.load == 0 && t.value.asked == 0
    &&& t.value.term.sign == Sign::No && t.value.extra == 0 && t.value.joins == 0 && t.value.tail
        != Tail::Plus
    &&& !t.vars && t.known == start().known && t.spread == 0 && !t.over && !t.deep
}

proof fn lemma_bracket_step(t: Scan, c: char, out: bool, j: int, given: Option<Bounds>)
    requires
        nested_at(t, j),
        c == '[' && 0 <= j < 128 || c == ']' && 0 < j <= 128,
        flat_bounds(given),
    ensures
        nested_at(
            step(t, c, false, out, given),
            if c == '[' {
                j + 1
            } else {
                j - 1
            },
        ),
{
    reveal(step);
    let v = in_shape(t.value, t.line, c);
    let size = bounds(t, given).size;
    assert(bulk(t.value, c) == 0);
    match total(t.value.term, size) {
        Some(r) => {
            assert(r == atom(t.value.term, size)->0);
            assert(fits(r));
        },
        None => {},
    }
    assert(settle(t, given).over == t.over && settle(t, given).known == t.known);
    let w = in_value(v, c, bounds(t, given));
    assert(level(w) <= 128);
    assert(in_term(v.term, c, size).sign == Sign::No);
}

/// Lists can be nested a hundred and twenty-eight deep.
pub proof fn law_nested_lists_can_be_parsed(k: nat)
    requires
        k <= 128,
    ensures
        calm(nested_list(k)),
{
    lemma_nested(k, 2 * k as int, None);
    lemma_nested(k, 2 * k as int, Some(start().known));
    let s = nested_list(k);
    reveal_strlit("x = ");
    assert(s.len() == 4 + 2 * k);
    lemma_nested_end(scan(s, s.len() as int, None), None);
    lemma_nested_end(scan(s, s.len() as int, Some(start().known)), Some(start().known));
}

proof fn lemma_nested_end(t: Scan, given: Option<Bounds>)
    requires
        nested_at(t, 0),
        flat_bounds(given),
    ensures
        is_sound(settle(ended(t), given)),
        settle(ended(t), given).known == start().known,
{
    match total(t.value.term, bounds(t, given).size) {
        Some(r) => {
            assert(r == atom(t.value.term, bounds(t, given).size)->0);
            assert(fits(r));
        },
        None => {},
    }
}

proof fn lemma_nested(k: nat, n: int, given: Option<Bounds>)
    requires
        k <= 128,
        0 <= n <= 2 * k,
        flat_bounds(given),
    ensures
        nested_at(
            scan(nested_list(k), 4 + n, given),
            if n <= k {
                n
            } else {
                2 * k - n
            },
        ),
    decreases n,
{
    reveal_strlit("x = ");
    let s = nested_list(k);
    if n == 0 {
        reveal(step);
        reveal_with_fuel(scan, 5);
        assert(s[0] == 'x' && s[1] == ' ' && s[2] == '=' && s[3] == ' ');
        let t1 = scan(s, 1, given);
        let t2 = scan(s, 2, given);
        let t3 = scan(s, 3, given);
        assert(t1.line.place == Place::Bare);
        assert(t2.line.place == Place::After);
        assert(t3.line.place == Place::Value);
        assert(quiet(t3));
        assert(t3.value == no_value());
        lemma_quiet_step(t3, ' ', brace_at(s, 4), names_outside(s, 3), given);
        let v = in_shape(t3.value, t3.line, ' ');
        assert(scan(s, 4, given).value == in_value(v, ' ', bounds(t3, given)));
    } else {
        lemma_nested(k, n - 1, given);
        let j = if n - 1 <= k {
            n - 1
        } else {
            2 * k - (n - 1)
        };
        let c = s[4 + n - 1];
        assert(c == if n - 1 < k {
            '['
        } else {
            ']'
        });
        assert(!brace_at(s, 4 + n));
        lemma_bracket_step(
            scan(s, 4 + n - 1, given),
            c,
            names_outside(s, 4 + n - 1),
            j,
            given,
        );
    }
}

/// What rests on the clock, the process or the machine is named by one of six
/// names; a source in which none of them occurs does not.
pub proof fn law_machine_names(s: Seq<char>)
    ensures
        machine_free(s) <==> !occurs_in(s, "$NOW"@) && !occurs_in(s, "$TODAY"@) && !occurs_in(
            s,
            "$PLATFORM"@,
        ) && !occurs_in(s, "$PID"@) && !occurs_in(s, "$HOSTNAME"@) && !occurs_in(s, "$CWD"@),
{
    reveal_strlit("$NOW");
    reveal_strlit("$TODAY");
    reveal_strlit("$PLATFORM");
    reveal_strlit("$PID");
    reveal_strlit("$HOSTNAME");
    reveal_strlit("$CWD");
    if machine_free(s) {
        assert forall|pat: Seq<char>, i: int|
            pat.len() > 0 && #[trigger] occurs_at(s, pat, i) implies 0 <= i < s.len() by {}
        assert forall|i: int| 0 <= i < s.len() implies !occurs_at(s, "$NOW"@, i) && !occurs_at(
            s,
            "$TODAY"@,
            i,
        ) && !occurs_at(s, "$PLATFORM"@, i) && !occurs_at(s, "$PID"@, i) && !occurs_at(
            s,
            "$HOSTNAME"@,
            i,
        ) && !occurs_at(s, "$CWD"@, i) by {
            assert(!names_machine(s, i));
        }
    }
}

/// What is computed of two integers is their sum, difference or product, and it is
/// too large exactly where it leaves 64 bits.
pub proof fn law_sums_are_exact(a: i64, b: i64)
    ensures
        ({
            let x = Range { lo: a as i128, hi: a as i128 };
            let y = Range { lo: b as i128, hi: b as i128 };
            &&& combined(x, Sign::Plus, y).lo == a + b && combined(x, Sign::Plus, y).hi == a + b
            &&& combined(x, Sign::Minus, y).lo == a - b && combined(x, Sign::Minus, y).hi == a - b
            &&& combined(x, Sign::Times, y).lo == a * b && combined(x, Sign::Times, y).hi == a * b
            &&& combined(x, Sign::No, y) == y
            &&& fits(combined(x, Sign::Plus, y)) <==> i64::MIN <= a + b <= i64::MAX
            &&& fits(combined(x, Sign::Minus, y)) <==> i64::MIN <= a - b <= i64::MAX
            &&& fits(combined(x, Sign::Times, y)) <==> i64::MIN <= a * b <= i64::MAX
        }),
{
    assert(-0x4000_0000_0000_0000_0000_0000_0000_0000 <= a * b
        <= 0x4000_0000_0000_0000_0000_0000_0000_0000) by (nonlinear_arith)
        requires
            -0x8000_0000_0000_0000 <= a <= 0x7fff_ffff_ffff_ffff,
            -0x8000_0000_0000_0000 <= b <= 0x7fff_ffff_ffff_ffff,
    ;
}

} // verus!

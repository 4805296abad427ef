//! Raw tokens are the "raw" output of the lexer, with comments and newlines as
//! separate tokens. This is a very stateless representation: a second pass is
//! responsible for finding indents/dedents and matching them up correctly,
//! dealing with newlines, properly handling comments, and so on.
//!
//! Every token is the longest match at the current position among the token
//! patterns below; between patterns that match equally much, keywords win
//! over names and documentation comments over plain comments.
//!
//! - name: `XID_Start [XID_Continue _ ']*`
//! - decimal number: `[0-9][0-9_']*(\.[0-9][0-9_']*)?([eE][+\-]?[0-9][0-9_']*)?`
//! - binary number: `0b[01][01_']*(\.[01][01_']*)?([eE][+\-]?[01][01_']*)?`
//! - hexadecimal number: `0x[0-9a-fA-F]` followed by what [`hex_len`] accepts
//! - string: `"([^"\n\\]|\\.)*["\n]`
//! - keywords `fun`, `import`, `let` and `( ) . ; : =`
//! - comments `--[^\n\r]*` and `-+ ... +-`, documentation `---[^\n\r]*` and
//!   `-++ ... ++-`
//! - newlines `(\n[ \t]*)+`, whitespace `[ \r\t\v\f]+` (skipped)
//! - anything else is an error of one character.

use vstd::prelude::*;

use crate::text::push_char;

use super::xid::{is_xid_continue, is_xid_start, xid_continue, xid_start};
use crate::source::Span;

verus! {

/// A raw token.
#[derive(Clone, Debug, PartialEq, Eq)]
pub enum RawToken {
    Name(String),
    Number(String),
    String(String),
    Fun,
    Import,
    Let,
    LeftParen,
    RightParen,
    Period,
    Semicolon,
    Colon,
    Equal,
    Comment(String),
    DocComment(String),
    /// A run of newlines, with the number of spaces and tabs after the last.
    Newline(usize),
    Error,
}

/// What kind of token (or skipped whitespace) starts at some position.
#[derive(Clone, Copy, Debug, PartialEq, Eq, Structural)]
pub enum RawKind {
    Name,
    Number,
    String,
    Fun,
    Import,
    Let,
    LeftParen,
    RightParen,
    Period,
    Semicolon,
    Colon,
    Equal,
    Comment,
    DocComment,
    Newline,
    Error,
    Skip,
}

/// A set of characters that a run of characters may consist of.
#[derive(Clone, Copy, Debug, PartialEq, Eq, Structural)]
pub enum Class {
    /// `[0-9_']`
    Decimal,
    /// `[01_']`
    Binary,
    /// `[0-9a-fA-F_']`
    Hex,
    /// `[XID_Continue_']`
    NameRest,
    /// `[\n \t]`
    Lines,
    /// `[ \r\t\v\f]`
    Blank,
    /// `[^\n\r]`
    LineRest,
}

pub open spec fn is_digit(c: char) -> bool {
    '0' <= c && c <= '9'
}

pub open spec fn is_bit(c: char) -> bool {
    c == '0' || c == '1'
}

pub open spec fn is_hex_digit(c: char) -> bool {
    ('0' <= c && c <= '9') || ('a' <= c && c <= 'f') || ('A' <= c && c <= 'F')
}

pub open spec fn is_blank(c: char) -> bool {
    c == ' ' || c == '\r' || c == '\t' || c == '\x0b' || c == '\x0c'
}

pub open spec fn in_class(class: Class, c: char) -> bool {
    match class {
        Class::Decimal => is_digit(c) || c == '_' || c == '\'',
        Class::Binary => is_bit(c) || c == '_' || c == '\'',
        Class::Hex => is_hex_digit(c) || c == '_' || c == '\'',
        Class::NameRest => xid_continue(c) || c == '_' || c == '\'',
        Class::Lines => c == '\n' || c == ' ' || c == '\t',
        Class::Blank => is_blank(c),
        Class::LineRest => c != '\n' && c != '\r',
    }
}

/// Does `class` contain `c`?
pub fn class_contains(class: Class, c: char) -> (r: bool)
    ensures
        r == in_class(class, c),
{
    match class {
        Class::Decimal => ('0' <= c && c <= '9') || c == '_' || c == '\'',
        Class::Binary => c == '0' || c == '1' || c == '_' || c == '\'',
        Class::Hex => ('0' <= c && c <= '9') || ('a' <= c && c <= 'f') || ('A' <= c && c <= 'F')
            || c == '_' || c == '\'',
        Class::NameRest => is_xid_continue(c) || c == '_' || c == '\'',
        Class::Lines => c == '\n' || c == ' ' || c == '\t',
        Class::Blank => c == ' ' || c == '\r' || c == '\t' || c == '\x0b' || c == '\x0c',
        Class::LineRest => c != '\n' && c != '\r',
    }
}

/// The length of the longest run of characters of `class` starting at `i`.
pub open spec fn run_len(s: Seq<char>, i: int, class: Class) -> nat
    decreases s.len() - i,
{
    if 0 <= i < s.len() && in_class(class, s[i]) {
        1 + run_len(s, i + 1, class)
    } else {
        0
    }
}

/// Whether position `i` of `s` holds the character `c`.
pub open spec fn has(s: Seq<char>, i: int, c: char) -> bool {
    0 <= i < s.len() && s[i] == c
}

/// Whether position `i` of `s` holds a character satisfying `class`.
pub open spec fn has_class(s: Seq<char>, i: int, class: Class) -> bool {
    0 <= i < s.len() && in_class(class, s[i])
}

/// The digit class of a number's radix (decimal or binary) and the class of
/// its digits without separators.
pub open spec fn is_radix_digit(class: Class, c: char) -> bool {
    match class {
        Class::Binary => is_bit(c),
        _ => is_digit(c),
    }
}

/// The length of the longest match of
/// `D[D_']*(\.D[D_']*)?([eE][+\-]?D[D_']*)?` at `i`, where `D` is a digit of
/// `class` (decimal or binary), given that `s[i]` is such a digit.
pub open spec fn number_len(s: Seq<char>, i: int, class: Class) -> nat {
    let whole = 1 + run_len(s, i + 1, class);
    let j = i + whole;
    let fraction: nat = if has(s, j, '.') && j + 1 < s.len() && is_radix_digit(class, s[j + 1]) {
        2 + run_len(s, j + 2, class)
    } else {
        0
    };
    let k = j + fraction;
    let exponent: nat = if has(s, k, 'e') || has(s, k, 'E') {
        if (has(s, k + 1, '+') || has(s, k + 1, '-')) && k + 2 < s.len() && is_radix_digit(
            class,
            s[k + 2],
        ) {
            3 + run_len(s, k + 3, class)
        } else if k + 1 < s.len() && is_radix_digit(class, s[k + 1]) {
            2 + run_len(s, k + 2, class)
        } else {
            0
        }
    } else {
        0
    };
    whole + fraction + exponent
}

/// The part of a hexadecimal number being read.
#[derive(Clone, Copy, Debug, PartialEq, Eq, Structural)]
pub enum Part {
    Integer,
    Decimal,
}

/// The states of the hexadecimal number reader. The characters read in
/// `E`, `Dot` and `PlusMinus` are not yet counted as part of the number.
#[derive(Clone, Copy, Debug, PartialEq, Eq, Structural)]
pub enum HexState {
    Part(Part),
    Dot,
    E(Part),
    PlusMinus,
    ExponentPart,
}

/// How many more characters from `i` on belong to a hexadecimal number, in
/// state `state`. A hex number has an integer part `[0-9a-fA-F][0-9a-fA-F_']*`,
/// an optional decimal part `\.[0-9a-fA-F][0-9a-fA-F_']*` and an optional
/// exponent part `[eE][+\-][0-9a-fA-F][0-9a-fA-F_']*`; since `e` and `E` are
/// hex digits too, an `e` is only known to start the exponent once a sign
/// follows it.
pub open spec fn hex_len(s: Seq<char>, i: int, state: HexState) -> nat
    decreases s.len() - i,
{
    if i < 0 {
        0
    } else if i >= s.len() {
        // A pending `e` at the end of the text is a digit, and a sign after
        // it is not part of the number.
        match state {
            HexState::E(_) | HexState::PlusMinus => 1,
            _ => 0,
        }
    } else {
        let c = s[i];
        match state {
            HexState::E(previous) => {
                if c == '+' || c == '-' {
                    hex_len(s, i + 1, HexState::PlusMinus)
                } else if in_class(Class::Hex, c) {
                    2 + hex_len(s, i + 1, HexState::Part(previous))
                } else {
                    1
                }
            },
            HexState::PlusMinus => {
                if is_hex_digit(c) {
                    3 + hex_len(s, i + 1, HexState::ExponentPart)
                } else {
                    1
                }
            },
            HexState::Part(part) => {
                if c == 'e' || c == 'E' {
                    hex_len(s, i + 1, HexState::E(part))
                } else if in_class(Class::Hex, c) {
                    1 + hex_len(s, i + 1, state)
                } else if part == Part::Integer && c == '.' {
                    hex_len(s, i + 1, HexState::Dot)
                } else {
                    0
                }
            },
            HexState::ExponentPart => {
                if in_class(Class::Hex, c) {
                    1 + hex_len(s, i + 1, state)
                } else {
                    0
                }
            },
            HexState::Dot => {
                if is_hex_digit(c) {
                    2 + hex_len(s, i + 1, HexState::Part(Part::Decimal))
                } else {
                    0
                }
            },
        }
    }
}

/// The kind of a block comment.
#[derive(Clone, Copy, Debug, PartialEq, Eq, Structural)]
pub enum Block {
    Doc,
    Normal,
}

/// How many characters from `i` on belong to a block comment whose opener
/// has been read, having just read `plusses` consecutive `+`. A normal block
/// ends with `+-`, a documentation block with `++-`; an unterminated block
/// runs to the end of the text.
pub open spec fn block_len(s: Seq<char>, i: int, kind: Block, plusses: nat) -> nat
    decreases s.len() - i,
{
    if i < 0 || i >= s.len() {
        0
    } else {
        let c = s[i];
        if (kind == Block::Doc && plusses == 2 && c == '-') || (kind == Block::Normal && plusses
            == 1 && c == '-') {
            1
        } else if (kind == Block::Doc && plusses < 2 && c == '+') || (kind == Block::Normal
            && plusses == 0 && c == '+') {
            1 + block_len(s, i + 1, kind, plusses + 1)
        } else {
            1 + block_len(s, i + 1, kind, 0)
        }
    }
}

/// How many characters from `i` on belong to the body and terminator of a
/// string whose opening quote has been read, or `None` if the string is not
/// terminated by a `"` or a newline.
pub open spec fn string_len(s: Seq<char>, i: int) -> Option<nat>
    decreases s.len() - i,
{
    if i < 0 || i >= s.len() {
        None
    } else if s[i] == '"' || s[i] == '\n' {
        Some(1)
    } else if s[i] == '\\' {
        if i + 1 < s.len() && s[i + 1] != '\n' {
            match string_len(s, i + 2) {
                Some(n) => Some(n + 2),
                None => None,
            }
        } else {
            None
        }
    } else {
        match string_len(s, i + 1) {
            Some(n) => Some(n + 1),
            None => None,
        }
    }
}

/// The kind and length of the token starting at position `i` of `s`.
pub open spec fn raw_at(s: Seq<char>, i: int) -> (RawKind, nat)
    recommends
        0 <= i < s.len(),
{
    let c = s[i];
    if c == '\n' {
        (RawKind::Newline, run_len(s, i, Class::Lines))
    } else if is_blank(c) {
        (RawKind::Skip, run_len(s, i, Class::Blank))
    } else if c == '"' {
        match string_len(s, i + 1) {
            Some(n) => (RawKind::String, n + 1),
            None => (RawKind::Error, 1),
        }
    } else if is_digit(c) {
        if c == '0' && has(s, i + 1, 'x') && i + 2 < s.len() && is_hex_digit(s[i + 2]) {
            (RawKind::Number, 3 + hex_len(s, i + 3, HexState::Part(Part::Integer)))
        } else if c == '0' && has(s, i + 1, 'b') && i + 2 < s.len() && is_bit(s[i + 2]) {
            (RawKind::Number, 2 + number_len(s, i + 2, Class::Binary))
        } else {
            (RawKind::Number, number_len(s, i, Class::Decimal))
        }
    } else if c == '-' {
        if has(s, i + 1, '-') {
            if has(s, i + 2, '-') {
                (RawKind::DocComment, run_len(s, i, Class::LineRest))
            } else {
                (RawKind::Comment, run_len(s, i, Class::LineRest))
            }
        } else if has(s, i + 1, '+') {
            if has(s, i + 2, '+') {
                (RawKind::DocComment, 3 + block_len(s, i + 3, Block::Doc, 0))
            } else {
                (RawKind::Comment, 2 + block_len(s, i + 2, Block::Normal, 0))
            }
        } else {
            (RawKind::Error, 1)
        }
    } else if xid_start(c) {
        let n = 1 + run_len(s, i + 1, Class::NameRest);
        let word = s.subrange(i, i + n);
        if word == seq!['f', 'u', 'n'] {
            (RawKind::Fun, n)
        } else if word == seq!['i', 'm', 'p', 'o', 'r', 't'] {
            (RawKind::Import, n)
        } else if word == seq!['l', 'e', 't'] {
            (RawKind::Let, n)
        } else {
            (RawKind::Name, n)
        }
    } else if c == '(' {
        (RawKind::LeftParen, 1)
    } else if c == ')' {
        (RawKind::RightParen, 1)
    } else if c == '.' {
        (RawKind::Period, 1)
    } else if c == ';' {
        (RawKind::Semicolon, 1)
    } else if c == ':' {
        (RawKind::Colon, 1)
    } else if c == '=' {
        (RawKind::Equal, 1)
    } else {
        (RawKind::Error, 1)
    }
}

/// The number of spaces and tabs after the last newline of `text`.
pub open spec fn indent_of(text: Seq<char>) -> nat
    decreases text.len(),
{
    if text.len() == 0 {
        0
    } else if text.last() == '\n' {
        0
    } else {
        1 + indent_of(text.drop_last())
    }
}

/// A newline followed by `k` spaces and tabs, and then by a character that
/// is none of these or by the end of the text, is one newline token of
/// `1 + k` characters whose indentation is `k`: tabs indent as spaces do.
pub proof fn law_newline_indentation(s: Seq<char>, i: int, k: nat)
    requires
        0 <= i,
        i + 1 + k <= s.len(),
        s[i] == '\n',
        forall|j: int| i < j <= i + k ==> s[j] == ' ' || s[j] == '\t',
        i + 1 + k < s.len() ==> s[i + 1 + k] != ' ' && s[i + 1 + k] != '\t' && s[i + 1 + k]
            != '\n',
    ensures
        raw_at(s, i) == (RawKind::Newline, 1 + k),
        indent_of(s.subrange(i, i + 1 + k)) == k,
{
    lemma_blank_run(s, i, k, i);
    lemma_indent_run(s, i, k);
}

proof fn lemma_blank_run(s: Seq<char>, i: int, k: nat, j: int)
    requires
        0 <= i <= j <= i + 1 + k,
        i + 1 + k <= s.len(),
        s[i] == '\n',
        forall|m: int| i < m <= i + k ==> s[m] == ' ' || s[m] == '\t',
        i + 1 + k < s.len() ==> s[i + 1 + k] != ' ' && s[i + 1 + k] != '\t' && s[i + 1 + k]
            != '\n',
    ensures
        run_len(s, j, Class::Lines) == i + 1 + k - j,
    decreases i + 1 + k - j,
{
    if j < i + 1 + k {
        lemma_blank_run(s, i, k, j + 1);
    }
}

proof fn lemma_indent_run(s: Seq<char>, i: int, k: nat)
    requires
        0 <= i,
        i + 1 + k <= s.len(),
        s[i] == '\n',
        forall|m: int| i < m <= i + k ==> s[m] == ' ' || s[m] == '\t',
    ensures
        indent_of(s.subrange(i, i + 1 + k)) == k,
    decreases k,
{
    let t = s.subrange(i, i + 1 + k);
    if k == 0 {
        assert(t.last() == '\n');
    } else {
        assert(t.last() == s[i + k]);
        assert(t.drop_last() =~= s.subrange(i, i + k));
        lemma_indent_run(s, i, (k - 1) as nat);
    }
}

proof fn lemma_decimal_run(s: Seq<char>, i: int, k: nat, j: int)
    requires
        0 <= i < j <= i + k,
        i + k <= s.len(),
        forall|m: int| i < m < i + k ==> is_digit(s[m]) || s[m] == '_' || s[m] == '\'',
        i + k < s.len() ==> !is_digit(s[i + k]) && s[i + k] != '_' && s[i + k] != '\'',
    ensures
        run_len(s, j, Class::Decimal) == i + k - j,
    decreases i + k - j,
{
    if j < i + k {
        lemma_decimal_run(s, i, k, j + 1);
    }
}

/// A decimal digit followed by digits, `_` and `'`, and then by a character
/// that can neither continue nor extend a number (nor make it binary or
/// hexadecimal) or by the end of the text, is one number token of exactly
/// those characters.
pub proof fn law_whole_number(s: Seq<char>, i: int, k: nat)
    requires
        0 <= i,
        1 <= k,
        i + k <= s.len(),
        is_digit(s[i]),
        forall|m: int| i < m < i + k ==> is_digit(s[m]) || s[m] == '_' || s[m] == '\'',
        i + k < s.len() ==> !is_digit(s[i + k]) && s[i + k] != '_' && s[i + k] != '\''
            && s[i + k] != '.' && s[i + k] != 'e' && s[i + k] != 'E' && s[i + k] != 'x'
            && s[i + k] != 'b',
    ensures
        raw_at(s, i) == (RawKind::Number, k),
{
    lemma_decimal_run(s, i, k, i + 1);
    if k >= 2 {
        assert(s[i + 1] != 'x' && s[i + 1] != 'b');
    }
}

/// Whether `token` is the raw token of kind `kind` made of the characters
/// `text`.
pub open spec fn raw_token_is(token: RawToken, kind: RawKind, text: Seq<char>) -> bool {
    match kind {
        RawKind::Name => token matches RawToken::Name(x) && x@ == text,
        RawKind::Number => token matches RawToken::Number(x) && x@ == text,
        RawKind::String => token matches RawToken::String(x) && x@ == text,
        RawKind::Comment => token matches RawToken::Comment(x) && x@ == text,
        RawKind::DocComment => token matches RawToken::DocComment(x) && x@ == text,
        RawKind::Newline => token == RawToken::Newline(indent_of(text) as usize),
        RawKind::Fun => token == RawToken::Fun,
        RawKind::Import => token == RawToken::Import,
        RawKind::Let => token == RawToken::Let,
        RawKind::LeftParen => token == RawToken::LeftParen,
        RawKind::RightParen => token == RawToken::RightParen,
        RawKind::Period => token == RawToken::Period,
        RawKind::Semicolon => token == RawToken::Semicolon,
        RawKind::Colon => token == RawToken::Colon,
        RawKind::Equal => token == RawToken::Equal,
        RawKind::Error => token == RawToken::Error,
        RawKind::Skip => false,
    }
}

/// The tokens of `s` from position `i` on, with their spans, skipping
/// whitespace.
pub open spec fn raw_tokens(s: Seq<char>, i: int) -> Seq<(RawKind, Span)>
    decreases s.len() - i,
{
    if i < 0 || i >= s.len() {
        Seq::empty()
    } else {
        let (kind, n) = raw_at(s, i);
        if n == 0 || i + n > s.len() {
            Seq::empty()
        } else if kind == RawKind::Skip {
            raw_tokens(s, i + n)
        } else {
            seq![(kind, Span::spec_new(i as usize, (i + n) as usize))] + raw_tokens(s, i + n)
        }
    }
}

/// The characters `chars[from..to]` as a string.
pub fn slice_string(chars: &Vec<char>, from: usize, to: usize) -> (s: String)
    requires
        from <= to <= chars.len(),
    ensures
        s@ == chars@.subrange(from as int, to as int),
{
    let mut s = String::new();
    let mut i = from;
    while i < to
        invariant
            from <= i <= to <= chars.len(),
            s@ == chars@.subrange(from as int, i as int),
        decreases to - i,
    {
        push_char(&mut s, chars[i]);
        i += 1;
        assert(s@ =~= chars@.subrange(from as int, i as int));
    }
    s
}

/// The position just after the run of characters of `class` that starts at
/// `i`.
pub fn scan(chars: &Vec<char>, i: usize, class: Class) -> (j: usize)
    requires
        i <= chars.len(),
    ensures
        j == i + run_len(chars@, i as int, class),
        j <= chars.len(),
{
    let mut j = i;
    while j < chars.len() && class_contains(class, chars[j])
        invariant
            i <= j <= chars.len(),
            run_len(chars@, i as int, class) == (j - i) + run_len(chars@, j as int, class),
        decreases chars.len() - j,
    {
        j += 1;
    }
    j
}

proof fn lemma_run_len_bound(s: Seq<char>, i: int, class: Class)
    requires
        0 <= i <= s.len(),
    ensures
        i + run_len(s, i, class) <= s.len(),
    decreases s.len() - i,
{
    if i < s.len() && in_class(class, s[i]) {
        lemma_run_len_bound(s, i + 1, class);
    }
}

/// The length of the number of `class` (decimal or binary) at `i`.
fn lex_number(chars: &Vec<char>, i: usize, class: Class) -> (n: usize)
    requires
        i < chars.len(),
        class == Class::Decimal || class == Class::Binary,
    ensures
        n == number_len(chars@, i as int, class),
        i + n <= chars.len(),
{
    let s = Ghost(chars@);
    proof {
        lemma_run_len_bound(chars@, i + 1, class);
    }
    let j = scan(chars, i + 1, class);
    let is_digit = |c: char| -> (r: bool)
        ensures
            r == is_radix_digit(class, c),
        {
            match class {
                Class::Binary => c == '0' || c == '1',
                _ => '0' <= c && c <= '9',
            }
        };
    let k = if j < chars.len() && chars[j] == '.' && j + 1 < chars.len() && is_digit(chars[j + 1]) {
        scan(chars, j + 2, class)
    } else {
        j
    };
    let end = if k < chars.len() && (chars[k] == 'e' || chars[k] == 'E') {
        if k + 1 < chars.len() && (chars[k + 1] == '+' || chars[k + 1] == '-') && k + 2
            < chars.len() && is_digit(chars[k + 2]) {
            scan(chars, k + 3, class)
        } else if k + 1 < chars.len() && is_digit(chars[k + 1]) {
            scan(chars, k + 2, class)
        } else {
            k
        }
    } else {
        k
    };
    end - i
}

/// The number of characters after `0x?` that belong to a hexadecimal number
/// starting at `i`, read by the state machine of [`hex_len`].
fn lex_hex_number(chars: &Vec<char>, i: usize) -> (n: usize)
    requires
        i <= chars.len(),
    ensures
        n == hex_len(chars@, i as int, HexState::Part(Part::Integer)),
        i + n <= chars.len(),
{
    let mut n: usize = 0;
    let mut state = HexState::Part(Part::Integer);
    let mut j = i;
    // `n` counts the characters accepted so far; the characters between
    // `i + n` and `j` are pending in `state`.
    loop
        invariant_except_break
            i + n <= j,
            j - (i + n) == match state {
                HexState::E(_) | HexState::Dot => 1int,
                HexState::PlusMinus => 2,
                _ => 0,
            },
            hex_len(chars@, i as int, HexState::Part(Part::Integer)) == n + hex_len(
                chars@,
                j as int,
                state,
            ),
        invariant
            i <= j <= chars.len(),
        ensures
            n == hex_len(chars@, i as int, HexState::Part(Part::Integer)),
            i + n <= chars.len(),
        decreases chars.len() - j,
    {
        if j >= chars.len() {
            match state {
                HexState::E(_) | HexState::PlusMinus => {
                    n += 1;
                },
                _ => {},
            }
            break;
        }
        let c = chars[j];
        let hex = ('0' <= c && c <= '9') || ('a' <= c && c <= 'f') || ('A' <= c && c <= 'F');
        let hex_sep = hex || c == '_' || c == '\'';
        match state {
            HexState::E(previous) => {
                if c == '+' || c == '-' {
                    state = HexState::PlusMinus;
                } else if hex_sep {
                    n += 2;
                    state = HexState::Part(previous);
                } else {
                    n += 1;
                    break;
                }
            },
            HexState::PlusMinus => {
                if hex {
                    n += 3;
                    state = HexState::ExponentPart;
                } else {
                    n += 1;
                    break;
                }
            },
            HexState::Part(part) => {
                if c == 'e' || c == 'E' {
                    state = HexState::E(part);
                } else if hex_sep {
                    n += 1;
                } else if part == Part::Integer && c == '.' {
                    state = HexState::Dot;
                } else {
                    break;
                }
            },
            HexState::ExponentPart => {
                if hex_sep {
                    n += 1;
                } else {
                    break;
                }
            },
            HexState::Dot => {
                if hex {
                    n += 2;
                    state = HexState::Part(Part::Decimal);
                } else {
                    break;
                }
            },
        }
        j += 1;
    }
    n
}

/// The number of characters after the opener that belong to a block comment
/// of kind `kind` starting at `i`.
fn lex_block_comment(chars: &Vec<char>, i: usize, kind: Block) -> (n: usize)
    requires
        i <= chars.len(),
    ensures
        n == block_len(chars@, i as int, kind, 0),
        i + n <= chars.len(),
{
    let mut n: usize = 0;
    let mut plusses: usize = 0;
    loop
        invariant_except_break
            plusses <= 2,
            block_len(chars@, i as int, kind, 0) == n + block_len(
                chars@,
                (i + n) as int,
                kind,
                plusses as nat,
            ),
        invariant
            i + n <= chars.len(),
        ensures
            n == block_len(chars@, i as int, kind, 0),
        decreases chars.len() - (i + n),
    {
        if i + n >= chars.len() {
            break;
        }
        let c = chars[i + n];
        n += 1;
        match kind {
            Block::Doc => {
                if plusses == 2 && c == '-' {
                    break;
                } else if plusses < 2 && c == '+' {
                    plusses += 1;
                } else {
                    plusses = 0;
                }
            },
            Block::Normal => {
                if plusses == 1 && c == '-' {
                    break;
                } else if plusses == 0 && c == '+' {
                    plusses += 1;
                } else {
                    plusses = 0;
                }
            },
        }
    }
    n
}

/// The number of characters after the opening quote that belong to a string
/// starting at `i`, if it is terminated.
fn lex_string(chars: &Vec<char>, i: usize) -> (n: Option<usize>)
    requires
        i <= chars.len(),
    ensures
        match n {
            Some(n) => string_len(chars@, i as int) == Some(n as nat) && i + n <= chars.len(),
            None => string_len(chars@, i as int) is None,
        },
{
    let mut j = i;
    loop
        invariant
            i <= j <= chars.len(),
            string_len(chars@, i as int) == match string_len(chars@, j as int) {
                Some(m) => Some((m + (j - i)) as nat),
                None => None::<nat>,
            },
        decreases chars.len() - j,
    {
        if j >= chars.len() {
            return None;
        }
        let c = chars[j];
        if c == '"' || c == '\n' {
            return Some(j + 1 - i);
        } else if c == '\\' {
            if j + 1 < chars.len() && chars[j + 1] != '\n' {
                j += 2;
            } else {
                return None;
            }
        } else {
            j += 1;
        }
    }
}

/// Is `word` (the characters `chars[from..to]`) equal to `keyword`?
fn word_is(chars: &Vec<char>, from: usize, to: usize, keyword: &str) -> (r: bool)
    requires
        from <= to <= chars.len(),
    ensures
        r == (chars@.subrange(from as int, to as int) == keyword@),
{
    let len = keyword.unicode_len();
    if to - from != len {
        assert(chars@.subrange(from as int, to as int).len() != keyword@.len());
        return false;
    }
    let mut k: usize = 0;
    while k < len
        invariant
            len == keyword@.len(),
            to - from == len,
            from <= to <= chars.len(),
            k <= len,
            forall|m: int| 0 <= m < k ==> chars@[from + m] == keyword@[m],
        decreases len - k,
    {
        if chars[from + k] != keyword.get_char(k) {
            assert(chars@.subrange(from as int, to as int)[k as int] != keyword@[k as int]);
            return false;
        }
        k += 1;
    }
    assert(chars@.subrange(from as int, to as int) =~= keyword@);
    true
}

/// The kind and length of the token starting at position `i`.
#[verifier::spinoff_prover]
#[verifier::rlimit(40)]
pub fn lex_at(chars: &Vec<char>, i: usize) -> (r: (RawKind, usize))
    requires
        i < chars.len(),
    ensures
        (r.0, r.1 as nat) == raw_at(chars@, i as int),
        i + r.1 <= chars.len(),
        r.1 >= 1,
{
    let s = Ghost(chars@);
    let c = chars[i];
    proof {
        lemma_run_len_bound(chars@, i as int, Class::Lines);
        lemma_run_len_bound(chars@, i as int, Class::Blank);
        lemma_run_len_bound(chars@, i as int, Class::LineRest);
    }
    if c == '\n' {
        let j = scan(chars, i, Class::Lines);
        (RawKind::Newline, j - i)
    } else if c == ' ' || c == '\r' || c == '\t' || c == '\x0b' || c == '\x0c' {
        let j = scan(chars, i, Class::Blank);
        (RawKind::Skip, j - i)
    } else if c == '"' {
        match lex_string(chars, i + 1) {
            Some(n) => (RawKind::String, n + 1),
            None => (RawKind::Error, 1),
        }
    } else if '0' <= c && c <= '9' {
        if c == '0' && i + 1 < chars.len() && chars[i + 1] == 'x' && i + 2 < chars.len() && (('0' <= chars[i + 2]
            && chars[i + 2] <= '9') || ('a' <= chars[i + 2] && chars[i + 2] <= 'f') || ('A'
            <= chars[i + 2] && chars[i + 2] <= 'F')) {
            let n = lex_hex_number(chars, i + 3);
            (RawKind::Number, 3 + n)
        } else if c == '0' && i + 1 < chars.len() && chars[i + 1] == 'b' && i + 2 < chars.len() && (chars[i + 2] == '0'
            || chars[i + 2] == '1') {
            let n = lex_number(chars, i + 2, Class::Binary);
            (RawKind::Number, 2 + n)
        } else {
            let n = lex_number(chars, i, Class::Decimal);
            (RawKind::Number, n)
        }
    } else if c == '-' {
        if i + 1 < chars.len() && chars[i + 1] == '-' {
            let j = scan(chars, i, Class::LineRest);
            if i + 2 < chars.len() && chars[i + 2] == '-' {
                (RawKind::DocComment, j - i)
            } else {
                (RawKind::Comment, j - i)
            }
        } else if i + 1 < chars.len() && chars[i + 1] == '+' {
            if i + 2 < chars.len() && chars[i + 2] == '+' {
                let n = lex_block_comment(chars, i + 3, Block::Doc);
                (RawKind::DocComment, 3 + n)
            } else {
                let n = lex_block_comment(chars, i + 2, Block::Normal);
                (RawKind::Comment, 2 + n)
            }
        } else {
            (RawKind::Error, 1)
        }
    } else if is_xid_start(c) {
        proof {
            lemma_run_len_bound(chars@, i + 1, Class::NameRest);
        }
        let j = scan(chars, i + 1, Class::NameRest);
        proof {
            reveal_strlit("fun");
            reveal_strlit("import");
            reveal_strlit("let");
            assert("fun"@ =~= seq!['f', 'u', 'n']);
            assert("import"@ =~= seq!['i', 'm', 'p', 'o', 'r', 't']);
            assert("let"@ =~= seq!['l', 'e', 't']);
        }
        if word_is(chars, i, j, "fun") {
            (RawKind::Fun, j - i)
        } else if word_is(chars, i, j, "import") {
            (RawKind::Import, j - i)
        } else if word_is(chars, i, j, "let") {
            (RawKind::Let, j - i)
        } else {
            (RawKind::Name, j - i)
        }
    } else if c == '(' {
        (RawKind::LeftParen, 1)
    } else if c == ')' {
        (RawKind::RightParen, 1)
    } else if c == '.' {
        (RawKind::Period, 1)
    } else if c == ';' {
        (RawKind::Semicolon, 1)
    } else if c == ':' {
        (RawKind::Colon, 1)
    } else if c == '=' {
        (RawKind::Equal, 1)
    } else {
        (RawKind::Error, 1)
    }
}

/// The number of spaces and tabs after the last newline of `chars[from..to]`.
fn count_indent(chars: &Vec<char>, from: usize, to: usize) -> (n: usize)
    requires
        from <= to <= chars.len(),
    ensures
        n == indent_of(chars@.subrange(from as int, to as int)),
{
    let mut spaces: usize = 0;
    let mut k = from;
    while k < to
        invariant
            from <= k <= to <= chars.len(),
            spaces == indent_of(chars@.subrange(from as int, k as int)),
            spaces <= k - from,
        decreases to - k,
    {
        assert(chars@.subrange(from as int, k + 1).drop_last() =~= chars@.subrange(
            from as int,
            k as int,
        ));
        if chars[k] == '\n' {
            spaces = 0;
        } else {
            spaces += 1;
        }
        k += 1;
    }
    spaces
}

/// A stream of raw tokens over a text.
pub struct RawLexer {
    chars: Vec<char>,
    pos: usize,
}

impl RawLexer {
    /// The text being read.
    pub closed spec fn text(self) -> Seq<char> {
        self.chars@
    }

    /// The tokens not read yet.
    pub closed spec fn rest(self) -> Seq<(RawKind, Span)> {
        raw_tokens(self.chars@, self.pos as int)
    }

    pub closed spec fn wf(self) -> bool {
        self.pos <= self.chars.len()
    }

    /// Start reading the tokens of `chars`.
    pub fn new(chars: Vec<char>) -> (lexer: RawLexer)
        ensures
            lexer.wf(),
            lexer.text() == chars@,
            lexer.rest() == raw_tokens(chars@, 0),
    {
        RawLexer { chars, pos: 0 }
    }

    /// Read the next token and its span, skipping whitespace.
    pub fn next(&mut self) -> (r: Option<(RawToken, Span)>)
        requires
            old(self).wf(),
        ensures
            final(self).wf(),
            final(self).text() == old(self).text(),
            match r {
                None => old(self).rest().len() == 0 && final(self).rest().len() == 0,
                Some((token, span)) => {
                    &&& old(self).rest() == seq![(old(self).rest()[0].0, span)] + final(self).rest()
                    &&& raw_token_is(
                        token,
                        old(self).rest()[0].0,
                        old(self).text().subrange(span.start as int, span.end as int),
                    )
                    &&& span.start < span.end <= old(self).text().len()
                },
            },
    {
        loop
            invariant
                self.pos <= self.chars.len(),
                self.chars@ == old(self).chars@,
                raw_tokens(self.chars@, self.pos as int) == old(self).rest(),
            decreases self.chars.len() - self.pos,
        {
            if self.pos >= self.chars.len() {
                return None;
            }
            let start = self.pos;
            let (kind, n) = lex_at(&self.chars, start);
            let end = start + n;
            self.pos = end;
            let span = Span::new(start, end);
            assert(raw_tokens(self.chars@, start as int) == if kind == RawKind::Skip {
                raw_tokens(self.chars@, end as int)
            } else {
                seq![(kind, span)] + raw_tokens(self.chars@, end as int)
            });
            let token = match kind {
                RawKind::Skip => {
                    continue;
                },
                RawKind::Name => RawToken::Name(slice_string(&self.chars, start, end)),
                RawKind::Number => RawToken::Number(slice_string(&self.chars, start, end)),
                RawKind::String => RawToken::String(slice_string(&self.chars, start, end)),
                RawKind::Comment => RawToken::Comment(slice_string(&self.chars, start, end)),
                RawKind::DocComment => RawToken::DocComment(
                    slice_string(&self.chars, start, end),
                ),
                RawKind::Newline => RawToken::Newline(count_indent(&self.chars, start, end)),
                RawKind::Fun => RawToken::Fun,
                RawKind::Import => RawToken::Import,
                RawKind::Let => RawToken::Let,
                RawKind::LeftParen => RawToken::LeftParen,
                RawKind::RightParen => RawToken::RightParen,
                RawKind::Period => RawToken::Period,
                RawKind::Semicolon => RawToken::Semicolon,
                RawKind::Colon => RawToken::Colon,
                RawKind::Equal => RawToken::Equal,
                RawKind::Error => RawToken::Error,
            };
            return Some((token, span));
        }
    }
}

} // verus!

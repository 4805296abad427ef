//! Diagnostics reported by the passes of the frontend.

use vstd::prelude::*;

use crate::source::Span;
use crate::text::push_char;

verus! {

/// What went wrong.
#[derive(Clone, Debug, PartialEq, Eq)]
pub enum MessageKind {
    /// Expected an expression.
    ExpectedExpression,
    /// Expected an item.
    ExpectedItem,
    /// Expected a name.
    ExpectedName,
    /// Expected a pattern.
    ExpectedPattern,
    /// Expected a type.
    ExpectedType,
    /// When the indentation level decreases, it must match some previously
    /// seen indentation level.
    IndentError { expected: usize, actual: usize },
    /// An unmatched parenthesis was encountered.
    UnclosedParenthesis,
    /// An invalid token was encountered.
    UnexpectedToken,
    /// Bare imports are not yet supported.
    BareImportUnsupported,
    /// A name has already been defined at `previous`.
    DuplicateDefinition { previous: Span },
    /// A name has already been defined as a module.
    DuplicateModuleDefinition,
    /// A name could not be resolved.
    UnresolvedName(String),
    /// A kind would have to contain itself.
    RecursiveKind,
    /// Two kinds that must be equal are not.
    IncompatibleKinds { wanted: String, found: String },
    /// A type was used where a kind was expected.
    NotAKind,
    /// Type declarations take no implicit arguments.
    TypesTakeNoImplicits,
    /// Implicit arguments are not allowed here.
    DisallowedImplicits,
    /// A lambda cannot take implicit arguments.
    GenericLambda,
    /// Expected a pattern.
    NotAPattern,
    /// Expected the name of a type.
    NotATypeName,
    /// The bounds of a range must be numbers.
    RangeNotAnInt,
    /// Expected a type.
    NotAType,
    /// An instance would have to contain itself.
    RecursiveInstance,
    /// Two instances that must be equal are not.
    IncompatibleInstances,
    /// Expected a declaration.
    ExpectedDeclaration,
    /// A group was opened and never closed.
    UnclosedGroup,
    /// A list of implicit arguments was opened and never closed.
    UnclosedImplicits,
    /// Expected a name, a number, a wildcard, `type` or a group.
    ExpectedBaseExpression,
}

/// A diagnostic at some span.
#[derive(Clone, Debug, PartialEq, Eq)]
pub struct Message {
    pub kind: MessageKind,
    pub span: Span,
}

/// Reporting of syntax errors.
pub trait ParseMessages {
    /// Expected an expression.
    fn expected_expression(&mut self, at: Span);

    /// Expected an item.
    fn expected_item(&mut self, at: Span);

    /// Expected a name.
    fn expected_name(&mut self, at: Span);

    /// Expected a pattern.
    fn expected_pattern(&mut self, at: Span);

    /// Expected a type.
    fn expected_type(&mut self, at: Span);

    /// The indentation is not correct.
    fn indent_error(&mut self, at: Span, expected: usize, actual: usize);

    /// An unmatched parenthesis was encountered.
    fn unclosed_parenthesis(&mut self, at: Span);

    /// An invalid token was encountered.
    fn unexpected_token(&mut self, at: Span);
}

/// Whether a note explains a message or suggests a fix.
#[derive(Clone, Copy, Debug, PartialEq, Eq, Structural)]
pub enum NoteKind {
    Note,
    Help,
}

/// The digit `d`, below ten.
pub open spec fn digit(d: nat) -> char {
    if d == 0 { '0' } else if d == 1 { '1' } else if d == 2 { '2' } else if d == 3 { '3' }
    else if d == 4 { '4' } else if d == 5 { '5' } else if d == 6 { '6' } else if d == 7 { '7' }
    else if d == 8 { '8' } else { '9' }
}

/// `n` written in decimal.
pub open spec fn decimal(n: nat) -> Seq<char>
    decreases n,
{
    if n < 10 {
        seq![digit(n)]
    } else {
        decimal(n / 10).push(digit(n % 10))
    }
}

fn digit_char(d: usize) -> (c: char)
    requires
        d < 10,
    ensures
        c == digit(d as nat),
{
    if d == 0 { '0' } else if d == 1 { '1' } else if d == 2 { '2' } else if d == 3 { '3' }
    else if d == 4 { '4' } else if d == 5 { '5' } else if d == 6 { '6' } else if d == 7 { '7' }
    else if d == 8 { '8' } else { '9' }
}

/// `n` written in decimal.
pub fn decimal_string(n: usize) -> (s: String)
    ensures
        s@ == decimal(n as nat),
    decreases n,
{
    if n < 10 {
        let mut s = String::new();
        push_char(&mut s, digit_char(n));
        assert(s@ =~= seq![digit(n as nat)]);
        s
    } else {
        let mut s = decimal_string(n / 10);
        push_char(&mut s, digit_char(n % 10));
        s
    }
}

/// How many spaces too many an indentation error has.
pub open spec fn excess(expected: usize, actual: usize) -> nat {
    if actual >= expected {
        (actual - expected) as nat
    } else {
        0
    }
}

/// The title of a message of kind `kind`.
pub open spec fn title_of(kind: MessageKind) -> Seq<char> {
    match kind {
        MessageKind::ExpectedExpression => "expected an expression"@,
        MessageKind::ExpectedItem => "expected an item"@,
        MessageKind::ExpectedName => "expected a name"@,
        MessageKind::ExpectedPattern => "expected a pattern"@,
        MessageKind::ExpectedType => "expected a type"@,
        MessageKind::IndentError { .. } => "indentation is not correct"@,
        MessageKind::UnclosedParenthesis => "unclosed parenthesis"@,
        MessageKind::UnexpectedToken => "unexpected token"@,
        MessageKind::BareImportUnsupported => "bare imports are currently unsupported"@,
        MessageKind::DuplicateDefinition { .. } => "this name is defined multiple times"@,
        MessageKind::DuplicateModuleDefinition => "this name is already defined as a module"@,
        MessageKind::UnresolvedName(name) => "no item named "@ + name@,
        MessageKind::RecursiveKind => "recursive kind"@,
        MessageKind::IncompatibleKinds { wanted, found } => "incompatible kinds: expected "@
            + wanted@ + ", found "@ + found@,
        MessageKind::NotAKind => "expected a kind"@,
        MessageKind::TypesTakeNoImplicits => "type declarations take no implicit arguments"@,
        MessageKind::DisallowedImplicits => "implicit arguments are not allowed here"@,
        MessageKind::GenericLambda => "a lambda cannot take implicit arguments"@,
        MessageKind::NotAPattern => "expected a pattern"@,
        MessageKind::NotATypeName => "expected the name of a type"@,
        MessageKind::RangeNotAnInt => "the bounds of a range must be numbers"@,
        MessageKind::NotAType => "expected a type"@,
        MessageKind::RecursiveInstance => "recursive trait instance"@,
        MessageKind::IncompatibleInstances => "incompatible trait instances"@,
        MessageKind::ExpectedDeclaration => "expected a declaration"@,
        MessageKind::UnclosedGroup => "unclosed group"@,
        MessageKind::UnclosedImplicits => "unclosed implicit arguments"@,
        MessageKind::ExpectedBaseExpression => "expected a name, a number, a wildcard, a type or a group"@,
    }
}

/// The notes of a message of kind `kind`, in order.
pub open spec fn notes_of(kind: MessageKind) -> Seq<(NoteKind, Seq<char>)> {
    match kind {
        MessageKind::IndentError { expected, actual } => {
            let n = excess(expected, actual);
            seq![
                (NoteKind::Note, "when the indentation level decreases, it must match some previously seen indentation level"@),
                (NoteKind::Help, "try removing "@ + decimal(n) + if n == 1 { " space"@ } else { " spaces"@ }),
            ]
        },
        MessageKind::BareImportUnsupported => seq![
            (NoteKind::Note, "an import must have some item name to import from"@),
        ],
        MessageKind::DuplicateDefinition { .. } => seq![(NoteKind::Note, "previous definition here"@)],
        MessageKind::IncompatibleInstances => seq![
            (NoteKind::Note, "although these appear to have the same trait type, they are actually different concrete types"@),
        ],
        _ => Seq::empty(),
    }
}

/// A note of kind `kind` with the text `text`.
fn note(kind: NoteKind, text: &str) -> (r: (NoteKind, String))
    ensures
        r.0 == kind,
        r.1@ == text@,
{
    (kind, String::from_str(text))
}

impl Message {
    /// The title of this message.
    pub fn title(&self) -> (title: String)
        ensures
            title@ == title_of(self.kind),
    {
        match &self.kind {
            MessageKind::ExpectedExpression => String::from_str("expected an expression"),
            MessageKind::ExpectedItem => String::from_str("expected an item"),
            MessageKind::ExpectedName => String::from_str("expected a name"),
            MessageKind::ExpectedPattern => String::from_str("expected a pattern"),
            MessageKind::ExpectedType => String::from_str("expected a type"),
            MessageKind::IndentError { .. } => String::from_str("indentation is not correct"),
            MessageKind::UnclosedParenthesis => String::from_str("unclosed parenthesis"),
            MessageKind::UnexpectedToken => String::from_str("unexpected token"),
            MessageKind::BareImportUnsupported => String::from_str("bare imports are currently unsupported"),
            MessageKind::DuplicateDefinition { .. } => String::from_str("this name is defined multiple times"),
            MessageKind::DuplicateModuleDefinition => String::from_str("this name is already defined as a module"),
            MessageKind::UnresolvedName(name) => String::from_str("no item named ").concat(name.as_str()),
            MessageKind::RecursiveKind => String::from_str("recursive kind"),
            MessageKind::IncompatibleKinds { wanted, found } => String::from_str(
                "incompatible kinds: expected ",
            ).concat(wanted.as_str()).concat(", found ").concat(found.as_str()),
            MessageKind::NotAKind => String::from_str("expected a kind"),
            MessageKind::TypesTakeNoImplicits => String::from_str("type declarations take no implicit arguments"),
            MessageKind::DisallowedImplicits => String::from_str("implicit arguments are not allowed here"),
            MessageKind::GenericLambda => String::from_str("a lambda cannot take implicit arguments"),
            MessageKind::NotAPattern => String::from_str("expected a pattern"),
            MessageKind::NotATypeName => String::from_str("expected the name of a type"),
            MessageKind::RangeNotAnInt => String::from_str("the bounds of a range must be numbers"),
            MessageKind::NotAType => String::from_str("expected a type"),
            MessageKind::RecursiveInstance => String::from_str("recursive trait instance"),
            MessageKind::IncompatibleInstances => String::from_str("incompatible trait instances"),
            MessageKind::ExpectedDeclaration => String::from_str("expected a declaration"),
            MessageKind::UnclosedGroup => String::from_str("unclosed group"),
            MessageKind::UnclosedImplicits => String::from_str("unclosed implicit arguments"),
            MessageKind::ExpectedBaseExpression => String::from_str("expected a name, a number, a wildcard, a type or a group"),
        }
    }

    /// The notes of this message, in order.
    pub fn notes(&self) -> (notes: Vec<(NoteKind, String)>)
        ensures
            notes@.len() == notes_of(self.kind).len(),
            forall|i: int|
                0 <= i < notes@.len() ==> (#[trigger] notes@[i]).0 == notes_of(self.kind)[i].0
                    && notes@[i].1@ == notes_of(self.kind)[i].1,
    {
        let mut notes = Vec::new();
        match &self.kind {
            MessageKind::IndentError { expected, actual } => {
                let n = if *actual >= *expected { *actual - *expected } else { 0 };
                notes.push(note(
                    NoteKind::Note,
                    "when the indentation level decreases, it must match some previously seen indentation level",
                ));
                let help = String::from_str("try removing ").concat(decimal_string(n).as_str()).concat(
                    if n == 1 { " space" } else { " spaces" },
                );
                notes.push((NoteKind::Help, help));
            },
            MessageKind::BareImportUnsupported => {
                notes.push(note(NoteKind::Note, "an import must have some item name to import from"));
            },
            MessageKind::DuplicateDefinition { .. } => {
                notes.push(note(NoteKind::Note, "previous definition here"));
            },
            MessageKind::IncompatibleInstances => {
                notes.push(note(
                    NoteKind::Note,
                    "although these appear to have the same trait type, they are actually different concrete types",
                ));
            },
            _ => {},
        }
        notes
    }
}

/// The message of kind `kind` at `span`.
pub open spec fn msg(kind: MessageKind, span: Span) -> Message {
    Message { kind, span }
}

impl ParseMessages for Vec<Message> {
    fn expected_expression(&mut self, at: Span)
        ensures
            final(self)@ == old(self)@.push(msg(MessageKind::ExpectedExpression, at)),
    {
        self.push(Message { kind: MessageKind::ExpectedExpression, span: at });
    }

    fn expected_item(&mut self, at: Span)
        ensures
            final(self)@ == old(self)@.push(msg(MessageKind::ExpectedItem, at)),
    {
        self.push(Message { kind: MessageKind::ExpectedItem, span: at });
    }

    fn expected_name(&mut self, at: Span)
        ensures
            final(self)@ == old(self)@.push(msg(MessageKind::ExpectedName, at)),
    {
        self.push(Message { kind: MessageKind::ExpectedName, span: at });
    }

    fn expected_pattern(&mut self, at: Span)
        ensures
            final(self)@ == old(self)@.push(msg(MessageKind::ExpectedPattern, at)),
    {
        self.push(Message { kind: MessageKind::ExpectedPattern, span: at });
    }

    fn expected_type(&mut self, at: Span)
        ensures
            final(self)@ == old(self)@.push(msg(MessageKind::ExpectedType, at)),
    {
        self.push(Message { kind: MessageKind::ExpectedType, span: at });
    }

    fn indent_error(&mut self, at: Span, expected: usize, actual: usize)
        ensures
            final(self)@ == old(self)@.push(
                msg(MessageKind::IndentError { expected, actual }, at),
            ),
    {
        self.push(Message { kind: MessageKind::IndentError { expected, actual }, span: at });
    }

    fn unclosed_parenthesis(&mut self, at: Span)
        ensures
            final(self)@ == old(self)@.push(msg(MessageKind::UnclosedParenthesis, at)),
    {
        self.push(Message { kind: MessageKind::UnclosedParenthesis, span: at });
    }

    fn unexpected_token(&mut self, at: Span)
        ensures
            final(self)@ == old(self)@.push(msg(MessageKind::UnexpectedToken, at)),
    {
        self.push(Message { kind: MessageKind::UnexpectedToken, span: at });
    }
}

} // verus!

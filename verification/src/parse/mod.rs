//! The declaration parser: a recursive descent over tokens that builds the
//! tree of `tree`, which `unconcretify` then turns into declarations.

pub mod decl;
pub mod expr;
pub mod grammar;
pub mod tree;
pub mod unconcretify;

use vstd::prelude::*;

use crate::messages::{msg, Message, MessageKind};
use crate::source::Span;

use self::grammar::{qadv, qimplicit, qlast, qnext, qreport, QState};

verus! {

/// A token of the declaration language.
#[derive(Debug)]
pub enum Token {
    Name(String),
    Number(u64),
    /// `?`, a wildcard.
    Question,
    Type,
    Fun,
    Let,
    GroupOpen,
    GroupClose,
    /// `;`
    Delimit,
    Pipe,
    Colon,
    Equal,
    /// `=>`
    EqArrow,
    Comma,
    /// `->`
    MinArrow,
    Upto,
    Star,
    Invalid,
}

/// The kind of a token: what is compared when looking for one, whatever
/// name or number it holds.
pub open spec fn kind(token: Token) -> u8 {
    match token {
        Token::Name(_) => 0,
        Token::Number(_) => 1,
        Token::Question => 2,
        Token::Type => 3,
        Token::Fun => 4,
        Token::Let => 5,
        Token::GroupOpen => 6,
        Token::GroupClose => 7,
        Token::Delimit => 8,
        Token::Pipe => 9,
        Token::Colon => 10,
        Token::Equal => 11,
        Token::EqArrow => 12,
        Token::Comma => 13,
        Token::MinArrow => 14,
        Token::Upto => 15,
        Token::Star => 16,
        Token::Invalid => 17,
    }
}

/// The kinds of the tokens, as `kind` numbers them.
pub const NAME: u8 = 0;
pub const NUMBER: u8 = 1;
pub const QUESTION: u8 = 2;
pub const TYPE: u8 = 3;
pub const FUN: u8 = 4;
pub const LET: u8 = 5;
pub const GROUP_OPEN: u8 = 6;
pub const GROUP_CLOSE: u8 = 7;
pub const DELIMIT: u8 = 8;
pub const PIPE: u8 = 9;
pub const COLON: u8 = 10;
pub const EQUAL: u8 = 11;
pub const EQ_ARROW: u8 = 12;
pub const COMMA: u8 = 13;
pub const MIN_ARROW: u8 = 14;
pub const UPTO: u8 = 15;
pub const STAR: u8 = 16;

/// The kind of `token`.
pub fn kind_of(token: &Token) -> (k: u8)
    ensures
        k == kind(*token),
{
    match token {
        Token::Name(_) => 0,
        Token::Number(_) => 1,
        Token::Question => 2,
        Token::Type => 3,
        Token::Fun => 4,
        Token::Let => 5,
        Token::GroupOpen => 6,
        Token::GroupClose => 7,
        Token::Delimit => 8,
        Token::Pipe => 9,
        Token::Colon => 10,
        Token::Equal => 11,
        Token::EqArrow => 12,
        Token::Comma => 13,
        Token::MinArrow => 14,
        Token::Upto => 15,
        Token::Star => 16,
        Token::Invalid => 17,
    }
}

/// Whether a token of kind `k` may start a declaration.
pub open spec fn starts_decl(k: u8) -> bool {
    k == GROUP_OPEN || k == FUN || k == LET
}

/// Whether a token of kind `k` may start a base expression. An invalid
/// token does not, so that an application stops at it.
pub open spec fn starts_base_expr(k: u8) -> bool {
    k == NAME || k == NUMBER || k == QUESTION || k == GROUP_OPEN || k == TYPE
}

/// Whether a token of kind `k` may start an operator name.
pub open spec fn starts_op_name(k: u8) -> bool {
    k == MIN_ARROW || k == UPTO || k == STAR
}

/// The state of the declaration parser: the tokens left, the span of the
/// last one consumed, and the messages reported.
pub struct Parser {
    /// The tokens not yet consumed, the next one last.
    rest: Vec<(Token, Span)>,
    /// The span of the token consumed last.
    prev: Option<Span>,
    msgs: Vec<Message>,
    default_span: Span,
    /// Whether the parser is within a list of implicit arguments, where a
    /// `|` closes the list.
    in_implicit: bool,
}

impl Parser {
    /// The tokens not yet consumed, in order.
    pub closed spec fn remaining(self) -> Seq<(Token, Span)> {
        Seq::new(self.rest@.len(), |i: int| self.rest@[self.rest@.len() - 1 - i])
    }

    /// The messages reported so far.
    pub closed spec fn messages(self) -> Seq<Message> {
        self.msgs@
    }

    /// The span of the token consumed last.
    pub closed spec fn previous(self) -> Option<Span> {
        self.prev
    }

    /// Whether the parser is within a list of implicit arguments.
    pub closed spec fn implicit(self) -> bool {
        self.in_implicit
    }

    /// The span used where no token gives one.
    pub closed spec fn fallback(self) -> Span {
        self.default_span
    }

    /// The state of the parse.
    pub open spec fn qstate(self) -> QState {
        QState {
            rem: self.remaining(),
            prev: self.previous(),
            msgs: self.messages(),
            fallback: self.fallback(),
            implicit: self.implicit(),
        }
    }

    /// The kind of the next token, if there is one.
    pub open spec fn next_is(self, k: u8) -> bool {
        self.remaining().len() > 0 && kind(self.remaining()[0].0) == k
    }

    /// The span of the token consumed last, else the fallback.
    pub open spec fn spec_last_span(self) -> Span {
        match self.previous() {
            Some(span) => span,
            None => self.fallback(),
        }
    }

    /// What holds of the parser after any step from `before` to `after`:
    /// some tokens were consumed from the front and messages were only
    /// added.
    pub open spec fn stepped(before: Parser, after: Parser) -> bool {
        &&& after.remaining().len() <= before.remaining().len()
        &&& after.remaining() == before.remaining().subrange(
            before.remaining().len() - after.remaining().len(),
            before.remaining().len() as int,
        )
        &&& before.messages().is_prefix_of(after.messages())
        &&& after.fallback() == before.fallback()
    }

    /// What holds after a whole production from `before` to `after`: it
    /// stepped, consumed a token if there was one, and left the parser
    /// within implicit arguments as it was.
    pub open spec fn progressed(before: Parser, after: Parser) -> bool {
        &&& Parser::stepped(before, after)
        &&& before.remaining().len() > 0 ==> after.remaining().len() < before.remaining().len()
        &&& after.implicit() == before.implicit()
    }

    pub proof fn lemma_stepped_trans(a: Parser, b: Parser, c: Parser)
        requires
            Parser::stepped(a, b),
            Parser::stepped(b, c),
        ensures
            Parser::stepped(a, c),
    {
        let (la, lb, lc) = (a.remaining().len(), b.remaining().len(), c.remaining().len());
        assert(c.remaining() =~= a.remaining().subrange(la - lc, la as int)) by {
            assert forall|i: int| 0 <= i < lc implies c.remaining()[i] == a.remaining()[la - lc + i] by {
                assert(c.remaining()[i] == b.remaining()[lb - lc + i]);
                assert(b.remaining()[lb - lc + i] == a.remaining()[la - lb + (lb - lc + i)]);
            }
        }
    }

    pub proof fn lemma_stepped_refl(a: Parser)
        ensures
            Parser::stepped(a, a),
    {
        assert(a.remaining() =~= a.remaining().subrange(0, a.remaining().len() as int));
        assert(a.messages().is_prefix_of(a.messages()));
    }

    /// Start parsing `tokens`, each with its span.
    pub fn new(tokens: Vec<(Token, Span)>) -> (parser: Parser)
        ensures
            parser.remaining() == tokens@,
            parser.messages().len() == 0,
            parser.previous() is None,
            !parser.implicit(),
            parser.fallback() == Span::spec_new(0, 0),
    {
        let mut tokens = tokens;
        let ghost original = tokens@;
        let mut rest: Vec<(Token, Span)> = Vec::new();
        while tokens.len() > 0
            invariant
                original.len() == tokens@.len() + rest@.len(),
                forall|i: int| 0 <= i < tokens@.len() ==> #[trigger] tokens@[i] == original[i],
                forall|i: int|
                    0 <= i < rest@.len() ==> #[trigger] rest@[i] == original[original.len() - 1
                        - i],
            decreases tokens@.len(),
        {
            let token = tokens.pop().unwrap();
            rest.push(token);
        }
        let parser = Parser {
            rest,
            prev: None,
            msgs: Vec::new(),
            default_span: Span::new(0, 0),
            in_implicit: false,
        };
        assert(parser.remaining() =~= original);
        parser
    }

    /// Take the messages reported so far.
    pub fn take_messages(&mut self) -> (messages: Vec<Message>)
        ensures
            messages@ == old(self).messages(),
            final(self).messages().len() == 0,
            final(self).remaining() == old(self).remaining(),
    {
        let mut messages = Vec::new();
        std::mem::swap(&mut messages, &mut self.msgs);
        messages
    }

    /// Whether every token has been consumed.
    fn is_done(&self) -> (done: bool)
        ensures
            done == (self.remaining().len() == 0),
    {
        self.rest.len() == 0
    }

    /// Consume the next token, if there is one.
    fn advance(&mut self) -> (token: Option<(Token, Span)>)
        ensures
            final(self).qstate() == qadv(old(self).qstate()),
            old(self).remaining().len() > 0 ==> token == Some(old(self).remaining()[0])
                && final(self).remaining() == old(self).remaining().drop_first()
                && final(self).previous() == Some(old(self).remaining()[0].1),
            old(self).remaining().len() == 0 ==> token is None && final(self).remaining()
                == old(self).remaining() && final(self).previous() == old(self).previous(),
            final(self).messages() == old(self).messages(),
            final(self).implicit() == old(self).implicit(),
            final(self).fallback() == old(self).fallback(),
            Parser::stepped(*old(self), *final(self)),
    {
        let token = self.rest.pop();
        if let Some((_, span)) = &token {
            self.prev = Some(*span);
        }
        proof {
            let len = old(self).remaining().len();
            if old(self).rest@.len() > 0 {
                assert(self.remaining() =~= old(self).remaining().drop_first());
                assert(self.remaining() =~= old(self).remaining().subrange(1, len as int));
                assert(len - self.remaining().len() == 1);
            } else {
                assert(self.remaining() =~= old(self).remaining());
                assert(self.remaining() =~= old(self).remaining().subrange(0, 0));
            }
            assert(old(self).messages().is_prefix_of(self.messages()));
        }
        token
    }

    /// Whether the next token is of kind `k`.
    fn peek(&self, k: u8) -> (r: bool)
        ensures
            r == self.next_is(k),
    {
        if self.rest.len() == 0 {
            false
        } else {
            kind_of(&self.rest[self.rest.len() - 1].0) == k
        }
    }

    /// Whether the next token may start a declaration.
    fn peek_decl_start(&self) -> (r: bool)
        ensures
            r == (self.remaining().len() > 0 && starts_decl(kind(self.remaining()[0].0))),
    {
        self.peek(GROUP_OPEN) || self.peek(FUN) || self.peek(LET)
    }

    /// Whether the next token may start a base expression.
    fn peek_base_start(&self) -> (r: bool)
        ensures
            r == (self.remaining().len() > 0 && starts_base_expr(kind(self.remaining()[0].0))),
    {
        self.peek(NAME) || self.peek(NUMBER) || self.peek(QUESTION) || self.peek(GROUP_OPEN)
            || self.peek(TYPE)
    }

    /// Whether the next token may start an operator name.
    fn peek_op_start(&self) -> (r: bool)
        ensures
            r == (self.remaining().len() > 0 && starts_op_name(kind(self.remaining()[0].0))),
    {
        self.peek(MIN_ARROW) || self.peek(UPTO) || self.peek(STAR)
    }

    /// Consume the next token if it is of kind `k`, giving its span.
    fn matches(&mut self, k: u8) -> (span: Option<Span>)
        ensures
            final(self).qstate() == if qnext(old(self).qstate(), k) {
                qadv(old(self).qstate())
            } else {
                old(self).qstate()
            },
            old(self).next_is(k) ==> span == Some(old(self).remaining()[0].1)
                && final(self).remaining() == old(self).remaining().drop_first()
                && final(self).previous() == span,
            !old(self).next_is(k) ==> span is None && *final(self) == *old(self),
            final(self).messages() == old(self).messages(),
            final(self).implicit() == old(self).implicit(),
            Parser::stepped(*old(self), *final(self)),
    {
        if self.peek(k) {
            let token = self.advance();
            match token {
                Some((_, span)) => Some(span),
                None => None,
            }
        } else {
            proof {
                Parser::lemma_stepped_refl(*self);
            }
            None
        }
    }

    /// Consume the next token if it is of kind `k`.
    fn consume(&mut self, k: u8) -> (consumed: bool)
        ensures
            final(self).qstate() == if qnext(old(self).qstate(), k) {
                qadv(old(self).qstate())
            } else {
                old(self).qstate()
            },
            consumed == old(self).next_is(k),
            consumed ==> final(self).remaining() == old(self).remaining().drop_first()
                && final(self).previous() == Some(old(self).remaining()[0].1),
            !consumed ==> *final(self) == *old(self),
            final(self).messages() == old(self).messages(),
            final(self).implicit() == old(self).implicit(),
            Parser::stepped(*old(self), *final(self)),
    {
        self.matches(k).is_some()
    }

    /// The span of the token consumed last, else the fallback.
    fn last_span(&self) -> (span: Span)
        ensures
            span == qlast(self.qstate()),
            span == self.spec_last_span(),
    {
        match self.prev {
            Some(span) => span,
            None => self.default_span,
        }
    }

    /// Report `kind` at `span`.
    fn report(&mut self, kind: MessageKind, span: Span)
        ensures
            final(self).qstate() == qreport(old(self).qstate(), kind, span),
            final(self).messages() == old(self).messages().push(msg(kind, span)),
            final(self).remaining() == old(self).remaining(),
            final(self).previous() == old(self).previous(),
            final(self).implicit() == old(self).implicit(),
            Parser::stepped(*old(self), *final(self)),
    {
        self.msgs.push(Message { kind, span });
        proof {
            assert(self.remaining() =~= old(self).remaining());
            Parser::lemma_stepped_refl(*old(self));
            assert(old(self).messages().is_prefix_of(self.messages()));
        }
    }

    /// Enter or leave a list of implicit arguments.
    fn set_implicit(&mut self, implicit: bool)
        ensures
            final(self).qstate() == qimplicit(old(self).qstate(), implicit),
            final(self).implicit() == implicit,
            final(self).remaining() == old(self).remaining(),
            final(self).messages() == old(self).messages(),
            final(self).previous() == old(self).previous(),
            Parser::stepped(*old(self), *final(self)),
    {
        self.in_implicit = implicit;
        proof {
            assert(self.remaining() =~= old(self).remaining());
            Parser::lemma_stepped_refl(*old(self));
            assert(old(self).messages().is_prefix_of(self.messages()));
        }
    }
}

} // verus!

//! Tokenization is the process of converting a string of characters into a
//! string of tokens (which are like the "words" of the programming language).
//! Because zippy is whitespace sensitive, the tokenization pass is a little bit
//! more complicated than usual. Specifically, it is a two-pass process where
//! the string is first tokenized into [raw tokens](raw), which are then
//! processed to create the appropriate `Indent`, `Dedent` and `Eol` tokens.
//!
//! The first pass produces a token `Newline(usize)` when it encounters a
//! newline, with the `usize` counting the number of spaces it is immediately
//! followed by. The second pass then uses this information (taking only the
//! last one if several appear in a row) to produce indentation information.
//!
//! - If the indentation level **increases**, a single `Indent` token is
//!   produced, and this new level is remembered in a stack of indentation
//!   levels.
//! - If the indentation level **decreases**, `Dedent` tokens are emitted until
//!   the top of the indentation stack is less than or equal to it; if it is
//!   then less, the indentation did not match a previous level and an error
//!   is reported.
//! - If the indentation level is unchanged or has decreased, an `Eol` token
//!   is emitted after every `Dedent` token.
//! - At the end of the source, `Dedent`s are emitted to clear the indentation
//!   stack.

pub mod raw;
pub mod xid;

use std::collections::VecDeque;
use vstd::prelude::*;

use self::raw::{indent_of, raw_token_is, raw_tokens, RawKind, RawLexer, RawToken};
use crate::messages::{msg, Message, MessageKind, ParseMessages};
use crate::source::Span;
use crate::text::chars_of;

verus! {

/// A token with any preceding comments.
#[derive(Clone, Debug, PartialEq, Eq)]
pub struct Token {
    pub kind: TokenType,
    /// Any preceding (non-doc) comments.
    pub comments: Vec<(String, Span)>,
    /// The span of this token.
    pub span: Span,
}

#[derive(Clone, Debug, PartialEq, Eq)]
pub enum TokenType {
    Indent,
    Dedent,
    Eol,
    Name(String),
    Number(String),
    String(String),
    Fun,
    Import,
    Let,
    Equal,
    LeftParen,
    RightParen,
    Period,
    Semicolon,
    Colon,
    Documentation(String),
}

/// Whether a token only carries layout information.
pub open spec fn is_layout(kind: TokenType) -> bool {
    kind is Indent || kind is Dedent || kind is Eol
}

/// How many more `Indent` than `Dedent` tokens there are in `tokens`.
pub open spec fn balance(tokens: Seq<Token>) -> int
    decreases tokens.len(),
{
    if tokens.len() == 0 {
        0
    } else {
        balance(tokens.drop_last()) + if tokens.last().kind is Indent {
            1int
        } else if tokens.last().kind is Dedent {
            -1int
        } else {
            0int
        }
    }
}

/// No prefix of `tokens` has more `Dedent` than `Indent` tokens.
pub open spec fn nested(tokens: Seq<Token>) -> bool
    decreases tokens.len(),
{
    tokens.len() == 0 || (nested(tokens.drop_last()) && balance(tokens) >= 0)
}

/// The tokens of `tokens` that are not layout tokens.
pub open spec fn layout_free(tokens: Seq<Token>) -> Seq<Token>
    decreases tokens.len(),
{
    if tokens.len() == 0 {
        Seq::empty()
    } else if is_layout(tokens.last().kind) {
        layout_free(tokens.drop_last())
    } else {
        layout_free(tokens.drop_last()).push(tokens.last())
    }
}

/// Whether a raw token becomes a token (rather than being layout, a comment
/// or an error).
pub open spec fn is_significant(kind: RawKind) -> bool {
    !(kind == RawKind::Newline || kind == RawKind::Comment || kind == RawKind::Error
        || kind == RawKind::Skip)
}

/// The raw tokens of `raw` that become tokens.
pub open spec fn significant(raw: Seq<(RawKind, Span)>) -> Seq<(RawKind, Span)>
    decreases raw.len(),
{
    if raw.len() == 0 {
        Seq::empty()
    } else if is_significant(raw.last().0) {
        significant(raw.drop_last()).push(raw.last())
    } else {
        significant(raw.drop_last())
    }
}

/// Whether `token` is what the raw token `raw` of the text `text` becomes.
pub open spec fn token_from_raw(token: Token, raw: (RawKind, Span), text: Seq<char>) -> bool {
    let t = text.subrange(raw.1.start as int, raw.1.end as int);
    &&& token.span == raw.1
    &&& match raw.0 {
        RawKind::Name => token.kind matches TokenType::Name(x) && x@ == t,
        RawKind::Number => token.kind matches TokenType::Number(x) && x@ == t,
        RawKind::String => token.kind matches TokenType::String(x) && x@ == t,
        RawKind::DocComment => token.kind matches TokenType::Documentation(x) && x@ == t,
        RawKind::Fun => token.kind is Fun,
        RawKind::Import => token.kind is Import,
        RawKind::Let => token.kind is Let,
        RawKind::LeftParen => token.kind is LeftParen,
        RawKind::RightParen => token.kind is RightParen,
        RawKind::Period => token.kind is Period,
        RawKind::Semicolon => token.kind is Semicolon,
        RawKind::Colon => token.kind is Colon,
        RawKind::Equal => token.kind is Equal,
        _ => false,
    }
}

/// The tokens `tokens` are, in order, what the raw tokens `raw` of `text`
/// become.
pub open spec fn tokens_from_raw(
    tokens: Seq<Token>,
    raw: Seq<(RawKind, Span)>,
    text: Seq<char>,
) -> bool {
    &&& tokens.len() == raw.len()
    &&& forall|k: int| 0 <= k < tokens.len() ==> token_from_raw(#[trigger] tokens[k], raw[k], text)
}

/// A layout token.
pub enum Layout {
    Indent,
    Dedent,
    Eol,
}

/// A token of the layout pass's output, as the model describes it: a layout
/// token with its span, or what a significant raw token becomes.
pub enum Out {
    Layout(Layout, Span),
    Raw(RawKind, Span, Seq<(Seq<char>, Span)>),
}

/// Whether `comments` are, in order, the comments `cs` describe.
pub open spec fn comments_are(comments: Seq<(String, Span)>, cs: Seq<(Seq<char>, Span)>) -> bool {
    &&& comments.len() == cs.len()
    &&& forall|i: int|
        0 <= i < comments.len() ==> (#[trigger] comments[i]).0@ == cs[i].0 && comments[i].1 == cs[i].1
}

/// Whether `t` is the token `o` describes.
pub open spec fn out_is(t: Token, o: Out, text: Seq<char>) -> bool {
    match o {
        Out::Layout(Layout::Indent, s) => t.kind is Indent && t.span == s && t.comments@.len() == 0,
        Out::Layout(Layout::Dedent, s) => t.kind is Dedent && t.span == s && t.comments@.len() == 0,
        Out::Layout(Layout::Eol, s) => t.kind is Eol && t.span == s && t.comments@.len() == 0,
        Out::Raw(k, s, cs) => token_from_raw(t, (k, s), text) && comments_are(t.comments@, cs),
    }
}

/// Whether `tokens` are, in order, the tokens `outs` describe.
pub open spec fn outs_are(tokens: Seq<Token>, outs: Seq<Out>, text: Seq<char>) -> bool {
    &&& tokens.len() == outs.len()
    &&& forall|k: int| 0 <= k < tokens.len() ==> out_is(#[trigger] tokens[k], outs[k], text)
}

/// `n` dedents at `span`.
pub open spec fn dedents(n: nat, span: Span) -> Seq<Out> {
    Seq::new(n, |i: int| Out::Layout(Layout::Dedent, span))
}

/// The stack and level left once a newline to level `n` has popped every
/// level above `n`.
pub open spec fn unwind(stack: Seq<usize>, level: usize, n: usize) -> (Seq<usize>, usize)
    decreases stack.len(),
{
    if n < level && stack.len() > 0 {
        unwind(stack.drop_last(), stack.last(), n)
    } else {
        (stack, level)
    }
}

/// The layout tokens a newline to level `n` at `span` yields: a `Dedent`
/// for each level popped, then an `Eol` unless the level increased, or
/// else a single `Indent`.
pub open spec fn newline_outs(stack: Seq<usize>, level: usize, n: usize, span: Span) -> Seq<Out> {
    let popped = stack.len() - unwind(stack, level, n).0.len();
    if n > level {
        seq![Out::Layout(Layout::Indent, span)]
    } else {
        dedents(popped as nat, span) + seq![Out::Layout(Layout::Eol, span)]
    }
}

/// The stack and level after a newline to level `n`.
pub open spec fn newline_stack(stack: Seq<usize>, level: usize, n: usize) -> (Seq<usize>, usize) {
    if n > level {
        (stack.push(level), n)
    } else {
        unwind(stack, level, n)
    }
}

/// The message a newline to level `n` at `span` reports: one where it
/// decreases to a level that is not on the stack.
pub open spec fn newline_msgs(stack: Seq<usize>, level: usize, n: usize, span: Span) -> Seq<Message> {
    let after = unwind(stack, level, n).1;
    if n < level && after != n {
        seq![msg(MessageKind::IndentError { expected: after, actual: n }, span)]
    } else {
        Seq::empty()
    }
}

/// The state of the layout pass, as a model: the tokens made, the spans of
/// invalid tokens, the messages, the indentation stack and level, the
/// newline waiting for the next token, and the span of the last raw token.
pub struct Lexed {
    pub outs: Seq<Out>,
    pub errors: Seq<Span>,
    pub msgs: Seq<Message>,
    pub stack: Seq<usize>,
    pub level: usize,
    pub pending: Option<(usize, Span)>,
    pub comments: Seq<(Seq<char>, Span)>,
    pub last: Span,
}

/// The model before any raw token.
pub open spec fn lexed_start() -> Lexed {
    Lexed {
        outs: Seq::empty(),
        errors: Seq::empty(),
        msgs: Seq::empty(),
        stack: Seq::empty(),
        level: 0,
        pending: None,
        comments: Seq::empty(),
        last: Span::spec_new(0, 0),
    }
}

/// The model after the raw token `r` of `text`. A newline waits for the next
/// significant token, which it precedes with its layout tokens; a comment
/// waits to be carried by the next significant token; an invalid token is
/// recorded and drops a waiting newline and waiting comments.
pub open spec fn lex_step(m: Lexed, r: (RawKind, Span), text: Seq<char>) -> Lexed {
    if r.0 == RawKind::Newline {
        Lexed {
            pending: Some((indent_of(text.subrange(r.1.start as int, r.1.end as int)) as usize, r.1)),
            last: r.1,
            ..m
        }
    } else if r.0 == RawKind::Comment {
        Lexed {
            comments: m.comments.push((text.subrange(r.1.start as int, r.1.end as int), r.1)),
            last: r.1,
            ..m
        }
    } else if r.0 == RawKind::Skip {
        Lexed { last: r.1, ..m }
    } else if r.0 == RawKind::Error {
        Lexed { errors: m.errors.push(r.1), pending: None, comments: Seq::empty(), last: r.1, ..m }
    } else {
        match m.pending {
            Some((n, s)) => {
                let (stack, level) = newline_stack(m.stack, m.level, n);
                Lexed {
                    outs: (m.outs + newline_outs(m.stack, m.level, n, s)).push(
                        Out::Raw(r.0, r.1, m.comments),
                    ),
                    errors: m.errors,
                    msgs: m.msgs + newline_msgs(m.stack, m.level, n, s),
                    stack,
                    level,
                    pending: None,
                    comments: Seq::empty(),
                    last: r.1,
                }
            },
            None => Lexed {
                outs: m.outs.push(Out::Raw(r.0, r.1, m.comments)),
                pending: None,
                comments: Seq::empty(),
                last: r.1,
                ..m
            },
        }
    }
}

/// The model after the raw tokens `raw` of `text`.
pub open spec fn lexed(raw: Seq<(RawKind, Span)>, text: Seq<char>) -> Lexed
    decreases raw.len(),
{
    if raw.len() == 0 {
        lexed_start()
    } else {
        lex_step(lexed(raw.drop_last(), text), raw.last(), text)
    }
}

/// The tokens of `text`: those the model makes, then a `Dedent` at the last
/// raw token for each level left on the stack.
pub open spec fn lex_outs(text: Seq<char>) -> Seq<Out> {
    let m = lexed(raw_tokens(text, 0), text);
    m.outs + dedents(m.stack.len(), m.last)
}

/// The messages of tokenizing `text`: the indentation messages, then one
/// for each invalid token.
pub open spec fn lex_messages(text: Seq<char>) -> Seq<Message> {
    let m = lexed(raw_tokens(text, 0), text);
    m.msgs + Seq::new(m.errors.len(), |i: int| msg(MessageKind::UnexpectedToken, m.errors[i]))
}

proof fn lemma_outs_push(tokens: Seq<Token>, outs: Seq<Out>, t: Token, o: Out, text: Seq<char>)
    requires
        outs_are(tokens, outs, text),
        out_is(t, o, text),
    ensures
        outs_are(tokens.push(t), outs.push(o), text),
{
    assert forall|k: int| 0 <= k < tokens.len() + 1 implies out_is(#[trigger] tokens.push(t)[k], outs.push(o)[k], text) by {
        if k < tokens.len() {
            assert(tokens.push(t)[k] == tokens[k]);
        }
    }
}

proof fn lemma_outs_append(a: Seq<Token>, ao: Seq<Out>, b: Seq<Token>, bo: Seq<Out>, text: Seq<char>)
    requires
        outs_are(a, ao, text),
        outs_are(b, bo, text),
    ensures
        outs_are(a + b, ao + bo, text),
{
    assert forall|k: int| 0 <= k < a.len() + b.len() implies out_is(#[trigger] (a + b)[k], (ao + bo)[k], text) by {
        if k < a.len() {
            assert((a + b)[k] == a[k]);
        } else {
            assert((a + b)[k] == b[k - a.len()]);
        }
    }
}

/// The indentation stack: empty only at level 0, and bottoming out at 0.
pub open spec fn stack_ok(stack: Seq<usize>, current: usize) -> bool {
    &&& stack.len() == 0 ==> current == 0
    &&& stack.len() > 0 ==> stack[0] == 0
}

proof fn lemma_push_token(tokens: Seq<Token>, t: Token)
    ensures
        balance(tokens.push(t)) == balance(tokens) + if t.kind is Indent {
            1int
        } else if t.kind is Dedent {
            -1int
        } else {
            0int
        },
        nested(tokens.push(t)) == (nested(tokens) && balance(tokens.push(t)) >= 0),
        layout_free(tokens.push(t)) == if is_layout(t.kind) {
            layout_free(tokens)
        } else {
            layout_free(tokens).push(t)
        },
{
    assert(tokens.push(t).drop_last() =~= tokens);
}

proof fn lemma_push_raw(raw: Seq<(RawKind, Span)>, r: (RawKind, Span))
    ensures
        significant(raw.push(r)) == if is_significant(r.0) {
            significant(raw).push(r)
        } else {
            significant(raw)
        },
{
    assert(raw.push(r).drop_last() =~= raw);
}

proof fn lemma_balance_append(a: Seq<Token>, b: Seq<Token>)
    ensures
        balance(a + b) == balance(a) + balance(b),
    decreases b.len(),
{
    if b.len() == 0 {
        assert(a + b =~= a);
    } else {
        lemma_balance_append(a, b.drop_last());
        assert((a + b).drop_last() =~= a + b.drop_last());
    }
}

proof fn lemma_layout_free_append(a: Seq<Token>, b: Seq<Token>)
    ensures
        layout_free(a + b) == layout_free(a) + layout_free(b),
    decreases b.len(),
{
    if b.len() == 0 {
        assert(a + b =~= a);
        assert(layout_free(a) + layout_free(b) =~= layout_free(a));
    } else {
        lemma_layout_free_append(a, b.drop_last());
        assert((a + b).drop_last() =~= a + b.drop_last());
        if !is_layout(b.last().kind) {
            assert(layout_free(a) + layout_free(b.drop_last()).push(b.last()) =~= (layout_free(a)
                + layout_free(b.drop_last())).push(b.last()));
        }
    }
}

/// An iterator producing a stream of tokens from a given source. This
/// produces a result which is either `Ok(token)` with a token or `Err(span)`
/// when an invalid token was encountered at the given span.
pub struct TokenIter {
    lexer: RawLexer,
    indents: (Vec<usize>, usize),
    last_span: Span,
    last_tokens: VecDeque<Token>,
    messages: Vec<Message>,
    /// The tokens returned so far.
    produced: Ghost<Seq<Token>>,
    /// The raw tokens read so far.
    consumed: Ghost<Seq<(RawKind, Span)>>,
    /// The spans of the invalid tokens reported so far.
    errors: Ghost<Seq<Span>>,
    /// The messages taken so far.
    taken: Ghost<Seq<Message>>,
}

impl TokenIter {
    /// The text being tokenized.
    pub closed spec fn text(self) -> Seq<char> {
        self.lexer.text()
    }

    /// The tokens returned so far.
    pub closed spec fn produced(self) -> Seq<Token> {
        self.produced@
    }

    /// The messages reported so far.
    pub closed spec fn messages(self) -> Seq<Message> {
        self.messages@
    }

    /// The spans of the invalid tokens returned so far, in order.
    pub closed spec fn errors(self) -> Seq<Span> {
        self.errors@
    }

    /// The messages taken so far.
    pub closed spec fn taken(self) -> Seq<Message> {
        self.taken@
    }

    /// What the model of the layout pass says of the state, but for the
    /// newline waiting for the next token: the messages and invalid tokens
    /// are the model's; while raw tokens are left, the stack and level are
    /// the model's and the tokens made are its tokens; once none are left,
    /// the tokens made are followed by a `Dedent` for each level popped.
    closed spec fn model_ok(self) -> bool {
        let m = lexed(self.consumed@, self.text());
        &&& m.msgs == self.taken@ + self.messages@
        &&& m.errors == self.errors@
        &&& m.last == self.last_span
        &&& m.stack.len() >= self.indents.0@.len()
        &&& self.indents.0@ == m.stack.take(self.indents.0@.len() as int)
        &&& outs_are(
            self.made(),
            m.outs + dedents((m.stack.len() - self.indents.0@.len()) as nat, m.last),
            self.text(),
        )
        &&& self.lexer.rest().len() > 0 ==> self.indents.0@ == m.stack && self.indents.1 == m.level
    }

    /// Whether the iterator has returned every token.
    pub closed spec fn done(self) -> bool {
        &&& self.lexer.rest().len() == 0
        &&& self.last_tokens@.len() == 0
        &&& self.indents.0@.len() == 0
    }

    /// A bound on the number of calls of `next` until it returns `None`.
    pub closed spec fn remaining(self) -> nat {
        4 * self.lexer.rest().len() + self.last_tokens@.len() + self.indents.0@.len()
    }

    /// The tokens returned so far, followed by those already made but not yet
    /// returned.
    closed spec fn made(self) -> Seq<Token> {
        self.produced@ + self.last_tokens@
    }

    pub closed spec fn wf(self) -> bool {
        &&& self.wf_base()
        &&& self.lexer.rest().len() > 0 ==> lexed(self.consumed@, self.text()).pending is None
        &&& self.lexer.rest().len() > 0 ==> lexed(self.consumed@, self.text()).comments.len() == 0
    }

    /// What holds while a call of `next` runs, but for the newline waiting
    /// in it.
    closed spec fn wf_base(self) -> bool {
        &&& self.lexer.wf()
        &&& stack_ok(self.indents.0@, self.indents.1)
        &&& nested(self.made())
        &&& balance(self.made()) == self.indents.0@.len()
        &&& self.consumed@ + self.lexer.rest() == raw_tokens(self.text(), 0)
        &&& tokens_from_raw(layout_free(self.made()), significant(self.consumed@), self.text())
        &&& self.model_ok()
    }

    /// Start tokenizing `content`.
    pub fn new(content: &str) -> (iter: TokenIter)
        ensures
            iter.wf(),
            iter.text() == content@,
            iter.produced().len() == 0,
            iter.messages().len() == 0,
            iter.taken().len() == 0,
            iter.errors().len() == 0,
    {
        let chars = chars_of(content);
        let iter = TokenIter {
            lexer: RawLexer::new(chars),
            indents: (Vec::new(), 0),
            last_span: Span::new(0, 0),
            last_tokens: VecDeque::new(),
            messages: Vec::new(),
            produced: Ghost(Seq::empty()),
            consumed: Ghost(Seq::empty()),
            errors: Ghost(Seq::empty()),
            taken: Ghost(Seq::empty()),
        };
        proof {
            assert(iter.made() =~= Seq::<Token>::empty());
            assert(Seq::<Message>::empty() + Seq::<Message>::empty() =~= Seq::<Message>::empty());
            assert(Seq::<Out>::empty() + dedents(0, Span::spec_new(0, 0)) =~= Seq::<Out>::empty());
            assert(Seq::<usize>::empty().take(0) =~= Seq::<usize>::empty());
            assert(Seq::<(RawKind, Span)>::empty() + raw_tokens(chars@, 0) =~= raw_tokens(
                chars@,
                0,
            ));
        }
        iter
    }

    /// Get the tokens produced by this newline, if any. This produces tokens
    /// in the following order:
    ///
    /// - Any number of `Dedent`s (while popping from the dedent stack)
    /// - Possibly one `Eol`
    /// - Possibly one `Indent` (while pushing to the indent stack)
    fn newline_tokens(&mut self, indent: (usize, Span), before: Ghost<Seq<Token>>) -> (tokens:
        VecDeque<Token>)
        requires
            stack_ok(old(self).indents.0@, old(self).indents.1),
            nested(before@),
            balance(before@) == old(self).indents.0@.len(),
        ensures
            stack_ok(final(self).indents.0@, final(self).indents.1),
            nested(before@ + tokens@),
            balance(before@ + tokens@) == final(self).indents.0@.len(),
            forall|k: int| 0 <= k < tokens@.len() ==> is_layout(#[trigger] tokens@[k].kind),
            final(self).lexer == old(self).lexer,
            final(self).produced == old(self).produced,
            final(self).consumed == old(self).consumed,
            final(self).last_tokens == old(self).last_tokens,
            final(self).messages@.len() >= old(self).messages@.len(),
            tokens@.len() + final(self).indents.0@.len() <= old(self).indents.0@.len() + 2,
            outs_are(
                tokens@,
                newline_outs(old(self).indents.0@, old(self).indents.1, indent.0, indent.1),
                old(self).text(),
            ),
            (final(self).indents.0@, final(self).indents.1) == newline_stack(
                old(self).indents.0@,
                old(self).indents.1,
                indent.0,
            ),
            final(self).messages@ == old(self).messages@ + newline_msgs(
                old(self).indents.0@,
                old(self).indents.1,
                indent.0,
                indent.1,
            ),
            final(self).last_span == old(self).last_span,
            final(self).errors == old(self).errors,
            final(self).taken == old(self).taken,
    {
        let mut tokens: VecDeque<Token> = VecDeque::new();
        let old_level = self.indents.1;
        let decreasing = indent.0 < old_level;
        let increasing = indent.0 > old_level;

        // If the new indent is less than the current indent, emit dedent
        // tokens until it's not.
        proof {
            assert(before@ + tokens@ =~= before@);
        }
        while indent.0 < self.indents.1
            invariant
                stack_ok(self.indents.0@, self.indents.1),
                nested(before@ + tokens@),
                balance(before@ + tokens@) == self.indents.0@.len(),
                forall|k: int| 0 <= k < tokens@.len() ==> is_layout(#[trigger] tokens@[k].kind),
                self.lexer == old(self).lexer,
                self.produced == old(self).produced,
                self.consumed == old(self).consumed,
                self.last_tokens == old(self).last_tokens,
                self.messages@.len() >= old(self).messages@.len(),
                tokens@.len() + self.indents.0@.len() == old(self).indents.0@.len(),
                self.messages@ == old(self).messages@,
                self.last_span == old(self).last_span,
                self.errors == old(self).errors,
                self.taken == old(self).taken,
                unwind(self.indents.0@, self.indents.1, indent.0) == unwind(
                    old(self).indents.0@,
                    old(self).indents.1,
                    indent.0,
                ),
                tokens@.len() > 0 ==> indent.0 < old_level,
                tokens@.len() == 0 ==> self.indents.1 == old_level,
                outs_are(tokens@, dedents(tokens@.len(), indent.1), old(self).text()),
            decreases self.indents.0@.len(),
        {
            let ghost prev = tokens@;
            let dedent = Token { kind: TokenType::Dedent, comments: Vec::new(), span: indent.1 };
            tokens.push_back(dedent);
            proof {
                assert(before@ + tokens@ =~= (before@ + prev).push(dedent));
                lemma_push_token(before@ + prev, dedent);
                lemma_outs_push(prev, dedents(prev.len(), indent.1), dedent, Out::Layout(Layout::Dedent, indent.1), old(self).text());
                assert(dedents(prev.len(), indent.1).push(Out::Layout(Layout::Dedent, indent.1)) =~= dedents(tokens@.len(), indent.1));
            }
            // The stack is not empty here: an empty stack is at level 0.
            let topmost = self.indents.0.pop().unwrap();
            self.indents.1 = topmost;
        }

        let ghost mid = tokens@;
        proof {
            assert(unwind(self.indents.0@, self.indents.1, indent.0) == (self.indents.0@, self.indents.1));
        }
        if decreasing && indent.0 != self.indents.1 {
            self.messages.indent_error(indent.1, self.indents.1, indent.0);
        }
        proof {
            assert(self.messages@ =~= old(self).messages@ + newline_msgs(
                old(self).indents.0@,
                old(self).indents.1,
                indent.0,
                indent.1,
            ));
        }
        // Only emit an end of line if the new indent is less than or equal to
        // the current indent and we plausibly expect an eol here.

        if !increasing {
            let ghost prev = tokens@;
            let eol = Token { kind: TokenType::Eol, comments: Vec::new(), span: indent.1 };
            tokens.push_back(eol);
            proof {
                assert(before@ + tokens@ =~= (before@ + prev).push(eol));
                lemma_push_token(before@ + prev, eol);
                lemma_outs_push(prev, dedents(prev.len(), indent.1), eol, Out::Layout(Layout::Eol, indent.1), old(self).text());
                assert(dedents(prev.len(), indent.1).push(Out::Layout(Layout::Eol, indent.1)) =~= newline_outs(
                    old(self).indents.0@,
                    old(self).indents.1,
                    indent.0,
                    indent.1,
                ));
            }
        }
        // Emit a single indent if indentation level increased.

        if increasing {
            let ghost prev = tokens@;
            let level = self.indents.1;
            self.indents.0.push(level);
            self.indents.1 = indent.0;
            let ind = Token { kind: TokenType::Indent, comments: Vec::new(), span: indent.1 };
            tokens.push_back(ind);
            proof {
                assert(before@ + tokens@ =~= (before@ + prev).push(ind));
                lemma_push_token(before@ + prev, ind);
                assert(prev.len() == 0);
                lemma_outs_push(prev, Seq::empty(), ind, Out::Layout(Layout::Indent, indent.1), old(self).text());
                assert(Seq::<Out>::empty().push(Out::Layout(Layout::Indent, indent.1)) =~= newline_outs(
                    old(self).indents.0@,
                    old(self).indents.1,
                    indent.0,
                    indent.1,
                ));
            }
        }
        tokens
    }

    /// Produce the next token, `Err` with the span of an invalid token, or
    /// `None` once every token has been produced.
    pub fn next(&mut self) -> (r: Option<Result<Token, Span>>)
        requires
            old(self).wf(),
        ensures
            final(self).wf(),
            final(self).text() == old(self).text(),
            final(self).messages().len() >= old(self).messages().len(),
            match r {
                Some(Ok(token)) => final(self).produced() == old(self).produced().push(token),
                _ => final(self).produced() == old(self).produced(),
            },
            r is None ==> final(self).done(),
            r is Some ==> final(self).remaining() < old(self).remaining(),
            final(self).taken() == old(self).taken(),
            match r {
                Some(Err(span)) => final(self).errors() == old(self).errors().push(span),
                _ => final(self).errors() == old(self).errors(),
            },
            r is None ==> {
                let m = lexed(raw_tokens(final(self).text(), 0), final(self).text());
                &&& outs_are(final(self).produced(), lex_outs(final(self).text()), final(self).text())
                &&& final(self).taken() + final(self).messages() == m.msgs
                &&& final(self).errors() == m.errors
            },
    {
        let mut last_indent: Option<(usize, Span)> = None;
        let mut comments: Vec<(String, Span)> = Vec::new();

        if self.last_tokens.len() > 0 {
            let ghost made = self.made();
            let token = self.last_tokens.pop_front().unwrap();
            proof {
                self.produced@ = self.produced@.push(token);
                assert(self.made() =~= made);
            }
            return Some(Ok(token));
        }
        proof {
            assert(self.made() =~= self.produced@);
        }
        loop
            invariant
                self.wf_base(),
                self.lexer.rest().len() > 0 ==> lexed(self.consumed@, self.text()).pending == last_indent,
                self.lexer.rest().len() > 0 ==> comments_are(comments@, lexed(self.consumed@, self.text()).comments),
                self.errors@ == old(self).errors@,
                self.taken@ == old(self).taken@,
                self.last_tokens@.len() == 0,
                self.text() == old(self).text(),
                self.produced@ == old(self).produced@,
                self.messages@.len() >= old(self).messages@.len(),
                self.remaining() <= old(self).remaining(),
                self.indents.0@.len() == old(self).indents.0@.len(),
            decreases self.lexer.rest().len(),
        {
            let ghost rest = self.lexer.rest();
            let (token, span) = match self.lexer.next() {
                Some((token, span)) => (token, span),
                None => {
                    let ghost before = *self;
                    if let Some(front) = self.indents.0.pop() {
                        let token = Token {
                            kind: TokenType::Dedent,
                            comments: Vec::new(),
                            span: self.last_span,
                        };
                        self.indents.1 = front;
                        proof {
                            let m = lexed(self.consumed@, self.text());
                            let k = (m.stack.len() - before.indents.0@.len()) as nat;
                            assert(before.made() =~= before.produced@);
                            lemma_outs_push(
                                before.made(),
                                m.outs + dedents(k, m.last),
                                token,
                                Out::Layout(Layout::Dedent, m.last),
                                self.text(),
                            );
                            assert((m.outs + dedents(k, m.last)).push(Out::Layout(Layout::Dedent, m.last))
                                =~= m.outs + dedents(k + 1, m.last));
                            assert(self.indents.0@ =~= m.stack.take(self.indents.0@.len() as int));
                            lemma_push_token(self.produced@, token);
                            self.produced@ = self.produced@.push(token);
                            assert(self.made() =~= self.produced@);
                            assert(self.consumed@ + self.lexer.rest() =~= self.consumed@);
                        }
                        return Some(Ok(token));
                    } else {
                        return None;
                    }
                },
            };
            let ghost raw = rest[0];
            let ghost m0 = lexed(self.consumed@, self.text());
            proof {
                lemma_push_raw(self.consumed@, raw);
                assert(self.consumed@.push(raw) + self.lexer.rest() =~= self.consumed@ + rest);
                let prev = self.consumed@;
                self.consumed@ = self.consumed@.push(raw);
                assert(self.consumed@.drop_last() =~= prev);
                assert(lexed(self.consumed@, self.text()) == lex_step(m0, raw, self.text()));
                assert(m0.stack.len() == self.indents.0@.len());
                assert(m0.outs + dedents(0, m0.last) =~= m0.outs);
            }
            self.last_span = span;
            let kind = match token {
                RawToken::Newline(indent) => {
                    last_indent = Some((indent, span));
                    continue;
                },
                RawToken::Comment(comment) => {
                    let ghost cs0 = comments@;
                    comments.push((comment, span));
                    proof {
                        let m1 = lexed(self.consumed@, self.text());
                        if self.lexer.rest().len() > 0 {
                            assert(m1.comments == m0.comments.push((self.text().subrange(span.start as int, span.end as int), span)));
                            assert forall|i: int| 0 <= i < comments@.len() implies (#[trigger] comments@[i]).0@ == m1.comments[i].0 && comments@[i].1 == m1.comments[i].1 by {
                                if i < cs0.len() {
                                    assert(comments@[i] == cs0[i]);
                                }
                            }
                        }
                    }
                    continue;
                },
                RawToken::Error => {
                    proof {
                        self.errors@ = self.errors@.push(span);
                    }
                    return Some(Err(span));
                },
                RawToken::DocComment(doc) => TokenType::Documentation(doc),
                RawToken::Name(name) => TokenType::Name(name),
                RawToken::Number(number) => TokenType::Number(number),
                RawToken::String(string) => TokenType::String(string),
                RawToken::Fun => TokenType::Fun,
                RawToken::Import => TokenType::Import,
                RawToken::Let => TokenType::Let,
                RawToken::Equal => TokenType::Equal,
                RawToken::LeftParen => TokenType::LeftParen,
                RawToken::RightParen => TokenType::RightParen,
                RawToken::Period => TokenType::Period,
                RawToken::Semicolon => TokenType::Semicolon,
                RawToken::Colon => TokenType::Colon,
            };
            let token = Token { kind, comments, span };
            proof {
                assert(token_from_raw(token, raw, self.text()));
            }
            match last_indent {
                Some(indent) => {
                    let ghost before = self.produced@;
                    let mut tokens = self.newline_tokens(indent, Ghost(before));
                    let ghost layout = tokens@;
                    proof {
                        lemma_layout_free_append(before, layout);
                        assert(layout_free(layout) =~= Seq::<Token>::empty()) by {
                            lemma_all_layout(layout);
                        }
                        assert(before + layout + seq![token] =~= (before + layout).push(token));
                        lemma_push_token(before + layout, token);
                    }
                    tokens.push_back(token);
                    let front = tokens.pop_front().unwrap();
                    self.last_tokens = tokens;
                    proof {
                        self.produced@ = self.produced@.push(front);
                        assert(self.made() =~= (before + layout).push(token));
                        let (n, s) = indent;
                        lemma_outs_append(before, m0.outs, layout, newline_outs(m0.stack, m0.level, n, s), self.text());
                        lemma_outs_push(
                            before + layout,
                            m0.outs + newline_outs(m0.stack, m0.level, n, s),
                            token,
                            Out::Raw(raw.0, raw.1, m0.comments),
                            self.text(),
                        );
                        let m1 = lexed(self.consumed@, self.text());
                        assert(m1.outs + dedents(0, m1.last) =~= m1.outs);
                        assert(self.indents.0@ =~= m1.stack.take(self.indents.0@.len() as int));
                        assert(m1.msgs =~= self.taken@ + self.messages@);
                    }
                    return Some(Ok(front));
                },
                None => {
                    proof {
                        lemma_push_token(self.produced@, token);
                        self.produced@ = self.produced@.push(token);
                        assert(self.made() =~= self.produced@);
                    }
                    return Some(Ok(token));
                },
            }
        }
    }

    /// Once done, every token has been returned and every raw token read.
    pub proof fn lemma_done(self)
        requires
            self.wf(),
            self.done(),
        ensures
            nested(self.produced()),
            balance(self.produced()) == 0,
            tokens_from_raw(
                layout_free(self.produced()),
                significant(raw_tokens(self.text(), 0)),
                self.text(),
            ),
    {
        assert(self.made() =~= self.produced@);
        assert(self.consumed@ + self.lexer.rest() =~= self.consumed@);
    }

    /// Take the messages reported so far.
    pub fn take_messages(&mut self) -> (messages: Vec<Message>)
        requires
            old(self).wf(),
        ensures
            final(self).wf(),
            messages@ == old(self).messages(),
            final(self).messages().len() == 0,
            final(self).produced() == old(self).produced(),
            final(self).text() == old(self).text(),
            final(self).done() == old(self).done(),
            final(self).taken() == old(self).taken() + old(self).messages(),
            final(self).errors() == old(self).errors(),
    {
        let mut messages = Vec::new();
        std::mem::swap(&mut messages, &mut self.messages);
        proof {
            self.taken@ = self.taken@ + messages@;
            assert(self.taken@ + self.messages@ =~= old(self).taken@ + old(self).messages@);
        }
        messages
    }
}

proof fn lemma_all_layout(tokens: Seq<Token>)
    requires
        forall|k: int| 0 <= k < tokens.len() ==> is_layout(#[trigger] tokens[k].kind),
    ensures
        layout_free(tokens) == Seq::<Token>::empty(),
    decreases tokens.len(),
{
    if tokens.len() > 0 {
        lemma_all_layout(tokens.drop_last());
    }
}

} // verus!

verus! {

/// Tokenize `content`, reporting every invalid token and indentation error.
/// Every `Indent` among the tokens is matched by a later `Dedent`, and the
/// tokens other than `Indent`, `Dedent` and `Eol` are, in order, the names,
/// numbers, strings, documentation comments, keywords and punctuation of the
/// text.
pub fn get_tokens(content: &str) -> (r: (Vec<Token>, Vec<Message>))
    ensures
        nested(r.0@),
        balance(r.0@) == 0,
        tokens_from_raw(layout_free(r.0@), significant(raw_tokens(content@, 0)), content@),
        outs_are(r.0@, lex_outs(content@), content@),
        r.1@ == lex_messages(content@),
{
    let mut iter = TokenIter::new(content);
    let mut tokens: Vec<Token> = Vec::new();
    let mut errors: Vec<Message> = Vec::new();
    loop
        invariant
            iter.wf(),
            iter.text() == content@,
            iter.produced() == tokens@,
            iter.taken().len() == 0,
            errors@ == Seq::new(
                iter.errors().len(),
                |i: int| msg(MessageKind::UnexpectedToken, iter.errors()[i]),
            ),
        ensures
            iter.done(),
            iter.taken().len() == 0,
            errors@ == Seq::new(
                iter.errors().len(),
                |i: int| msg(MessageKind::UnexpectedToken, iter.errors()[i]),
            ),
            outs_are(tokens@, lex_outs(content@), content@),
            iter.taken() + iter.messages() == lexed(raw_tokens(content@, 0), content@).msgs,
            iter.errors() == lexed(raw_tokens(content@, 0), content@).errors,
        decreases iter.remaining(),
    {
        match iter.next() {
            Some(Ok(token)) => tokens.push(token),
            Some(Err(span)) => {
                errors.unexpected_token(span);
                assert(errors@ =~= Seq::new(
                    iter.errors().len(),
                    |i: int| msg(MessageKind::UnexpectedToken, iter.errors()[i]),
                ));
            },
            None => break,
        }
    }
    let ghost msgs0 = iter.messages();
    let mut messages = iter.take_messages();
    messages.append(&mut errors);
    proof {
        iter.lemma_done();
        assert(Seq::<Message>::empty() + msgs0 =~= msgs0);
    }
    (tokens, messages)
}

} // verus!

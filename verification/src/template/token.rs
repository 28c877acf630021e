//! The tokenizer: a scanner that hands out one token or error per step.
use crate::names::Bindings;
use crate::text::{
    between, closes_at, decimal, find_brace, find_open, lemma_ascii_boundaries, lemma_find_brace,
    lemma_find_open, opens_at, search_brace, search_open, starts_close, starts_open,
    to_decimal, trim, trimmed,
};
use vstd::prelude::*;
use vstd::string::*;
use vstd::utf8::*;

verus! {

/// A piece of a template: text to copy, or the name of a value to insert.
#[derive(Debug, Eq, PartialEq)]
pub enum Token<'a> {
    /// Text that is copied to the output as it stands.
    Lit(&'a str),
    /// A placeholder, by its name without surrounding whitespace.
    Var(&'a str),
}

/// What a [`Token`] holds, as sequences of characters.
pub enum TokenView {
    Lit(Seq<char>),
    Var(Seq<char>),
}

impl<'a> View for Token<'a> {
    type V = TokenView;

    open spec fn view(&self) -> TokenView {
        match self {
            Token::Lit(s) => TokenView::Lit(s@),
            Token::Var(s) => TokenView::Var(s@),
        }
    }
}

impl TokenView {
    /// What the token gives to the output: a literal its text, a placeholder
    /// the value that `ctx` binds to its name.
    pub open spec fn evaluated(self, ctx: Map<Seq<char>, Seq<char>>) -> Seq<char> {
        match self {
            TokenView::Lit(text) => text,
            TokenView::Var(name) => ctx[name],
        }
    }

    /// True when the token is a literal, or a placeholder whose name `ctx`
    /// binds.
    pub open spec fn defined_in(self, ctx: Map<Seq<char>, Seq<char>>) -> bool {
        match self {
            TokenView::Lit(_) => true,
            TokenView::Var(name) => ctx.contains_key(name),
        }
    }
}

impl<'a> Token<'a> {
    /// What the token gives to the output: a literal its text, a placeholder
    /// the value bound to its name. The name has to be bound.
    pub fn eval(&self, ctx: &'a Bindings) -> (r: &'a str)
        requires
            self@.defined_in(ctx@),
        ensures
            r@ == self@.evaluated(ctx@),
    {
        match self {
            Token::Lit(text) => *text,
            Token::Var(name) => match ctx.get(*name) {
                Some(value) => value,
                None => unreached(),
            },
        }
    }

    /// The name of the placeholder, if the token is one.
    pub fn as_var(&self) -> (r: Option<&'a str>)
        ensures
            r == match *self {
                Token::Var(name) => Some(name),
                Token::Lit(_) => None,
            },
    {
        match self {
            Token::Var(name) => Some(*name),
            Token::Lit(_) => None,
        }
    }
}

/// A malformed placeholder.
#[derive(Debug, Eq, PartialEq)]
pub enum Error {
    /// After `{{` a brace came that does not start `}}`; the byte offset of
    /// that brace in the template.
    ExpectedDoubleRightBraces(usize),
    /// After `{{` the template ended without another brace.
    UnexpectedEndOfFile,
}

impl Error {
    /// What [`Error::message`] says.
    pub open spec fn message_text(self) -> Seq<char> {
        match self {
            Error::ExpectedDoubleRightBraces(at) => "expected \"}\" at position "@ + decimal(
                at as nat,
            ),
            Error::UnexpectedEndOfFile => "unexpected end of file"@,
        }
    }

    /// The error in words, for a reader.
    pub fn message(&self) -> (r: String)
        ensures
            r@ == self.message_text(),
    {
        match self {
            Error::ExpectedDoubleRightBraces(at) => {
                let number = to_decimal(*at as u64);
                String::from_str("expected \"}\" at position ").concat(number.as_str())
            },
            Error::UnexpectedEndOfFile => String::from_str("unexpected end of file"),
        }
    }
}

/// What one step of the tokenizer hands out.
pub type Item = Result<TokenView, Error>;

/// What a step's result holds, as a value of the model.
pub open spec fn item_view(x: Result<Token<'_>, Error>) -> Item {
    match x {
        Ok(t) => Ok(t@),
        Err(e) => Err(e),
    }
}

/// Whether the scanner is in literal text or at the start of a placeholder.
#[derive(Clone, Copy, Debug, PartialEq, Eq)]
pub enum State {
    Lit,
    Var,
}

/// The state of a [`Tokenizer`] as a mathematical value.
pub struct Cursor {
    pub state: State,
    /// The UTF-8 bytes of the text that is still to be scanned.
    pub rest: Seq<u8>,
    /// In state `Lit`, where in `rest` the search for the next `{{` begins.
    pub offset: int,
    /// The byte offset of `rest` in the whole template.
    pub start: int,
}

impl Cursor {
    /// The cursor at the beginning of `text`.
    pub open spec fn init(text: Seq<u8>) -> Cursor {
        if opens_at(text, 0) {
            Cursor { state: State::Var, rest: text, offset: 2, start: 0 }
        } else {
            Cursor { state: State::Lit, rest: text, offset: 0, start: 0 }
        }
    }

    /// The invariant of a cursor: in state `Var` the rest begins with `{{`; in
    /// state `Lit` it does not, unless an error has moved the search on.
    pub open spec fn wf(self) -> bool {
        &&& 0 <= self.start
        &&& 0 <= self.offset <= self.rest.len()
        &&& match self.state {
            State::Lit => self.offset == 0 ==> !opens_at(self.rest, 0),
            State::Var => opens_at(self.rest, 0),
        }
    }

    /// One step: what is handed out and the cursor after it, or `None` when
    /// the text is used up.
    pub open spec fn step(self) -> Option<(Item, Cursor)> {
        if self.rest.len() == 0 {
            None
        } else {
            Some(
                match self.state {
                    State::Lit => match find_open(self.rest, self.offset) {
                        Some(k) => (
                            Ok(TokenView::Lit(decode_utf8(self.rest.take(k)))),
                            Cursor {
                                state: State::Var,
                                rest: self.rest.skip(k),
                                offset: 0,
                                start: self.start + k,
                            },
                        ),
                        None => (
                            Ok(TokenView::Lit(decode_utf8(self.rest))),
                            Cursor {
                                state: State::Lit,
                                rest: Seq::empty(),
                                offset: 0,
                                start: self.start + self.rest.len(),
                            },
                        ),
                    },
                    State::Var => match find_brace(self.rest, 2) {
                        Some(k) => if closes_at(self.rest, k) {
                            let rest = self.rest.skip(k + 2);
                            (
                                Ok(TokenView::Var(trimmed(decode_utf8(self.rest.subrange(2, k))))),
                                Cursor {
                                    state: if opens_at(rest, 0) {
                                        State::Var
                                    } else {
                                        State::Lit
                                    },
                                    rest,
                                    offset: 0,
                                    start: self.start + k + 2,
                                },
                            )
                        } else {
                            (
                                Err(Error::ExpectedDoubleRightBraces((self.start + k) as usize)),
                                Cursor { state: State::Lit, offset: k, ..self },
                            )
                        },
                        None => (
                            Err(Error::UnexpectedEndOfFile),
                            Cursor { state: State::Lit, offset: 2, ..self },
                        ),
                    },
                },
            )
        }
    }

    /// True when a step from this cursor hands out `r` and leaves the cursor
    /// `after`: what [`Tokenizer::next`] promises.
    pub open spec fn hands_out(self, r: Option<Result<Token<'_>, Error>>, after: Cursor) -> bool {
        match self.step() {
            Some((item, next)) => r matches Some(x) && item_view(x) == item && after == next,
            None => r is None && after == self,
        }
    }

    /// The cursor after one step; the cursor itself when the text is used up.
    pub open spec fn advanced(self) -> Cursor {
        match self.step() {
            Some((_, next)) => next,
            None => self,
        }
    }

    /// The bytes that the next step takes off the front of the rest: all of a
    /// literal, a placeholder with its delimiters, nothing for an error.
    pub open spec fn taken(self) -> Seq<u8> {
        self.rest.take(self.advanced().start - self.start)
    }

    /// A measure that every step lowers: it bounds the number of steps that
    /// are still to come.
    pub open spec fn fuel(self) -> nat {
        2 * self.rest.len() + if self.state is Var {
            1nat
        } else {
            0nat
        }
    }

    /// A step keeps the invariant and lowers the measure.
    pub proof fn lemma_step(self)
        requires
            self.wf(),
            self.step() is Some,
        ensures
            self.advanced().wf(),
            self.advanced().fuel() < self.fuel(),
    {
        match self.state {
            State::Lit => {
                lemma_find_open(self.rest, self.offset);
            },
            State::Var => {
                lemma_find_brace(self.rest, 2);
            },
        }
    }

    /// All that is handed out from this cursor on, in order.
    pub open spec fn items(self) -> Seq<Item>
        decreases self.fuel(),
        when self.wf()
    {
        match self.step() {
            Some((item, next)) => {
                proof {
                    self.lemma_step();
                }
                seq![item] + next.items()
            },
            None => Seq::empty(),
        }
    }

    /// The pieces of text that the steps from this cursor on take, in order:
    /// one piece for each of [`Cursor::items`].
    pub open spec fn spans(self) -> Seq<Seq<u8>>
        decreases self.fuel(),
        when self.wf()
    {
        match self.step() {
            Some(_) => {
                proof {
                    self.lemma_step();
                }
                seq![self.taken()] + self.advanced().spans()
            },
            None => Seq::empty(),
        }
    }
}

/// A scanner over one template. Each call of [`Tokenizer::next`] hands out the
/// next token or error, until the text is used up.
pub struct Tokenizer<'a> {
    state: State,
    corpus: &'a str,
    offset: usize,
    start: usize,
}

impl<'a> View for Tokenizer<'a> {
    type V = Cursor;

    closed spec fn view(&self) -> Cursor {
        Cursor {
            state: self.state,
            rest: self.corpus.spec_bytes(),
            offset: self.offset as int,
            start: self.start as int,
        }
    }
}

impl<'a> Tokenizer<'a> {
    #[verifier::type_invariant]
    spec fn inv(self) -> bool {
        self@.wf() && self.start + self.corpus.spec_bytes().len() <= usize::MAX
    }

    /// A tokenizer at the beginning of `corpus`.
    pub fn new(corpus: &'a str) -> (r: Self)
        ensures
            r@ == Cursor::init(corpus.spec_bytes()),
            r@.wf(),
    {
        let bytes = corpus.as_bytes();
        assert(bytes@.len() <= usize::MAX) by {
            vstd::slice::axiom_spec_len(bytes);
        }
        if starts_open(bytes, 0) {
            Tokenizer { state: State::Var, corpus, offset: 2, start: 0 }
        } else {
            Tokenizer { state: State::Lit, corpus, offset: 0, start: 0 }
        }
    }

    /// The byte offset in the template of the text that is still to be
    /// scanned.
    pub fn position(&self) -> (r: usize)
        ensures
            r == self@.start,
    {
        self.start
    }

    /// The text that is still to be scanned.
    pub fn remainder(&self) -> (r: &'a str)
        ensures
            r.spec_bytes() == self@.rest,
    {
        self.corpus
    }

    /// Hands out the next token or error and moves on; `None` when the text is
    /// used up, and from then on always.
    pub fn next(&mut self) -> (r: Option<Result<Token<'a>, Error>>)
        ensures
            final(self)@.wf(),
            old(self)@.hands_out(r, final(self)@),
    {
        broadcast use {encode_utf8_valid_utf8, encode_utf8_decode_utf8};

        proof {
            use_type_invariant(&*self);
        }
        let corpus: &'a str = self.corpus;
        let bytes = corpus.as_bytes();
        let len: usize = bytes.len();
        if len == 0 {
            return None;
        }
        match self.state {
            State::Lit => match search_open(bytes, self.offset) {
                Some(k) => {
                    proof {
                        lemma_find_open(bytes@, self.offset as int);
                        lemma_ascii_boundaries(bytes@, k as int);
                        is_char_boundary_start_end_of_seq(bytes@);
                    }
                    let head = between(corpus, 0, k);
                    let tail = between(corpus, k, len);
                    assert(bytes@.take(k as int) =~= bytes@.subrange(0, k as int));
                    assert(bytes@.skip(k as int) =~= bytes@.subrange(k as int, len as int));
                    *self = Tokenizer {
                        state: State::Var,
                        corpus: tail,
                        offset: 0,
                        start: self.start + k,
                    };
                    Some(Ok(Token::Lit(head)))
                },
                None => {
                    proof {
                        is_char_boundary_start_end_of_seq(bytes@);
                    }
                    let tail = between(corpus, len, len);
                    assert(tail.spec_bytes() =~= Seq::<u8>::empty());
                    assert(corpus@ == decode_utf8(encode_utf8(corpus@)));
                    *self = Tokenizer {
                        state: State::Lit,
                        corpus: tail,
                        offset: 0,
                        start: self.start + len,
                    };
                    Some(Ok(Token::Lit(corpus)))
                },
            },
            State::Var => match search_brace(bytes, 2) {
                Some(k) => {
                    proof {
                        lemma_find_brace(bytes@, 2);
                    }
                    if starts_close(bytes, k) {
                        proof {
                            lemma_ascii_boundaries(bytes@, 1);
                            lemma_ascii_boundaries(bytes@, k as int);
                            lemma_ascii_boundaries(bytes@, k as int + 1);
                            is_char_boundary_start_end_of_seq(bytes@);
                        }
                        let padded = between(corpus, 2, k);
                        let tail = between(corpus, k + 2, len);
                        assert(bytes@.skip(k as int + 2) =~= bytes@.subrange(
                            k as int + 2,
                            len as int,
                        ));
                        let name = trim(padded);
                        let state = if starts_open(tail.as_bytes(), 0) {
                            State::Var
                        } else {
                            State::Lit
                        };
                        *self = Tokenizer { state, corpus: tail, offset: 0, start: self.start + k + 2 };
                        Some(Ok(Token::Var(name)))
                    } else {
                        let at: usize = self.start + k;
                        *self = Tokenizer { state: State::Lit, corpus, offset: k, start: self.start };
                        Some(Err(Error::ExpectedDoubleRightBraces(at)))
                    }
                },
                None => {
                    *self = Tokenizer { state: State::Lit, corpus, offset: 2, start: self.start };
                    Some(Err(Error::UnexpectedEndOfFile))
                },
            },
        }
    }
}

} // verus!

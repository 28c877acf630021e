//! Templates: text with `{{ name }}` placeholders.
//!
//! [`parse`] runs the tokenizer over a whole template. It returns the tokens
//! in order if every step gave one; otherwise it returns the first error and,
//! after it, every further error that the scan found.
pub mod laws;
pub mod token;

pub use token::Error;
pub use token::Token;

use token::{item_view, Cursor, Item, TokenView, Tokenizer};
use vstd::prelude::*;
use vstd::string::*;
use vstd::utf8::*;

verus! {

/// What [`parse`] returns, as a value of the model: the tokens, or the first
/// error and the errors after it.
pub type Outcome = Result<Seq<TokenView>, (Error, Seq<Error>)>;

/// The tokens among `items`, in order.
pub open spec fn tokens_of(items: Seq<Item>) -> Seq<TokenView>
    decreases items.len(),
{
    if items.len() == 0 {
        Seq::empty()
    } else {
        match items.last() {
            Ok(t) => tokens_of(items.drop_last()).push(t),
            Err(_) => tokens_of(items.drop_last()),
        }
    }
}

/// The errors among `items`, in order.
pub open spec fn errors_of(items: Seq<Item>) -> Seq<Error>
    decreases items.len(),
{
    if items.len() == 0 {
        Seq::empty()
    } else {
        match items.last() {
            Ok(_) => errors_of(items.drop_last()),
            Err(e) => errors_of(items.drop_last()).push(e),
        }
    }
}

/// The verdict on a finished scan: all the tokens if there was no error, else
/// the first error and the later ones.
pub open spec fn outcome(items: Seq<Item>) -> Outcome {
    let errors = errors_of(items);
    if errors.len() == 0 {
        Ok(tokens_of(items))
    } else {
        Err((errors[0], errors.skip(1)))
    }
}

/// The verdict once `item` has come in after a scan with verdict `acc`.
pub open spec fn absorbed(acc: Outcome, item: Item) -> Outcome {
    match (acc, item) {
        (Ok(tokens), Ok(t)) => Ok(tokens.push(t)),
        (Ok(_), Err(e)) => Err((e, Seq::empty())),
        (Err(errors), Ok(_)) => Err(errors),
        (Err((first, rest)), Err(e)) => Err((first, rest.push(e))),
    }
}

/// What parsing `text` gives.
pub open spec fn parsed(text: Seq<char>) -> Outcome {
    outcome(Cursor::init(encode_utf8(text)).items())
}

/// What a sequence of tokens holds.
pub open spec fn token_views(tokens: Seq<Token<'_>>) -> Seq<TokenView> {
    Seq::new(tokens.len(), |i: int| tokens[i]@)
}

/// What a result of [`parse`] holds.
pub open spec fn outcome_view(r: Result<Vec<Token<'_>>, (Error, Vec<Error>)>) -> Outcome {
    match r {
        Ok(tokens) => Ok(token_views(tokens@)),
        Err((first, rest)) => Err((first, rest@)),
    }
}

/// Taking in one more item changes the verdict as [`absorbed`] says.
pub proof fn lemma_outcome_push(items: Seq<Item>, item: Item)
    ensures
        outcome(items.push(item)) == absorbed(outcome(items), item),
{
    let more = items.push(item);
    assert(more.drop_last() =~= items);
    assert(more.last() == item);
    let errors = errors_of(items);
    match item {
        Ok(_) => {},
        Err(e) => {
            if errors.len() == 0 {
                assert(errors.push(e).skip(1) =~= Seq::<Error>::empty());
            } else {
                assert(errors.push(e).skip(1) =~= errors.skip(1).push(e));
            }
        },
    }
}

/// Takes one more step's result into the accumulator: a token is kept while
/// there was no error, the first error starts the report, later errors are
/// added to it, and tokens after an error are dropped.
fn absorb<'a>(
    acc: Result<Vec<Token<'a>>, (Error, Vec<Error>)>,
    item: Result<Token<'a>, Error>,
) -> (r: Result<Vec<Token<'a>>, (Error, Vec<Error>)>)
    ensures
        outcome_view(r) == absorbed(outcome_view(acc), item_view(item)),
{
    match acc {
        Ok(tokens) => match item {
            Ok(t) => {
                let mut tokens = tokens;
                let ghost before = tokens@;
                tokens.push(t);
                assert(token_views(tokens@) =~= token_views(before).push(t@));
                Ok(tokens)
            },
            Err(e) => Err((e, Vec::new())),
        },
        Err((first, rest)) => match item {
            Ok(_) => Err((first, rest)),
            Err(e) => {
                let mut rest = rest;
                rest.push(e);
                Err((first, rest))
            },
        },
    }
}

/// Splits `corpus` into its tokens. Returns them in order if the whole scan
/// met no error; otherwise the first error and, in order, every error after it.
pub fn parse(corpus: &str) -> (r: Result<Vec<Token<'_>>, (Error, Vec<Error>)>)
    ensures
        outcome_view(r) == parsed(corpus@),
{
    let mut tokenizer = Tokenizer::new(corpus);
    let mut result: Result<Vec<Token<'_>>, (Error, Vec<Error>)> = Ok(Vec::new());
    let ghost all = tokenizer@.items();
    let ghost seen: Seq<Item> = Seq::empty();
    assert(token_views(Seq::<Token<'_>>::empty()) =~= Seq::<TokenView>::empty());
    loop
        invariant
            tokenizer@.wf(),
            all == seen + tokenizer@.items(),
            outcome_view(result) == outcome(seen),
        ensures
            all == seen,
        decreases tokenizer@.fuel(),
    {
        let ghost before = tokenizer@;
        match tokenizer.next() {
            Some(item) => {
                proof {
                    before.lemma_step();
                    lemma_outcome_push(seen, item_view(item));
                    assert(seen.push(item_view(item)) + tokenizer@.items() =~= seen + before.items());
                    seen = seen.push(item_view(item));
                }
                result = absorb(result, item);
            },
            None => {
                assert(seen + before.items() =~= seen);
                break;
            },
        }
    }
    result
}

} // verus!

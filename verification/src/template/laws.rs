//! What holds of every template: the laws of the tokenizer and of `parse`.
use crate::template::token::{item_view, Cursor, Error, Item, State, Token, TokenView};
use crate::template::{errors_of, outcome_view, parsed, tokens_of, Outcome};
use crate::text::{
    all_whitespace, brace_free, closes_at, find_brace, find_open, is_brace, is_trim,
    is_whitespace, law_trim_padding, lemma_ascii_boundaries, lemma_encode_brace_free,
    lemma_encode_concat, lemma_find_brace, lemma_find_open, trimmed, LEFT_BRACE, RIGHT_BRACE,
};
use vstd::prelude::*;
use vstd::utf8::*;

verus! {

/// The bytes of a placeholder whose name, with the whitespace around it, is
/// `padded`: `{{`, the name, `}}`.
pub open spec fn placeholder_bytes(padded: Seq<char>) -> Seq<u8> {
    seq![LEFT_BRACE, LEFT_BRACE] + encode_utf8(padded) + seq![RIGHT_BRACE, RIGHT_BRACE]
}

/// A step takes a prefix off the rest and leaves what follows it.
pub proof fn law_step_takes_prefix(c: Cursor)
    requires
        c.wf(),
        c.step() is Some,
    ensures
        c.rest == c.taken() + c.advanced().rest,
        c.advanced().start == c.start + c.taken().len(),
{
    match c.state {
        State::Lit => {
            lemma_find_open(c.rest, c.offset);
        },
        State::Var => {
            lemma_find_brace(c.rest, 2);
        },
    }
    assert(c.rest =~= c.taken() + c.advanced().rest);
}

/// Reconstruction: the pieces that the steps take, put together in order, are
/// the text that was left to scan. No byte is lost and none comes twice,
/// whether the steps gave tokens or errors.
pub proof fn law_reconstruction(c: Cursor)
    requires
        c.wf(),
    ensures
        c.spans().flatten() == c.rest,
        c.spans().len() == c.items().len(),
    decreases c.fuel(),
{
    match c.step() {
        Some(_) => {
            c.lemma_step();
            law_step_takes_prefix(c);
            law_reconstruction(c.advanced());
            let spans = c.spans();
            assert(spans.first() == c.taken());
            assert(spans.drop_first() =~= c.advanced().spans());
        },
        None => {
            assert(c.rest =~= Seq::<u8>::empty());
        },
    }
}

/// Reconstruction for a whole template: the pieces taken by the scan of
/// `text`, put together in order, are `text`.
pub proof fn law_reconstruction_of_text(text: Seq<u8>)
    ensures
        Cursor::init(text).wf(),
        Cursor::init(text).spans().flatten() == text,
{
    law_reconstruction(Cursor::init(text));
}

/// What the piece that a step takes has to do with what the step hands out:
/// a literal is its piece; a placeholder's piece is `{{`, the name with
/// whitespace around it, `}}`; an error takes nothing, so that the text it
/// stopped at comes again in a later literal.
pub proof fn law_piece_of_item(c: Cursor)
    requires
        c.wf(),
        valid_utf8(c.rest),
        c.step() is Some,
    ensures
        valid_utf8(c.advanced().rest),
        match c.step() {
            Some((Ok(TokenView::Lit(text)), _)) => c.taken() == encode_utf8(text),
            Some((Ok(TokenView::Var(name)), _)) => exists|padded: Seq<char>|
                c.taken() == placeholder_bytes(padded) && name == trimmed(padded),
            Some((Err(_), _)) => c.taken().len() == 0,
            None => true,
        },
{
    broadcast use decode_utf8_encode_utf8;

    let rest = c.rest;
    let len = rest.len() as int;
    match c.state {
        State::Lit => {
            lemma_find_open(rest, c.offset);
            match find_open(rest, c.offset) {
                Some(k) => {
                    lemma_ascii_boundaries(rest, k);
                    valid_utf8_split(rest, k);
                    assert(rest.take(k) =~= rest.subrange(0, k));
                    assert(rest.skip(k) =~= rest.subrange(k, len));
                },
                None => {
                    assert(rest.take(len) =~= rest);
                    assert(valid_utf8(Seq::<u8>::empty()));
                },
            }
        },
        State::Var => {
            lemma_find_brace(rest, 2);
            match find_brace(rest, 2) {
                Some(k) => {
                    if closes_at(rest, k) {
                        lemma_ascii_boundaries(rest, 1);
                        lemma_ascii_boundaries(rest, k);
                        lemma_ascii_boundaries(rest, k + 1);
                        let head = rest.subrange(0, k);
                        assert(head[1] == rest[1]);
                        valid_utf8_split(rest, k);
                        valid_utf8_split(rest, k + 2);
                        lemma_ascii_boundaries(head, 1);
                        valid_utf8_split(head, 2);
                        assert(head.subrange(2, k) =~= rest.subrange(2, k));
                        assert(rest.skip(k + 2) =~= rest.subrange(k + 2, len));
                        let padded = decode_utf8(rest.subrange(2, k));
                        assert(encode_utf8(padded) == rest.subrange(2, k));
                        assert(c.taken() =~= placeholder_bytes(padded));
                    }
                },
                None => {},
            }
        },
    }
}

/// The text of a placeholder whose name, with the whitespace around it, is
/// `padded`: the characters of [`placeholder_bytes`].
pub open spec fn placeholder_text(padded: Seq<char>) -> Seq<char> {
    seq!['{', '{'] + padded + seq!['}', '}']
}

/// The bytes of [`placeholder_text`] are [`placeholder_bytes`].
pub proof fn lemma_placeholder_bytes(padded: Seq<char>)
    ensures
        encode_utf8(placeholder_text(padded)) == placeholder_bytes(padded),
{
    let open = seq!['{', '{'];
    let close = seq!['}', '}'];
    lemma_encode_concat(open + padded, close);
    lemma_encode_concat(open, padded);
    assert(is_ascii_chars(open));
    assert(is_ascii_chars(close));
    is_ascii_chars_encode_utf8(open);
    is_ascii_chars_encode_utf8(close);
    assert(encode_utf8(open) =~= seq![LEFT_BRACE, LEFT_BRACE]);
    assert(encode_utf8(close) =~= seq![RIGHT_BRACE, RIGHT_BRACE]);
}

/// A template that is one placeholder, its name free of braces, parses to that
/// placeholder with the name trimmed.
pub proof fn law_single_placeholder(padded: Seq<char>)
    requires
        brace_free(padded),
    ensures
        parsed(placeholder_text(padded)) == Outcome::Ok(seq![TokenView::Var(trimmed(padded))]),
{
    broadcast use {encode_utf8_decode_utf8, encode_utf8_valid_utf8};

    lemma_placeholder_bytes(padded);
    lemma_encode_brace_free(padded);
    let inner = encode_utf8(padded);
    let n = inner.len() as int;
    let bytes = placeholder_bytes(padded);
    assert(bytes.len() == n + 4);
    assert(bytes[0] == LEFT_BRACE && bytes[1] == LEFT_BRACE);
    assert(bytes[n + 2] == RIGHT_BRACE && bytes[n + 3] == RIGHT_BRACE);
    assert forall|j: int| 2 <= j < n + 2 implies !is_brace(#[trigger] bytes[j]) by {
        assert(bytes[j] == inner[j - 2]);
    }
    let c = Cursor::init(bytes);
    assert(c.state == State::Var && c.wf());
    lemma_find_brace(bytes, 2);
    assert(find_brace(bytes, 2) == Some(n + 2));
    assert(bytes.subrange(2, n + 2) =~= inner);
    assert(decode_utf8(inner) == padded);
    assert(bytes.skip(n + 4) =~= Seq::<u8>::empty());
    let item: Item = Ok(TokenView::Var(trimmed(padded)));
    let next = c.advanced();
    assert(c.step() == Some((item, next)));
    assert(next.rest.len() == 0 && next.wf());
    assert(next.items() =~= Seq::<Item>::empty());
    let items = c.items();
    assert(items =~= seq![item]);
    assert(items.drop_last() =~= Seq::<Item>::empty());
    reveal_with_fuel(errors_of, 2);
    reveal_with_fuel(tokens_of, 2);
    assert(errors_of(items) =~= Seq::<Error>::empty());
    assert(tokens_of(items) =~= seq![TokenView::Var(trimmed(padded))]);
}

/// Trimming of names: whitespace added around the name of a placeholder does
/// not change the name that is handed out. Where the name itself neither
/// begins nor ends with whitespace, it is handed out as it stands.
pub proof fn law_padded_name(pre: Seq<char>, name: Seq<char>, post: Seq<char>)
    requires
        all_whitespace(pre),
        all_whitespace(post),
        brace_free(name),
    ensures
        parsed(placeholder_text(pre + name + post)) == Outcome::Ok(
            seq![TokenView::Var(trimmed(name))],
        ),
        parsed(placeholder_text(pre + name + post)) == parsed(placeholder_text(name)),
        is_trim(name) ==> trimmed(name) == name,
{
    let padded = pre + name + post;
    assert(brace_free(padded)) by {
        assert forall|i: int| 0 <= i < padded.len() implies #[trigger] padded[i] != '{'
            && padded[i] != '}' by {
            if i < pre.len() {
                assert(padded[i] == pre[i]);
                assert(is_whitespace(pre[i]));
            } else if i < pre.len() + name.len() {
                assert(padded[i] == name[i - pre.len()]);
            } else {
                assert(padded[i] == post[i - pre.len() - name.len()]);
                assert(is_whitespace(post[i - pre.len() - name.len()]));
            }
        }
    }
    law_single_placeholder(padded);
    law_single_placeholder(name);
    law_trim_padding(pre, name, post);
}

/// Determinism of a step: what [`Tokenizer::next`] hands out, and where it
/// leaves the tokenizer, depend only on where the tokenizer stood.
///
/// [`Tokenizer::next`]: crate::template::token::Tokenizer::next
pub proof fn law_next_deterministic(
    before: Cursor,
    ra: Option<Result<Token<'_>, Error>>,
    after_a: Cursor,
    rb: Option<Result<Token<'_>, Error>>,
    after_b: Cursor,
)
    requires
        before.hands_out(ra, after_a),
        before.hands_out(rb, after_b),
    ensures
        after_a == after_b,
        ra is Some <==> rb is Some,
        ra is Some ==> item_view(ra.unwrap()) == item_view(rb.unwrap()),
{
}

/// The scan ends: from a cursor with `n` bytes left there come at most
/// `2 * n + 1` tokens and errors.
pub proof fn law_steps_bounded(c: Cursor)
    requires
        c.wf(),
    ensures
        c.items().len() <= c.fuel() <= 2 * c.rest.len() + 1,
    decreases c.fuel(),
{
    if c.step() is Some {
        c.lemma_step();
        law_steps_bounded(c.advanced());
    }
}

/// Determinism of `parse`: two results that meet its contract for the same
/// text hold the same tokens, or the same errors.
pub proof fn law_parse_deterministic(
    a: &str,
    b: &str,
    ra: Result<Vec<Token<'_>>, (Error, Vec<Error>)>,
    rb: Result<Vec<Token<'_>>, (Error, Vec<Error>)>,
)
    requires
        a@ == b@,
        outcome_view(ra) == parsed(a@),
        outcome_view(rb) == parsed(b@),
    ensures
        outcome_view(ra) == outcome_view(rb),
{
}

} // verus!

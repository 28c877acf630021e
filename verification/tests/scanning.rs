use fillout::template::token::{Error, Token, Tokenizer};
use fillout::template::parse;

/// Runs the tokenizer over `text` and returns what it handed out, with the
/// piece of `text` that each step took.
fn pieces(text: &str) -> Vec<(Result<Token<'_>, Error>, &str)> {
    let mut t = Tokenizer::new(text);
    let mut out = Vec::new();
    loop {
        let from = t.position();
        match t.next() {
            Some(item) => out.push((item, &text[from..t.position()])),
            None => return out,
        }
    }
}

const TEXTS: [&str; 16] = [
    "",
    "lorem",
    "{{lorem}}",
    "{{ lorem }}",
    "{{lorem{{ipsum}}",
    "{{lorem{{ipsum}}{{dolor{{sit}}",
    "{{lorem",
    "{{lorem}ipsum",
    "{{a}}{{b}}",
    "{",
    "}}",
    "{{",
    "{{}}",
    "a{b}c{{ d }}e}}f{{",
    "gr\u{fc}\u{df}e {{ n\u{e4}me }} \u{2603}{{\u{2603}",
    "{{{a}}}",
];

#[test]
fn pieces_put_together_give_the_text() {
    for text in TEXTS {
        let mut whole = String::new();
        for (item, piece) in pieces(text) {
            whole.push_str(piece);
            match item {
                Ok(Token::Lit(lit)) => assert_eq!(lit, piece),
                Ok(Token::Var(name)) => {
                    assert!(piece.starts_with("{{") && piece.ends_with("}}"));
                    assert_eq!(name, piece[2..piece.len() - 2].trim());
                }
                Err(_) => assert_eq!(piece, ""),
            }
        }
        assert_eq!(whole, text);
    }
}

#[test]
fn remainder_follows_position() {
    for text in TEXTS {
        let mut t = Tokenizer::new(text);
        assert_eq!(t.position(), 0);
        assert_eq!(t.remainder(), text);
        while t.next().is_some() {
            assert_eq!(t.remainder(), &text[t.position()..]);
        }
        assert_eq!(t.remainder(), "");
        assert_eq!(t.position(), text.len());
    }
}

#[test]
fn exhausted_tokenizer_stays_exhausted() {
    let mut t = Tokenizer::new("a{{b}}");
    while t.next().is_some() {}
    assert_eq!(t.next(), None);
    assert_eq!(t.next(), None);
}

#[test]
fn steps_are_bounded_by_the_length() {
    for text in TEXTS {
        assert!(pieces(text).len() <= 2 * text.len() + 1);
    }
}

#[test]
fn same_text_same_result() {
    for text in TEXTS {
        assert_eq!(pieces(text), pieces(text));
        assert_eq!(parse(text), parse(text));
        let copy = String::from(text);
        assert_eq!(parse(text), parse(&copy));
    }
}

#[test]
fn padding_is_trimmed() {
    for name in ["lorem", "a b", "", "\u{e4}\u{2603}"] {
        let plain = format!("{{{{{}}}}}", name);
        for pre in ["", " ", "\t\n", "\u{a0}\u{3000} "] {
            for post in ["", " ", "\r\n ", "\u{2028}\u{85}"] {
                let padded = format!("{{{{{}{}{}}}}}", pre, name, post);
                assert_eq!(parse(&padded), Ok(vec![Token::Var(name)]));
                assert_eq!(parse(&padded), parse(&plain));
            }
        }
    }
}

#[test]
fn trimming_twice_is_trimming_once() {
    let once = parse("{{ \t lorem ipsum \n}}").unwrap();
    assert_eq!(once, vec![Token::Var("lorem ipsum")]);
    let name = once[0].as_var().unwrap();
    let again = format!("{{{{{}}}}}", name);
    assert_eq!(parse(&again), Ok(vec![Token::Var(name)]));
}

#[test]
fn inner_whitespace_stays() {
    assert_eq!(parse("{{ lorem  ipsum }}"), Ok(vec![Token::Var("lorem  ipsum")]));
}

#[test]
fn whitespace_is_what_trim_takes() {
    let white = [
        0x09, 0x0a, 0x0b, 0x0c, 0x0d, 0x20, 0x85, 0xa0, 0x1680, 0x2000, 0x2001, 0x2002, 0x2003,
        0x2004, 0x2005, 0x2006, 0x2007, 0x2008, 0x2009, 0x200a, 0x2028, 0x2029, 0x202f, 0x205f,
        0x3000,
    ];
    for code in 0..=0x10ffffu32 {
        let c = match char::from_u32(code) {
            Some(c) => c,
            None => continue,
        };
        if c == '{' || c == '}' {
            continue;
        }
        let text = format!("{{{{{}x{}}}}}", c, c);
        let kept = format!("{}x{}", c, c);
        let expected = if white.contains(&code) { "x" } else { kept.as_str() };
        assert_eq!(parse(&text), Ok(vec![Token::Var(expected)]));
    }
}

#[test]
fn adjacent_placeholders() {
    assert_eq!(parse("{{a}}{{b}}"), Ok(vec![Token::Var("a"), Token::Var("b")]));
}

#[test]
fn empty_name() {
    assert_eq!(parse("{{}}"), Ok(vec![Token::Var("")]));
    assert_eq!(parse("{{  }}"), Ok(vec![Token::Var("")]));
}

#[test]
fn lone_braces_are_literal() {
    assert_eq!(parse("a{b}c"), Ok(vec![Token::Lit("a{b}c")]));
    assert_eq!(parse("}}"), Ok(vec![Token::Lit("}}")]));
    assert_eq!(parse("{"), Ok(vec![Token::Lit("{")]));
}

#[test]
fn opener_at_the_end() {
    let mut t = Tokenizer::new("a{{");
    assert_eq!(t.next(), Some(Ok(Token::Lit("a"))));
    assert_eq!(t.next(), Some(Err(Error::UnexpectedEndOfFile)));
    assert_eq!(t.next(), Some(Ok(Token::Lit("{{"))));
    assert_eq!(t.next(), None);
    assert_eq!(parse("a{{"), Err((Error::UnexpectedEndOfFile, vec![])));
}

#[test]
fn three_left_braces() {
    let mut t = Tokenizer::new("{{{a}}}");
    assert_eq!(t.next(), Some(Err(Error::ExpectedDoubleRightBraces(2))));
    assert_eq!(t.next(), Some(Ok(Token::Lit("{{{a}}}"))));
    assert_eq!(t.next(), None);
}

#[test]
fn offsets_count_bytes() {
    let mut t = Tokenizer::new("\u{e4}\u{2603}{{n\u{e4}me}x");
    assert_eq!(t.next(), Some(Ok(Token::Lit("\u{e4}\u{2603}"))));
    assert_eq!(t.next(), Some(Err(Error::ExpectedDoubleRightBraces(12))));
    assert_eq!(t.next(), Some(Ok(Token::Lit("{{n\u{e4}me}x"))));
    assert_eq!(t.next(), None);
}

#[test]
fn tokens_after_an_error_are_dropped() {
    assert_eq!(
        parse("a{{b}}{{c{{d}}e{{"),
        Err((Error::ExpectedDoubleRightBraces(9), vec![Error::UnexpectedEndOfFile]))
    );
}

#[test]
fn recovered_tokens_after_unterminated_placeholder() {
    assert_eq!(
        pieces("{{lorem"),
        vec![(Err(Error::UnexpectedEndOfFile), ""), (Ok(Token::Lit("{{lorem")), "{{lorem")]
    );
    assert_eq!(parse("{{lorem"), Err((Error::UnexpectedEndOfFile, vec![])));
}

#[test]
fn error_messages() {
    assert_eq!(Error::ExpectedDoubleRightBraces(7).message(), "expected \"}\" at position 7");
    assert_eq!(Error::ExpectedDoubleRightBraces(0).message(), "expected \"}\" at position 0");
    assert_eq!(
        Error::ExpectedDoubleRightBraces(1234567890).message(),
        "expected \"}\" at position 1234567890"
    );
    assert_eq!(
        Error::ExpectedDoubleRightBraces(usize::MAX).message(),
        format!("expected \"}}\" at position {}", usize::MAX)
    );
    assert_eq!(Error::UnexpectedEndOfFile.message(), "unexpected end of file");
}

#[test]
fn as_var_gives_the_name() {
    assert_eq!(Token::Var("lorem").as_var(), Some("lorem"));
    assert_eq!(Token::Lit("lorem").as_var(), None);
}

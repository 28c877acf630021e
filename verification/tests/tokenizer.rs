use fillout::template::token::{Error, Token, Tokenizer};

#[test]
fn empty() {
    let mut t = Tokenizer::new("");
    assert_eq!(t.next(), None);
}

#[test]
fn lit() {
    let mut t = Tokenizer::new("lorem");
    assert_eq!(t.next(), Some(Ok(Token::Lit("lorem"))));
    assert_eq!(t.next(), None);
}

#[test]
fn var() {
    let mut t = Tokenizer::new("{{lorem}}");
    assert_eq!(t.next(), Some(Ok(Token::Var("lorem"))));
    assert_eq!(t.next(), None);
}

#[test]
fn var_trim() {
    let mut t = Tokenizer::new("{{ lorem }}");
    assert_eq!(t.next(), Some(Ok(Token::Var("lorem"))));
    assert_eq!(t.next(), None);
}

#[test]
fn var_var() {
    let mut t = Tokenizer::new("{{lorem}}{{ipsum}}");
    assert_eq!(t.next(), Some(Ok(Token::Var("lorem"))));
    assert_eq!(t.next(), Some(Ok(Token::Var("ipsum"))));
    assert_eq!(t.next(), None);
}

#[test]
fn lit_var() {
    let mut t = Tokenizer::new("lorem{{ipsum}}");
    assert_eq!(t.next(), Some(Ok(Token::Lit("lorem"))));
    assert_eq!(t.next(), Some(Ok(Token::Var("ipsum"))));
    assert_eq!(t.next(), None);
}

#[test]
fn var_lit() {
    let mut t = Tokenizer::new("{{lorem}}ipsum");
    assert_eq!(t.next(), Some(Ok(Token::Var("lorem"))));
    assert_eq!(t.next(), Some(Ok(Token::Lit("ipsum"))));
    assert_eq!(t.next(), None);
}

#[test]
fn edrb_var() {
    let mut t = Tokenizer::new("{{lorem{{ipsum}}");
    assert_eq!(t.next(), Some(Err(Error::ExpectedDoubleRightBraces(7))));
    assert_eq!(t.next(), Some(Ok(Token::Lit("{{lorem"))));
    assert_eq!(t.next(), Some(Ok(Token::Var("ipsum"))));
    assert_eq!(t.next(), None);
}

#[test]
fn edrb_var_edrb_var() {
    let mut t = Tokenizer::new("{{lorem{{ipsum}}{{dolor{{sit}}");
    assert_eq!(t.next(), Some(Err(Error::ExpectedDoubleRightBraces(7))));
    assert_eq!(t.next(), Some(Ok(Token::Lit("{{lorem"))));
    assert_eq!(t.next(), Some(Ok(Token::Var("ipsum"))));
    assert_eq!(t.next(), Some(Err(Error::ExpectedDoubleRightBraces(23))));
    assert_eq!(t.next(), Some(Ok(Token::Lit("{{dolor"))));
    assert_eq!(t.next(), Some(Ok(Token::Var("sit"))));
    assert_eq!(t.next(), None);
}

#[test]
fn edrb_lit() {
    let mut t = Tokenizer::new("{{lorem}ipsum");
    assert_eq!(t.next(), Some(Err(Error::ExpectedDoubleRightBraces(7))));
    assert_eq!(t.next(), Some(Ok(Token::Lit("{{lorem}ipsum"))));
    assert_eq!(t.next(), None);
}

#[test]
fn ueof_lit() {
    let mut t = Tokenizer::new("{{lorem");
    assert_eq!(t.next(), Some(Err(Error::UnexpectedEndOfFile)));
    assert_eq!(t.next(), Some(Ok(Token::Lit("{{lorem"))));
    assert_eq!(t.next(), None);
}

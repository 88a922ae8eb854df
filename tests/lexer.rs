use preproc::ccerror::CcError;
use preproc::lexer::{next_token, PpToken};
use preproc::source::{Point, Source, SourceChar};
use preproc::splice::{peek_spliced, peek_spliced_n};

#[test]
fn parses_operator() -> Result<(), CcError> {
    let mut source = Source::new();
    let text = vec![' ', '=', '='];

    source.push_data("abc", text);

    let mut emit = Vec::new();
    let token = next_token(&mut source, &mut emit)?;

    assert_eq!(emit, vec![' ']);
    assert_eq!(token, PpToken::Equal);

    Ok(())
}

#[test]
fn parses_spliced() -> Result<(), CcError> {
    let mut source = Source::new();
    let text = vec![' ', '=', '\\', '\n', '='];

    source.push_data("abc", text);

    let mut emit = Vec::new();
    let token = next_token(&mut source, &mut emit)?;

    assert_eq!(emit, vec![' ']);
    assert_eq!(token, PpToken::Equal);

    Ok(())
}

#[test]
fn skips_block_comment() -> Result<(), CcError> {
    let mut source = Source::new();
    let text = vec![' ', '/', '*', '\n', '*', '/', '=', '='];

    source.push_data("abc", text);

    let mut emit = Vec::new();
    let token = next_token(&mut source, &mut emit)?;

    assert_eq!(emit, vec![' ', ' ']);
    assert_eq!(token, PpToken::Equal);

    let text = vec![' ', '/', '*', '/', '\n', '*', '/', '=', '='];

    source.push_data("abc", text);

    let mut emit = Vec::new();
    let token = next_token(&mut source, &mut emit)?;

    assert_eq!(emit, vec![' ', ' ']);
    assert_eq!(token, PpToken::Equal);
    Ok(())
}

#[test]
fn skips_line_spliced_block_comment() -> Result<(), CcError> {
    let mut source = Source::new();
    let text = vec![' ', '/', '*', '\n', '*', '\\', '\n', '/', '=', '='];

    source.push_data("abc", text);

    let mut emit = Vec::new();
    let token = next_token(&mut source, &mut emit)?;

    assert_eq!(emit, vec![' ', ' ']);
    assert_eq!(token, PpToken::Equal);

    Ok(())
}

#[test]
fn skips_line_comment() -> Result<(), CcError> {
    let mut source = Source::new();
    let text = vec![' ', '/', '/',' ', ' ', '\n', '=', '='];

    source.push_data("abc", text);

    let mut emit = Vec::new();
    let token = next_token(&mut source, &mut emit)?;

    assert_eq!(emit, vec![' ', ' ']);
    assert_eq!(token, PpToken::Equal);

    Ok(())
}

#[test]
fn skips_line_spliced_line_comment() -> Result<(), CcError> {
    let mut source = Source::new();
    let text = vec![' ', '/', '\\', '\n', '/', ' ', '\n', '=', '='];

    source.push_data("abc", text);

    let mut emit = Vec::new();
    let token = next_token(&mut source, &mut emit)?;

    assert_eq!(emit, vec![' ', ' ']);
    assert_eq!(token, PpToken::Equal);

    let mut source = Source::new();
    let text = vec!['/', '/', ' ', '*', '\\', '\n', '=', '\n', '*'];

    source.push_data("abc", text);

    let mut emit = Vec::new();
    let token = next_token(&mut source, &mut emit)?;

    assert_eq!(emit, vec![' ']);
    assert_eq!(token, PpToken::Star);

    Ok(())
}

#[test]
fn peeks_past_splices() -> Result<(), CcError> {
    let mut source = Source::new();
    let text = vec!['\\', '\n', '\\', '\n', '*'];

    source.push_data("abc", text);

    assert!(matches!(peek_spliced(&source), Some(SourceChar{ch: '*', pt: Point { file: 0, line: 3, col: 1 }, .. })));

    Ok(())
}

#[test]
fn peeks_past_multiple_splices() -> Result<(), CcError> {
    let mut source = Source::new();
    let text = vec!['\\', '\n', '+', '\\', '\n', '*'];

    source.push_data("abc", text);

    assert!(matches!(peek_spliced(&source), Some(SourceChar{ch: '+', pt: Point { file: 0, line: 2, col: 1 }, .. })));
    assert!(matches!(peek_spliced_n(&source, 1), Some(SourceChar{ch: '*', pt: Point { file: 0, line: 3, col: 1 }, .. })));

    Ok(())
}
#[test]
fn identifier() -> Result<(), CcError> {
    let mut source = Source::new();
    let text = vec!['a', 'b', 'c', '+', 'x'];

    source.push_data("abc", text);

    let mut emit = Vec::new();

    let id = PpToken::Identifier("abc".to_string());
    assert_eq!(next_token(&mut source, &mut emit), Ok(id));
    assert_eq!(next_token(&mut source, &mut emit), Ok(PpToken::Add));
    let id = PpToken::Identifier("x".to_string());
    assert_eq!(next_token(&mut source, &mut emit), Ok(id));

    Ok(())
}

#[test]
fn dot_is_an_operator() -> Result<(), CcError> {
    let mut source = Source::new();

    //
    // '.', not followed by a digit, is an operator.
    //         
    let text = vec!['.', 'b'];

    source.push_data("abc", text);

    let mut emit = Vec::new();

    assert_eq!(next_token(&mut source, &mut emit), Ok(PpToken::Dot));
    let id = PpToken::Identifier("b".to_string());
    assert_eq!(next_token(&mut source, &mut emit), Ok(id));
    Ok(())
}

#[test]
fn numbers() -> Result<(), CcError> {
    //
    // . followed by a digit starts a pp-number
    //
    let mut source = Source::new();
    let text = vec!['.', '3', '1', 'e', '-', '0', ','];

    source.push_data("abc", text);

    let mut emit = Vec::new();
    
    let id = PpToken::Number(".31e-0".to_string());
    assert_eq!(next_token(&mut source, &mut emit), Ok(id));
    assert_eq!(next_token(&mut source, &mut emit), Ok(PpToken::Comma));
    
    //
    // A digit starts a pp-number
    //
    let mut source = Source::new();
    let text = vec!['3', '1', '4', '1', '6', ','];

    source.push_data("abc", text);

    let mut emit = Vec::new();
    
    let id = PpToken::Number("31416".to_string());
    assert_eq!(next_token(&mut source, &mut emit), Ok(id));
    assert_eq!(next_token(&mut source, &mut emit), Ok(PpToken::Comma));
    Ok(())
}

#[test]
fn char_const() -> Result<(), CcError> {
    let mut source = Source::new();
    let text = vec!['\'', 'a', '\'', ','];

    source.push_data("abc", text);

    let mut emit = Vec::new();
    
    let id = PpToken::CharLiteral("a".to_string());
    assert_eq!(next_token(&mut source, &mut emit), Ok(id));
    assert_eq!(next_token(&mut source, &mut emit), Ok(PpToken::Comma));

    Ok(())
}

#[test]
fn unterminated_char_const() -> Result<(), CcError> {
    let mut source = Source::new();
    let text = vec!['\'', 'a', '\n', ','];

    source.push_data("abc", text);

    let mut emit = Vec::new();
    
    assert!(next_token(&mut source, &mut emit).is_err());
    assert_eq!(next_token(&mut source, &mut emit), Ok(PpToken::Comma));

    Ok(())
}

#[test]
fn char_const_escaped_quote() -> Result<(), CcError> {
    let mut source = Source::new();
    let text = vec!['\'', '\\', '\'', '\'', ','];

    source.push_data("abc", text);

    let mut emit = Vec::new();
    
    let id = PpToken::CharLiteral("\\'".to_string());
    assert_eq!(next_token(&mut source, &mut emit), Ok(id));
    assert_eq!(next_token(&mut source, &mut emit), Ok(PpToken::Comma));

    Ok(())
}

#[test]
fn str_const() -> Result<(), CcError> {
    let mut source = Source::new();
    let text = vec!['\"', 'a', 'b', 'c', '\"', ','];

    source.push_data("abc", text);

    let mut emit = Vec::new();
    
    let id = PpToken::StringLiteral("abc".to_string());
    assert_eq!(next_token(&mut source, &mut emit), Ok(id));
    assert_eq!(next_token(&mut source, &mut emit), Ok(PpToken::Comma));

    Ok(())
}

#[test]
fn unterminated_str_const() -> Result<(), CcError> {
    let mut source = Source::new();
    let text = vec!['\"', 'a', '\n', ','];

    source.push_data("abc", text);

    let mut emit = Vec::new();
    
    assert!(next_token(&mut source, &mut emit).is_err());
    assert_eq!(next_token(&mut source, &mut emit), Ok(PpToken::Comma));

    Ok(())
}

#[test]
fn str_const_escaped_quote() -> Result<(), CcError> {
    let mut source = Source::new();
    let text = vec!['"', '\\', '"', '"', ','];

    source.push_data("abc", text);

    let mut emit = Vec::new();
    
    let id = PpToken::StringLiteral("\\\"".to_string());
    assert_eq!(next_token(&mut source, &mut emit), Ok(id));
    assert_eq!(next_token(&mut source, &mut emit), Ok(PpToken::Comma));

    Ok(())
}

#[test]
fn random_character_are_other() -> Result<(), CcError> {
    let mut source = Source::new();
    let text = vec!['$', ','];

    source.push_data("abc", text);

    let mut emit = Vec::new();
    
    let id = PpToken::Other('$');
    assert_eq!(next_token(&mut source, &mut emit), Ok(id));
    assert_eq!(next_token(&mut source, &mut emit), Ok(PpToken::Comma));

    Ok(())
}


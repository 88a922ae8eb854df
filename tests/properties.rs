use preproc::ccerror::CcError;
use preproc::lexer::{next_token, next_token_with_newline, PpToken};
use preproc::source::{Point, Source, SourceChar};
use preproc::splice::{next_spliced, peek_spliced_n};

fn source_of(text: &str) -> Source {
    let mut source = Source::new();
    source.push_data("t.c", text.chars().collect());
    source
}

fn tokens_of(text: &str) -> Vec<Result<PpToken, CcError>> {
    let mut source = source_of(text);
    let mut emit = Vec::new();
    let mut out = Vec::new();
    loop {
        let t = next_token(&mut source, &mut emit);
        if t == Ok(PpToken::Eof) {
            return out;
        }
        out.push(t);
    }
}

fn ident(s: &str) -> Result<PpToken, CcError> {
    Ok(PpToken::Identifier(s.to_string()))
}

#[test]
fn eof_repeats() {
    let mut source = source_of("a + 1");
    let mut emit = Vec::new();
    let mut n = 0;
    while next_token(&mut source, &mut emit) != Ok(PpToken::Eof) {
        n += 1;
        assert!(n <= 3);
    }
    assert_eq!(n, 3);
    for _ in 0..5 {
        assert_eq!(next_token(&mut source, &mut emit), Ok(PpToken::Eof));
    }
    assert_eq!(emit, vec![' ', ' ']);
}

#[test]
fn empty_input_is_eof() {
    let mut source = Source::new();
    let mut emit = Vec::new();
    assert_eq!(next_token(&mut source, &mut emit), Ok(PpToken::Eof));
    source.push_data("empty", Vec::new());
    assert_eq!(next_token(&mut source, &mut emit), Ok(PpToken::Eof));
    assert!(emit.is_empty());
}

#[test]
fn trivia_round_trip() {
    let mut source = source_of(" \ta\n  /* long\n comment */ b // tail\nc");
    let mut emit = Vec::new();
    assert_eq!(next_token(&mut source, &mut emit), ident("a"));
    assert_eq!(emit, vec![' ', '\t']);
    assert_eq!(next_token(&mut source, &mut emit), ident("b"));
    assert_eq!(emit, vec![' ', '\t', '\n', ' ', ' ', ' ', ' ']);
    assert_eq!(next_token(&mut source, &mut emit), ident("c"));
    assert_eq!(emit, vec![' ', '\t', '\n', ' ', ' ', ' ', ' ', ' ', ' ']);
}

#[test]
fn line_endings_normalize() {
    for text in ["a\nb", "a\rb", "a\r\nb", "a\n\rb"] {
        let mut source = source_of(text);
        let mut emit = Vec::new();
        assert_eq!(next_token(&mut source, &mut emit), ident("a"));
        assert!(matches!(
            source.peek_n(1),
            Some(SourceChar { ch: 'b', pt: Point { file: 0, line: 2, col: 1 }, switched: false })
        ));
        assert_eq!(next_token(&mut source, &mut emit), ident("b"));
        assert_eq!(emit, vec!['\n']);
        assert_eq!(next_token(&mut source, &mut emit), Ok(PpToken::Eof));
    }
}

#[test]
fn splice_joins_operator() {
    assert_eq!(tokens_of("a=\\\n="), vec![ident("a"), Ok(PpToken::Equal)]);
    assert_eq!(tokens_of("a=="), vec![ident("a"), Ok(PpToken::Equal)]);
    assert_eq!(tokens_of("ab\\\ncd"), vec![ident("abcd")]);
}

#[test]
fn dot_disambiguation() {
    assert_eq!(tokens_of(".b"), vec![Ok(PpToken::Dot), ident("b")]);
    assert_eq!(tokens_of(".31e-0"), vec![Ok(PpToken::Number(".31e-0".to_string()))]);
    assert_eq!(tokens_of("1e+5x.y"), vec![Ok(PpToken::Number("1e+5x.y".to_string()))]);
    assert_eq!(
        tokens_of("1+5"),
        vec![
            Ok(PpToken::Number("1".to_string())),
            Ok(PpToken::Add),
            Ok(PpToken::Number("5".to_string()))
        ]
    );
}

#[test]
fn longest_match_punctuators() {
    assert_eq!(tokens_of("<<="), vec![Ok(PpToken::LeftShiftAssign)]);
    assert_eq!(tokens_of(">>=>"), vec![Ok(PpToken::RightShiftAssign), Ok(PpToken::Greater)]);
    assert_eq!(tokens_of("--"), vec![Ok(PpToken::Decrement)]);
    assert_eq!(tokens_of("-+"), vec![Ok(PpToken::Subtract), Ok(PpToken::Add)]);
    assert_eq!(tokens_of("->"), vec![Ok(PpToken::Arrow)]);
    assert_eq!(tokens_of("&&&"), vec![Ok(PpToken::LogicalAnd), Ok(PpToken::Ampersand)]);
    assert_eq!(tokens_of("/="), vec![Ok(PpToken::DivideAssign)]);
    assert_eq!(tokens_of("/ x"), vec![Ok(PpToken::Divide), ident("x")]);
}

#[test]
fn comment_collapses_to_one_space() {
    let mut source = source_of("/* x \n y */==");
    let mut emit = Vec::new();
    assert_eq!(next_token(&mut source, &mut emit), Ok(PpToken::Equal));
    assert_eq!(emit, vec![' ']);
}

#[test]
fn unterminated_literal_recovers() {
    let mut source = source_of("'a\n,");
    let mut emit = Vec::new();
    let err = next_token(&mut source, &mut emit).unwrap_err();
    assert_eq!(err.loc, Some(Point { file: 0, line: 1, col: 1 }));
    assert_eq!(err.what, "unterminated character constant");
    assert_eq!(next_token(&mut source, &mut emit), Ok(PpToken::Comma));
}

#[test]
fn unterminated_string_reports_opening_quote() {
    let mut source = source_of("x \"ab");
    let mut emit = Vec::new();
    assert_eq!(next_token(&mut source, &mut emit), ident("x"));
    let err = next_token(&mut source, &mut emit).unwrap_err();
    assert_eq!(err, CcError {
        what: "unterminated string constant".to_string(),
        loc: Some(Point { file: 0, line: 1, col: 3 }),
    });
    assert_eq!(next_token(&mut source, &mut emit), Ok(PpToken::Eof));
}

#[test]
fn escape_at_end_of_input_is_unterminated() {
    let mut source = source_of("\"a\\");
    let mut emit = Vec::new();
    let err = next_token(&mut source, &mut emit).unwrap_err();
    assert_eq!(err.what, "unterminated string constant");
    assert_eq!(next_token(&mut source, &mut emit), Ok(PpToken::Eof));
}

#[test]
fn unterminated_block_comment() {
    let mut source = source_of("a\n  /* never */ closed /");
    let mut emit = Vec::new();
    assert_eq!(next_token(&mut source, &mut emit), ident("a"));
    assert_eq!(next_token(&mut source, &mut emit), ident("closed"));
    let mut source = source_of("a\n  /* never closed *");
    assert_eq!(next_token(&mut source, &mut emit), ident("a"));
    let err = next_token(&mut source, &mut emit).unwrap_err();
    assert_eq!(err.what, "unterminated block comment");
    assert_eq!(err.loc, Some(Point { file: 0, line: 2, col: 3 }));
    assert_eq!(next_token(&mut source, &mut emit), Ok(PpToken::Eof));
}

#[test]
fn escapes_are_kept_verbatim() {
    assert_eq!(tokens_of("'\\012'"), vec![Ok(PpToken::CharLiteral("\\012".to_string()))]);
    assert_eq!(tokens_of("\"\\x4Fg\""), vec![Ok(PpToken::StringLiteral("\\x4Fg".to_string()))]);
    assert_eq!(tokens_of("'\\\\'"), vec![Ok(PpToken::CharLiteral("\\\\".to_string()))]);
    assert_eq!(tokens_of("\"it's\""), vec![Ok(PpToken::StringLiteral("it's".to_string()))]);
}

#[test]
fn stray_backslash_is_other() {
    assert_eq!(tokens_of("\\ a"), vec![Ok(PpToken::Other('\\')), ident("a")]);
    assert_eq!(tokens_of("@`"), vec![Ok(PpToken::Other('@')), Ok(PpToken::Other('`'))]);
}

#[test]
fn newline_flag() {
    let mut source = source_of("a\n# b");
    let mut emit = Vec::new();
    assert_eq!(next_token_with_newline(&mut source, &mut emit), (ident("a"), false));
    assert_eq!(next_token_with_newline(&mut source, &mut emit), (Ok(PpToken::Hash), true));
    assert_eq!(next_token_with_newline(&mut source, &mut emit), (ident("b"), false));
}

#[test]
fn nested_files_resume_parent() {
    let mut source = Source::new();
    source.push_data("A", vec!['a', '\n', 'b']);
    assert!(matches!(source.next(), Some(SourceChar { ch: 'a', switched: true, .. })));
    assert!(matches!(source.next(), Some(SourceChar { ch: '\n', switched: false, .. })));
    source.push_data("B", vec!['c', 'd', 'e']);
    assert!(matches!(source.next(), Some(SourceChar { ch: 'c', pt: Point { file: 1, line: 1, col: 1 }, switched: true })));
    assert!(matches!(source.next(), Some(SourceChar { ch: 'd', switched: false, .. })));
    assert!(matches!(source.next(), Some(SourceChar { ch: 'e', switched: false, .. })));
    assert!(matches!(source.next(), Some(SourceChar { ch: 'b', pt: Point { file: 0, line: 2, col: 1 }, switched: true })));
    assert!(source.next().is_none());
    assert!(source.next().is_none());
}

#[test]
fn empty_nested_file_marks_parent() {
    let mut source = Source::new();
    source.push_data("A", vec!['x', 'y']);
    assert!(matches!(source.next(), Some(SourceChar { ch: 'x', switched: true, .. })));
    source.push_data("E", Vec::new());
    assert!(matches!(source.peek(), Some(SourceChar { ch: 'y', pt: Point { file: 0, line: 1, col: 2 }, switched: true })));
    assert_eq!(source.file_count(), 2);
}

#[test]
fn cached_file_is_reused() {
    let mut source = Source::new();
    assert!(!source.push_loaded("A"));
    source.push_data("A", vec!['p', 'q']);
    source.push_data("B", vec!['r']);
    assert!(source.push_loaded("A"));
    assert!(matches!(source.next(), Some(SourceChar { ch: 'p', pt: Point { file: 0, line: 1, col: 1 }, switched: true })));
    assert!(matches!(source.next(), Some(SourceChar { ch: 'q', pt: Point { file: 0, line: 1, col: 2 }, switched: false })));
    assert!(matches!(source.next(), Some(SourceChar { ch: 'r', pt: Point { file: 1, line: 1, col: 1 }, switched: true })));
    assert!(matches!(source.next(), Some(SourceChar { ch: 'p', pt: Point { file: 0, line: 1, col: 1 }, switched: true })));
    assert_eq!(source.file_count(), 2);
}

#[test]
fn filenames_by_index() {
    let mut source = Source::new();
    source.push_data("main.c", vec!['a']);
    source.push_data("inc.h", vec!['b']);
    assert_eq!(source.get_filename(0), Some("main.c".to_string()));
    assert_eq!(source.get_filename(1), Some("inc.h".to_string()));
    assert_eq!(source.get_filename(2), None);
}

#[test]
fn peek_n_past_end_is_none() {
    let source = source_of("ab");
    assert!(matches!(source.peek_n(1), Some(SourceChar { ch: 'b', .. })));
    assert!(source.peek_n(2).is_none());
    assert!(source.peek_n(100).is_none());
}

#[test]
fn spliced_reading_skips_splices() {
    let mut source = source_of("a\\\n\\\nb\\c");
    assert!(matches!(peek_spliced_n(&source, 1), Some(SourceChar { ch: 'b', pt: Point { line: 3, col: 1, .. }, .. })));
    assert!(matches!(peek_spliced_n(&source, 2), Some(SourceChar { ch: '\\', .. })));
    assert!(matches!(next_spliced(&mut source), Some(SourceChar { ch: 'a', .. })));
    assert!(matches!(next_spliced(&mut source), Some(SourceChar { ch: 'b', .. })));
    assert!(matches!(next_spliced(&mut source), Some(SourceChar { ch: '\\', .. })));
    assert!(matches!(next_spliced(&mut source), Some(SourceChar { ch: 'c', .. })));
    assert!(next_spliced(&mut source).is_none());
}

#[test]
fn error_constructors() {
    let e = CcError::new("boom".to_string());
    assert_eq!(e, CcError { what: "boom".to_string(), loc: None });
    let e = CcError::from_str("lit");
    assert_eq!(e.what, "lit");
    assert_eq!(e.loc, None);
    let pt = Point { file: 2, line: 3, col: 4 };
    let e = CcError::err_with_loc("here".to_string(), pt);
    assert_eq!(e.loc, Some(pt));
}

#[test]
fn raw_stream_after_tokens() {
    let mut source = source_of("abc+x");
    let mut emit = Vec::new();
    assert_eq!(next_token(&mut source, &mut emit), ident("abc"));
    assert!(matches!(source.peek(), Some(SourceChar { ch: '+', pt: Point { file: 0, line: 1, col: 4 }, .. })));
    let mut source = source_of("$,");
    assert_eq!(next_token(&mut source, &mut emit), Ok(PpToken::Other('$')));
    assert!(matches!(source.peek(), Some(SourceChar { ch: ',', pt: Point { file: 0, line: 1, col: 2 }, .. })));
    let mut source = source_of("31416,");
    assert_eq!(next_token(&mut source, &mut emit), Ok(PpToken::Number("31416".to_string())));
    assert!(matches!(source.peek(), Some(SourceChar { ch: ',', pt: Point { file: 0, line: 1, col: 6 }, .. })));
}

#[test]
fn splices_after_a_token_stay_unread() {
    let mut source = source_of("ab\\\n");
    let mut emit = Vec::new();
    assert_eq!(next_token(&mut source, &mut emit), ident("ab"));
    assert!(matches!(source.peek(), Some(SourceChar { ch: '\\', pt: Point { file: 0, line: 1, col: 3 }, .. })));
    assert_eq!(next_token(&mut source, &mut emit), Ok(PpToken::Eof));
}

#[test]
fn comment_to_end_reads_all_input() {
    let mut source = source_of("/* x \\\n");
    let mut emit = Vec::new();
    assert!(next_token(&mut source, &mut emit).is_err());
    assert!(source.peek().is_none());
    let mut source = source_of("// x\\\n");
    assert_eq!(next_token(&mut source, &mut emit), Ok(PpToken::Eof));
    assert!(source.peek().is_none());
    let mut source = source_of("/*\n*\\\n/==");
    assert_eq!(next_token(&mut source, &mut emit), Ok(PpToken::Equal));
    assert!(source.peek().is_none());
}

#[test]
fn escape_extent() {
    assert_eq!(tokens_of("'\\ab'"), vec![Ok(PpToken::CharLiteral("\\ab".to_string()))]);
    assert_eq!(tokens_of("'\\0'"), vec![Ok(PpToken::CharLiteral("\\0".to_string()))]);
    let mut source = source_of("'\\x41");
    let mut emit = Vec::new();
    let err = next_token(&mut source, &mut emit).unwrap_err();
    assert_eq!(err.what, "unterminated character constant");
    assert_eq!(err.loc, Some(Point { file: 0, line: 1, col: 1 }));
}

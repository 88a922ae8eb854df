//! The pp-token scanner. `lex` states what one scan does to the logical
//! characters of a source (its characters with line splices removed): the
//! token or error, how many characters are consumed, and the trivia that
//! is emitted. `next_token` is proved to do exactly that.
use vstd::prelude::*;

use crate::ccerror::CcError;
use crate::punct::{
    lemma_walk_comment, lemma_walk_len, lemma_walk_punct, longest_punct, lookup_op, punct_start,
};
use crate::source::{Point, Source, SourceChar};
use crate::splice::{
    lemma_raw_add, logical, next_spliced, peek_spliced, peek_spliced_n, raw_after,
};

verus! {

/// A preprocessing token.
#[derive(Debug, PartialEq, Clone, Eq, Hash)]
pub enum PpToken {
    Identifier(String),
    StringLiteral(String),
    Number(String),
    CharLiteral(String),
    // punctuators
    Hash,
    Add,
    Subtract,
    Star,
    Divide,
    Mod,
    Increment,
    Decrement,
    Equal,
    NotEqual,
    Less,
    LessEqual,
    Greater,
    GreaterEqual,
    LogicalNot,
    LogicalAnd,
    LogicalOr,
    BitNot,
    Ampersand,
    BitOr,
    BitXor,
    ShiftLeft,
    ShiftRight,
    Assign,
    AddAssign,
    SubtractAssign,
    MultiplyAssign,
    DivideAssign,
    ModAssign,
    AndAssign,
    OrAssign,
    XorAssign,
    LeftShiftAssign,
    RightShiftAssign,
    LeftBracket,
    RightBracket,
    LeftParen,
    RightParen,
    LeftBrace,
    RightBrace,
    Dot,
    Arrow,
    Semicolon,
    Question,
    Colon,
    Comma,
    /// Any character that's not part of another token.
    Other(char),
    /// The opener of a block comment; never returned by the scanner.
    BlockComment,
    /// The opener of a line comment; never returned by the scanner.
    LineComment,
    /// The end of the input.
    Eof,
}

/// What a token holds, with its text as a sequence of characters.
pub ghost enum Lexeme {
    Identifier(Seq<char>),
    StringLiteral(Seq<char>),
    Number(Seq<char>),
    CharLiteral(Seq<char>),
    /// A token that holds no text.
    Plain(PpToken),
}

impl View for PpToken {
    type V = Lexeme;

    open spec fn view(&self) -> Lexeme {
        match self {
            PpToken::Identifier(s) => Lexeme::Identifier(s@),
            PpToken::StringLiteral(s) => Lexeme::StringLiteral(s@),
            PpToken::Number(s) => Lexeme::Number(s@),
            PpToken::CharLiteral(s) => Lexeme::CharLiteral(s@),
            _ => Lexeme::Plain(*self),
        }
    }
}

/// What a call of the scanner yields: a token, or a message with the place
/// where the broken construct began.
pub open spec fn outcome(r: &Result<PpToken, CcError>) -> Result<Lexeme, (Seq<char>, Option<Point>)> {
    match r {
        Ok(t) => Ok(t@),
        Err(e) => Err((e.what@, e.loc)),
    }
}

/// `char::is_ascii_whitespace`: space, tab, line feed, form feed, carriage return.
pub open spec fn is_space(c: char) -> bool {
    c == ' ' || c == '\t' || c == '\n' || c == '\x0C' || c == '\r'
}

/// An ASCII letter.
pub open spec fn is_alpha(c: char) -> bool {
    ('a' <= c && c <= 'z') || ('A' <= c && c <= 'Z')
}

/// An ASCII decimal digit.
pub open spec fn is_digit(c: char) -> bool {
    '0' <= c && c <= '9'
}

/// An ASCII hexadecimal digit, of either case.
pub open spec fn is_hex_digit(c: char) -> bool {
    is_digit(c) || ('a' <= c && c <= 'f') || ('A' <= c && c <= 'F')
}

/// A letter or `_`, which starts an identifier.
pub open spec fn is_ident_start(c: char) -> bool {
    is_alpha(c) || c == '_'
}

/// A letter, digit or `_`, which continues an identifier.
pub open spec fn is_ident_char(c: char) -> bool {
    is_alpha(c) || is_digit(c) || c == '_'
}

/// The bare characters of `s`.
pub open spec fn chars_of(s: Seq<SourceChar>) -> Seq<char> {
    s.map_values(|c: SourceChar| c.ch)
}

/// The identifier characters at the start of `s`.
pub open spec fn ident_text(s: Seq<SourceChar>) -> Seq<char>
    decreases s.len(),
{
    if s.len() > 0 && is_ident_char(s[0].ch) {
        seq![s[0].ch] + ident_text(s.skip(1))
    } else {
        seq![]
    }
}

/// A digit, or a dot followed by a digit, starts a pp-number.
pub open spec fn starts_number(s: Seq<SourceChar>) -> bool {
    s.len() > 0 && (is_digit(s[0].ch) || (s[0].ch == '.' && s.len() > 1 && is_digit(s[1].ch)))
}

/// The pp-number at the start of `s`: letters, digits, `_` and `.`, where
/// an `e` or `E` may be followed by a sign.
pub open spec fn number_text(s: Seq<SourceChar>) -> Seq<char>
    decreases s.len(),
{
    if s.len() == 0 {
        seq![]
    } else if s[0].ch == 'e' || s[0].ch == 'E' {
        if s.len() > 1 && (s[1].ch == '+' || s[1].ch == '-') {
            seq![s[0].ch, s[1].ch] + number_text(s.skip(2))
        } else {
            seq![s[0].ch] + number_text(s.skip(1))
        }
    } else if is_ident_char(s[0].ch) || s[0].ch == '.' {
        seq![s[0].ch] + number_text(s.skip(1))
    } else {
        seq![]
    }
}

/// Scans the body of a literal closed by `q`: how many characters it has,
/// and whether the closing quote follows them. A backslash takes the next
/// character with it; a newline or the end of input stops the scan.
pub open spec fn lit_scan(s: Seq<SourceChar>, q: char) -> (nat, bool)
    decreases s.len(),
{
    if s.len() == 0 || s[0].ch == '\n' {
        (0, false)
    } else if s[0].ch == q {
        (0, true)
    } else if s[0].ch == '\\' && s.len() >= 2 {
        let r = lit_scan(s.skip(2), q);
        (r.0 + 2, r.1)
    } else {
        let r = lit_scan(s.skip(1), q);
        (r.0 + 1, r.1)
    }
}

/// The length of a block comment's rest up to and including the `*/`
/// that closes it; `star` says whether the character before `s` was a
/// `*` of the comment's body.
pub open spec fn block_scan(s: Seq<SourceChar>, star: bool) -> Option<nat>
    decreases s.len(),
{
    if s.len() == 0 {
        None
    } else if s[0].ch == '/' && star {
        Some(1)
    } else {
        match block_scan(s.skip(1), s[0].ch == '*') {
            Some(n) => Some(n + 1),
            None => None,
        }
    }
}

/// The length of a line comment's rest, through the newline that ends it.
pub open spec fn line_scan(s: Seq<SourceChar>) -> nat
    decreases s.len(),
{
    if s.len() == 0 {
        0
    } else if s[0].ch == '\n' {
        1
    } else {
        line_scan(s.skip(1)) + 1
    }
}

/// Whether a line comment's rest is ended by a newline, not by the end
/// of the input.
pub open spec fn line_closed(s: Seq<SourceChar>) -> bool
    decreases s.len(),
{
    if s.len() == 0 {
        false
    } else if s[0].ch == '\n' {
        true
    } else {
        line_closed(s.skip(1))
    }
}

/// The message for a literal opened by `q` that does not close.
pub open spec fn unterminated_msg(q: char) -> Seq<char> {
    if q == '\'' {
        "unterminated character constant"@
    } else {
        "unterminated string constant"@
    }
}

/// The message for a block comment that does not close.
pub open spec fn block_msg() -> Seq<char> {
    "unterminated block comment"@
}

/// One step of the scanner over the characters `s`: the token or error,
/// how many characters it consumes, the trivia it emits, and where the
/// token itself begins. `to_end` marks a scan in which a comment ran to
/// the end of the input, which reads the raw input to its very end.
pub ghost struct Scan {
    pub result: Result<Lexeme, (Seq<char>, Option<Point>)>,
    pub consumed: nat,
    pub trivia: Seq<char>,
    pub start: nat,
    pub to_end: bool,
}

/// A scan that has first consumed `n` characters of trivia, emitting `t`.
pub open spec fn after_trivia(r: Scan, n: nat, t: Seq<char>) -> Scan {
    Scan {
        result: r.result,
        consumed: r.consumed + n,
        trivia: t + r.trivia,
        start: r.start + n,
        to_end: r.to_end,
    }
}

/// A scan that yields `result` at once, consuming `n` characters.
pub open spec fn token_scan(result: Result<Lexeme, (Seq<char>, Option<Point>)>, n: nat) -> Scan {
    Scan { result, consumed: n, trivia: seq![], start: 0, to_end: false }
}

/// What a literal closed by `q` yields, where `s` follows its opening
/// quote at `pt`.
pub open spec fn lit_outcome(s: Seq<SourceChar>, q: char, pt: Point) -> Result<
    Lexeme,
    (Seq<char>, Option<Point>),
> {
    let r = lit_scan(s, q);
    let body = chars_of(s.take(r.0 as int));
    if !r.1 {
        Err((unterminated_msg(q), Some(pt)))
    } else if q == '\'' {
        Ok(Lexeme::CharLiteral(body))
    } else {
        Ok(Lexeme::StringLiteral(body))
    }
}

/// How much of `s` a literal closed by `q` consumes: its body, and the
/// closing quote where there is one.
pub open spec fn lit_consumed(s: Seq<SourceChar>, q: char) -> nat {
    let r = lit_scan(s, q);
    if r.1 {
        r.0 + 1
    } else {
        r.0
    }
}

/// A character or string literal; `s` starts with its opening quote.
pub open spec fn literal_scan(s: Seq<SourceChar>) -> Scan
    recommends
        s.len() > 0,
{
    token_scan(lit_outcome(s.skip(1), s[0].ch, s[0].pt), lit_consumed(s.skip(1), s[0].ch) + 1)
}

/// The next pp-token of `s`, after whitespace and comments.
pub open spec fn lex(s: Seq<SourceChar>) -> Scan
    decreases s.len(),
{
    if s.len() == 0 {
        token_scan(Ok(Lexeme::Plain(PpToken::Eof)), 0)
    } else if is_space(s[0].ch) {
        after_trivia(lex(s.skip(1)), 1, seq![s[0].ch])
    } else if is_ident_start(s[0].ch) {
        let t = ident_text(s);
        token_scan(Ok(Lexeme::Identifier(t)), t.len())
    } else if starts_number(s) {
        let t = number_text(s);
        token_scan(Ok(Lexeme::Number(t)), t.len())
    } else if s[0].ch == '\'' || s[0].ch == '"' {
        literal_scan(s)
    } else if punct_start(s[0].ch) is Some {
        let (t, k) = longest_punct(s);
        proof {
            lemma_walk_len(s.skip(1), punct_start(s[0].ch)->0);
        }
        if t == PpToken::BlockComment {
            let rest = s.skip(k as int);
            match block_scan(rest, false) {
                Some(e) => {
                    proof {
                        lemma_block_scan_len(rest, false);
                    }
                    after_trivia(lex(rest.skip(e as int)), k + e, seq![' '])
                },
                None => Scan {
                    to_end: true,
                    ..token_scan(Err((block_msg(), Some(s[0].pt))), s.len())
                },
            }
        } else if t == PpToken::LineComment {
            let rest = s.skip(k as int);
            let e = line_scan(rest);
            proof {
                lemma_line_scan_len(rest);
            }
            let r = after_trivia(lex(rest.skip(e as int)), k + e, seq![' ']);
            if line_closed(rest) {
                r
            } else {
                Scan { to_end: true, ..r }
            }
        } else {
            token_scan(Ok(Lexeme::Plain(t)), k)
        }
    } else {
        token_scan(Ok(Lexeme::Plain(PpToken::Other(s[0].ch))), 1)
    }
}

/// A closed block comment ends within what is there.
pub proof fn lemma_block_scan_len(s: Seq<SourceChar>, star: bool)
    ensures
        block_scan(s, star) matches Some(n) ==> 1 <= n <= s.len(),
    decreases s.len(),
{
    if s.len() > 0 {
        lemma_block_scan_len(s.skip(1), s[0].ch == '*');
    }
}

/// A literal's body lies within what is there, and a closed one is
/// followed by its quote.
pub proof fn lemma_lit_scan_len(s: Seq<SourceChar>, q: char)
    ensures
        lit_scan(s, q).0 <= s.len(),
        lit_scan(s, q).1 ==> lit_scan(s, q).0 < s.len() && s[lit_scan(s, q).0 as int].ch == q,
    decreases s.len(),
{
    if s.len() == 0 || s[0].ch == '\n' || s[0].ch == q {
    } else if s[0].ch == '\\' && s.len() >= 2 {
        lemma_lit_scan_len(s.skip(2), q);
    } else {
        lemma_lit_scan_len(s.skip(1), q);
    }
}

/// A line comment ends within what is there.
pub proof fn lemma_line_scan_len(s: Seq<SourceChar>)
    ensures
        line_scan(s) <= s.len(),
        s.len() > 0 ==> line_scan(s) >= 1,
    decreases s.len(),
{
    if s.len() > 0 {
        lemma_line_scan_len(s.skip(1));
    }
}

/// `b` is `a` read further: the same files, still well formed.
pub open spec fn same_files(a: &Source, b: &Source) -> bool {
    &&& b.wf()
    &&& b.texts() == a.texts()
    &&& b.names() == a.names()
}

fn is_space_char(c: char) -> (r: bool)
    ensures
        r == is_space(c),
{
    c == ' ' || c == '\t' || c == '\n' || c == '\x0C' || c == '\r'
}

fn is_digit_char(c: char) -> (r: bool)
    ensures
        r == is_digit(c),
{
    '0' <= c && c <= '9'
}

fn is_hex_digit_char(c: char) -> (r: bool)
    ensures
        r == is_hex_digit(c),
{
    ('0' <= c && c <= '9') || ('a' <= c && c <= 'f') || ('A' <= c && c <= 'F')
}

fn is_ident_start_char(c: char) -> (r: bool)
    ensures
        r == is_ident_start(c),
{
    ('a' <= c && c <= 'z') || ('A' <= c && c <= 'Z') || c == '_'
}

fn is_ident_char_exec(c: char) -> (r: bool)
    ensures
        r == is_ident_char(c),
{
    is_ident_start_char(c) || is_digit_char(c)
}

/// Relies on std's `FromIterator<char>` for `String`: the string holds the
/// characters in their order.
#[verifier::external_body]
fn string_of(chars: &Vec<char>) -> (r: String)
    ensures
        r@ == chars@,
{
    chars.iter().collect()
}

/// Collect an identifier. The caller must have checked that the next
/// character in the source is a valid identifier start.
fn identifier(source: &mut Source) -> (r: PpToken)
    requires
        old(source).wf(),
    ensures
        same_files(old(source), final(source)),
        r@ == Lexeme::Identifier(ident_text(logical(old(source)))),
        logical(final(source)) == logical(old(source)).skip(
            ident_text(logical(old(source))).len() as int,
        ),
        final(source).chars() == raw_after(
            old(source).chars(),
            ident_text(logical(old(source))).len(),
        ),
{
    let ghost s = logical(source);
    let ghost r0 = source.chars();
    assert(raw_after(r0, 0) =~= r0);
    let mut idchars: Vec<char> = Vec::new();
    loop
        invariant
            same_files(old(source), source),
            idchars@.len() <= s.len(),
            source.chars() == raw_after(r0, idchars@.len()),
            logical(source) == s.skip(idchars@.len() as int),
            idchars@ + ident_text(logical(source)) == ident_text(s),
        ensures
            same_files(old(source), source),
            logical(source) == s.skip(idchars@.len() as int),
            idchars@ == ident_text(s),
            source.chars() == raw_after(r0, idchars@.len()),
        decreases logical(source).len(),
    {
        let ghost cur = logical(source);
        let ch = match peek_spliced(source) {
            Some(c) => c.ch,
            None => {
                assert(idchars@ + ident_text(cur) =~= idchars@);
                break;
            },
        };
        if !is_ident_char_exec(ch) {
            assert(idchars@ + ident_text(cur) =~= idchars@);
            break;
        }
        idchars.push(ch);
        next_spliced(source);
        proof {
            lemma_raw_add(r0, (idchars@.len() - 1) as nat, 1);
        }
        assert(logical(source) =~= s.skip(idchars@.len() as int));
        assert(idchars@ + ident_text(logical(source)) =~= ident_text(s));
    }
    PpToken::Identifier(string_of(&idchars))
}

/// Collect a number. The caller must have checked that the next characters
/// in the source start a number.
///
/// The production rules for a pp-number generate all valid integer and
/// float constants, with their suffixes, but also match many sequences
/// that are not valid numeric constants by the stricter rules of later
/// phases.
fn ppnumber(source: &mut Source) -> (r: PpToken)
    requires
        old(source).wf(),
    ensures
        same_files(old(source), final(source)),
        r@ == Lexeme::Number(number_text(logical(old(source)))),
        logical(final(source)) == logical(old(source)).skip(
            number_text(logical(old(source))).len() as int,
        ),
        final(source).chars() == raw_after(
            old(source).chars(),
            number_text(logical(old(source))).len(),
        ),
{
    let ghost s = logical(source);
    let ghost r0 = source.chars();
    assert(raw_after(r0, 0) =~= r0);
    let mut numchars: Vec<char> = Vec::new();
    loop
        invariant
            same_files(old(source), source),
            numchars@.len() <= s.len(),
            source.chars() == raw_after(r0, numchars@.len()),
            logical(source) == s.skip(numchars@.len() as int),
            numchars@ + number_text(logical(source)) == number_text(s),
        ensures
            same_files(old(source), source),
            logical(source) == s.skip(numchars@.len() as int),
            numchars@ == number_text(s),
            source.chars() == raw_after(r0, numchars@.len()),
        decreases logical(source).len(),
    {
        let ghost cur = logical(source);
        let ch = match peek_spliced(source) {
            Some(c) => c.ch,
            None => {
                assert(numchars@ + number_text(cur) =~= numchars@);
                break;
            },
        };
        if ch == 'e' || ch == 'E' {
            // An exponent's marker may carry a sign.
            let ghost before = numchars@;
            numchars.push(ch);
            next_spliced(source);
            proof {
                lemma_raw_add(r0, (numchars@.len() - 1) as nat, 1);
            }
            assert(logical(source) =~= cur.skip(1));
            match peek_spliced(source) {
                Some(sign) => {
                    if sign.ch == '+' || sign.ch == '-' {
                        numchars.push(sign.ch);
                        next_spliced(source);
                        proof {
                            lemma_raw_add(r0, (numchars@.len() - 1) as nat, 1);
                        }
                        assert(logical(source) =~= cur.skip(2));
                        assert(number_text(cur) == seq![ch, sign.ch] + number_text(cur.skip(2)));
                        assert(numchars@ =~= before + seq![ch, sign.ch]);
                    } else {
                        assert(number_text(cur) == seq![ch] + number_text(cur.skip(1)));
                    }
                },
                None => {
                    assert(number_text(cur) == seq![ch] + number_text(cur.skip(1)));
                },
            }
            assert(logical(source) =~= s.skip(numchars@.len() as int));
            assert(numchars@ + number_text(logical(source)) =~= number_text(s));
        } else if is_ident_char_exec(ch) || ch == '.' {
            numchars.push(ch);
            next_spliced(source);
            proof {
                lemma_raw_add(r0, (numchars@.len() - 1) as nat, 1);
            }
            assert(logical(source) =~= s.skip(numchars@.len() as int));
            assert(numchars@ + number_text(logical(source)) =~= number_text(s));
        } else {
            assert(numchars@ + number_text(cur) =~= numchars@);
            break;
        }
    }
    PpToken::Number(string_of(&numchars))
}

/// Consumes the digits at the start of the source, hexadecimal ones where
/// `hex` holds, appending them to `accum`.
fn take_digits(source: &mut Source, accum: &mut Vec<char>, hex: bool)
    requires
        old(source).wf(),
    ensures
        same_files(old(source), final(source)),
        ({
            let c = logical(old(source));
            let k = final(accum)@.len() - old(accum)@.len();
            &&& 0 <= k <= c.len()
            &&& final(accum)@ == old(accum)@ + chars_of(c.take(k))
            &&& logical(final(source)) == c.skip(k)
            &&& final(source).chars() == raw_after(old(source).chars(), k as nat)
            &&& forall|m: int|
                0 <= m < k ==> is_hex_digit(#[trigger] c[m].ch) && (!hex ==> is_digit(c[m].ch))
            &&& k < c.len() ==> !(if hex {
                is_hex_digit(c[k].ch)
            } else {
                is_digit(c[k].ch)
            })
        }),
{
    let ghost c = logical(source);
    let ghost base = accum@;
    let ghost r0 = source.chars();
    assert(raw_after(r0, 0) =~= r0);
    loop
        invariant
            same_files(old(source), source),
            r0 == old(source).chars(),
            base.len() <= accum@.len() <= base.len() + c.len(),
            ({
                let k = accum@.len() - base.len();
                &&& accum@ == base + chars_of(c.take(k))
                &&& logical(source) == c.skip(k)
                &&& source.chars() == raw_after(r0, k as nat)
                &&& forall|m: int|
                    0 <= m < k ==> is_hex_digit(#[trigger] c[m].ch) && (!hex ==> is_digit(c[m].ch))
            }),
        ensures
            same_files(old(source), source),
            r0 == old(source).chars(),
            base.len() <= accum@.len() <= base.len() + c.len(),
            ({
                let k = accum@.len() - base.len();
                &&& accum@ == base + chars_of(c.take(k))
                &&& logical(source) == c.skip(k)
                &&& source.chars() == raw_after(r0, k as nat)
                &&& forall|m: int|
                    0 <= m < k ==> is_hex_digit(#[trigger] c[m].ch) && (!hex ==> is_digit(c[m].ch))
                &&& k < c.len() ==> !(if hex {
                    is_hex_digit(c[k].ch)
                } else {
                    is_digit(c[k].ch)
                })
            }),
        decreases logical(source).len(),
    {
        let ghost k = accum@.len() - base.len();
        let ch = match peek_spliced(source) {
            Some(d) => d.ch,
            None => break,
        };
        let more = if hex {
            is_hex_digit_char(ch)
        } else {
            is_digit_char(ch)
        };
        if !more {
            break;
        }
        accum.push(ch);
        next_spliced(source);
        proof {
            lemma_raw_add(r0, k as nat, 1);
        }
        assert(logical(source) =~= c.skip(k + 1));
        assert(accum@ =~= base + chars_of(c.take(k + 1)));
    }
}

/// An ASCII octal digit, which starts an octal escape.
pub open spec fn is_octal(c: char) -> bool {
    '0' <= c && c <= '7'
}

/// The error for a literal opened by `q` at `pt` that does not close.
fn unterminated(is_char: bool, pt: Point) -> (e: CcError)
    ensures
        e.what@ == unterminated_msg(quote_of(is_char)),
        e.loc == Some(pt),
{
    let msg = if is_char {
        "unterminated character constant"
    } else {
        "unterminated string constant"
    };
    CcError::err_with_loc(msg.to_owned(), pt)
}

/// Collects an escape sequence inside a character or string literal, whose
/// backslash has just been consumed, verbatim: the backslash, then an `x`
/// and all the hexadecimal digits after it, or a run of digits after an
/// octal digit, or else the one character after the backslash.
/// Interpreting it is left to a later phase; this only finds its extent,
/// so that an escaped quote does not end the literal. Where the input ends
/// inside the escape, this is the error of the unterminated literal opened
/// at `pt`.
fn escape_sequence(source: &mut Source, accum: &mut Vec<char>, is_char: bool, pt: Point) -> (r:
    Result<(), CcError>)
    requires
        old(source).wf(),
    ensures
        same_files(old(source), final(source)),
        ({
            let c = logical(old(source));
            let j = final(accum)@.len() - old(accum)@.len() - 1;
            &&& 0 <= j <= c.len()
            &&& final(accum)@ == old(accum)@ + seq!['\\'] + chars_of(c.take(j))
            &&& logical(final(source)) == c.skip(j)
            &&& final(source).chars() == raw_after(old(source).chars(), j as nat)
            &&& c.len() > 0 && c[0].ch == 'x' ==> {
                &&& j >= 1
                &&& forall|m: int| 1 <= m < j ==> is_hex_digit(#[trigger] c[m].ch)
                &&& j < c.len() ==> !is_hex_digit(c[j].ch)
            }
            &&& c.len() > 0 && is_octal(c[0].ch) ==> {
                &&& j >= 1
                &&& forall|m: int| 0 <= m < j ==> is_digit(#[trigger] c[m].ch)
                &&& j < c.len() ==> !is_digit(c[j].ch)
            }
            &&& c.len() > 0 && c[0].ch != 'x' && !is_octal(c[0].ch) ==> j == 1
            &&& (r is Err <==> c.len() == 0 || ((c[0].ch == 'x' || is_octal(c[0].ch)) && j
                == c.len()))
            &&& r matches Err(e) ==> e.what@ == unterminated_msg(quote_of(is_char)) && e.loc
                == Some(pt)
        }),
{
    let ghost c = logical(source);
    let ghost r0 = source.chars();
    let ghost base = accum@;
    assert(raw_after(r0, 0) =~= r0);
    accum.push('\\');
    let ch = match peek_spliced(source) {
        Some(d) => d.ch,
        None => {
            assert(accum@ =~= base + seq!['\\'] + chars_of(c.take(0)));
            assert(c.skip(0) =~= c);
            return Err(unterminated(is_char, pt));
        },
    };
    if ch == 'x' {
        accum.push('x');
        next_spliced(source);
        proof {
            lemma_raw_add(r0, 0, 1);
        }
        let ghost mid = accum@;
        let ghost r1 = source.chars();
        take_digits(source, accum, true);
        proof {
            let k = accum@.len() - mid.len();
            let c1 = c.skip(1);
            assert forall|m: int| 1 <= m < 1 + k implies is_hex_digit(#[trigger] c[m].ch) by {
                assert(c1[m - 1] == c[m]);
            }
            if 1 + k < c.len() {
                assert(c1[k] == c[1 + k]);
            }
            lemma_raw_add(r0, 1, k as nat);
            assert(logical(source) =~= c.skip(1 + k));
            assert(accum@ =~= base + seq!['\\'] + chars_of(c.take(1 + k)));
        }
    } else if '0' <= ch && ch <= '7' {
        let ghost mid = accum@;
        take_digits(source, accum, false);
        proof {
            assert(accum@ =~= base + seq!['\\'] + chars_of(c.take(accum@.len() - mid.len())));
        }
    } else {
        accum.push(ch);
        next_spliced(source);
        proof {
            lemma_raw_add(r0, 0, 1);
        }
        assert(logical(source) =~= c.skip(1));
        assert(accum@ =~= base + seq!['\\'] + chars_of(c.take(1)));
        return Ok(());
    }
    if peek_spliced(source).is_none() {
        return Err(unterminated(is_char, pt));
    }
    Ok(())
}

/// A run of digits inside a literal's body scans as the run's characters.
proof fn lemma_plain_run(s: Seq<SourceChar>, q: char, j: int)
    requires
        0 <= j <= s.len(),
        !is_hex_digit(q),
        forall|m: int| 0 <= m < j ==> is_hex_digit(#[trigger] s[m].ch),
    ensures
        lit_scan(s, q) == (lit_scan(s.skip(j), q).0 + j as nat, lit_scan(s.skip(j), q).1),
    decreases j,
{
    if j == 0 {
        assert(s.skip(0) =~= s);
    } else {
        assert(is_hex_digit(s[0].ch));
        assert forall|m: int| 0 <= m < j - 1 implies is_hex_digit(#[trigger] s.skip(1)[m].ch) by {
            assert(s.skip(1)[m] == s[m + 1]);
        }
        lemma_plain_run(s.skip(1), q, j - 1);
        assert(s.skip(1).skip(j - 1) =~= s.skip(j));
    }
}

/// The quote that opens and closes a character or a string literal.
pub open spec fn quote_of(is_char: bool) -> char {
    if is_char {
        '\''
    } else {
        '"'
    }
}

/// Collect a character or a string literal, whose opening quote at `pt`
/// has just been consumed.
fn textlit(source: &mut Source, is_char: bool, pt: Point) -> (r: Result<PpToken, CcError>)
    requires
        old(source).wf(),
    ensures
        same_files(old(source), final(source)),
        lit_consumed(logical(old(source)), quote_of(is_char)) <= logical(old(source)).len(),
        logical(final(source)) == logical(old(source)).skip(
            lit_consumed(logical(old(source)), quote_of(is_char)) as int,
        ),
        outcome(&r) == lit_outcome(logical(old(source)), quote_of(is_char), pt),
        final(source).chars() == raw_after(
            old(source).chars(),
            lit_consumed(logical(old(source)), quote_of(is_char)),
        ),
{
    let ghost r0 = source.chars();
    assert(raw_after(r0, 0) =~= r0);
    let ghost s = logical(source);
    let ghost q = quote_of(is_char);
    proof {
        lemma_lit_scan_len(s, q);
    }
    let mut chars: Vec<char> = Vec::new();
    loop
        invariant
            same_files(old(source), source),
            q == quote_of(is_char),
            r0 == old(source).chars(),
            source.chars() == raw_after(r0, chars@.len()),
            s == logical(old(source)),
            lit_consumed(s, q) <= s.len(),
            chars@.len() <= s.len(),
            logical(source) == s.skip(chars@.len() as int),
            chars@ == chars_of(s.take(chars@.len() as int)),
            lit_scan(s, q) == (
                lit_scan(logical(source), q).0 + chars@.len(),
                lit_scan(logical(source), q).1,
            ),
        decreases logical(source).len(),
    {
        let ghost cur = logical(source);
        let ghost i: int = chars@.len() as int;
        let ch = match peek_spliced(source) {
            Some(d) => d.ch,
            None => {
                return Err(unterminated(is_char, pt));
            },
        };
        if ch == '\n' {
            return Err(unterminated(is_char, pt));
        }
        if (is_char && ch == '\'') || (!is_char && ch == '"') {
            next_spliced(source);
            proof {
                lemma_raw_add(r0, i as nat, 1);
            }
            assert(logical(source) =~= s.skip(i + 1));
            if is_char {
                return Ok(PpToken::CharLiteral(string_of(&chars)));
            } else {
                return Ok(PpToken::StringLiteral(string_of(&chars)));
            }
        }
        if ch == '\\' {
            next_spliced(source);
            proof {
                lemma_raw_add(r0, i as nat, 1);
            }
            let ghost c = logical(source);
            assert(c =~= s.skip(i + 1));
            let res = escape_sequence(source, &mut chars, is_char, pt);
            proof {
                let j = chars@.len() - i - 1;
                if c.len() > 0 {
                    assert(c.skip(1) =~= cur.skip(2));
                    assert forall|m: int| 0 <= m < j - 1 implies is_hex_digit(
                        #[trigger] c.skip(1)[m].ch,
                    ) by {
                        assert(c.skip(1)[m] == c[m + 1]);
                    }
                    lemma_plain_run(c.skip(1), q, j - 1);
                    assert(c.skip(1).skip(j - 1) =~= c.skip(j));
                }
                assert(logical(source) =~= s.skip(i + 1 + j));
                assert(chars@ =~= chars_of(s.take(i + 1 + j)));
                lemma_raw_add(r0, (i + 1) as nat, j as nat);
            }
            if let Err(e) = res {
                return Err(e);
            }
        } else {
            chars.push(ch);
            next_spliced(source);
            proof {
                lemma_raw_add(r0, i as nat, 1);
            }
            assert(logical(source) =~= s.skip(i + 1));
            assert(chars@ =~= chars_of(s.take(i + 1)));
        }
    }
}

/// Given that the opener of a block comment at `loc` has been consumed,
/// scans and discards source until the `*/` that closes it.
fn skip_block_comment(source: &mut Source, loc: Point) -> (r: Result<(), CcError>)
    requires
        old(source).wf(),
    ensures
        same_files(old(source), final(source)),
        match block_scan(logical(old(source)), false) {
            Some(e) => r is Ok && logical(final(source)) == logical(old(source)).skip(e as int)
                && final(source).chars() == raw_after(old(source).chars(), e),
            None => r matches Err(err) && err.what@ == block_msg() && err.loc == Some(loc)
                && final(source).chars().len() == 0,
        },
{
    let ghost s = logical(source);
    let ghost r0 = source.chars();
    assert(raw_after(r0, 0) =~= r0);
    let mut last_star = false;
    loop
        invariant
            same_files(old(source), source),
            s == logical(old(source)),
            r0 == old(source).chars(),
            source.chars() == raw_after(r0, (s.len() - logical(source).len()) as nat),
            logical(source).len() <= s.len(),
            logical(source) == s.skip(s.len() - logical(source).len()),
            block_scan(s, false) == match block_scan(logical(source), last_star) {
                Some(n) => Some(n + (s.len() - logical(source).len()) as nat),
                None => None::<nat>,
            },
        decreases logical(source).len(),
    {
        let ghost used = (s.len() - logical(source).len()) as nat;
        let ch = match next_spliced(source) {
            Some(c) => c,
            None => {
                return Err(CcError::err_with_loc("unterminated block comment".to_owned(), loc));
            },
        };
        assert(logical(source) =~= s.skip(s.len() - logical(source).len()));
        proof {
            lemma_raw_add(r0, used, 1);
        }
        if ch.ch == '/' && last_star {
            return Ok(());
        }
        last_star = ch.ch == '*';
    }
}

/// Given that the opener of a line comment has been consumed, scans and
/// discards source through the end of the line.
fn skip_line_comment(source: &mut Source)
    requires
        old(source).wf(),
    ensures
        same_files(old(source), final(source)),
        logical(final(source)) == logical(old(source)).skip(line_scan(logical(old(source))) as int),
        line_closed(logical(old(source))) ==> final(source).chars() == raw_after(
            old(source).chars(),
            line_scan(logical(old(source))),
        ),
        !line_closed(logical(old(source))) ==> final(source).chars().len() == 0,
{
    let ghost s = logical(source);
    let ghost r0 = source.chars();
    assert(raw_after(r0, 0) =~= r0);
    loop
        invariant
            same_files(old(source), source),
            s == logical(old(source)),
            r0 == old(source).chars(),
            source.chars() == raw_after(r0, (s.len() - logical(source).len()) as nat),
            line_closed(s) == line_closed(logical(source)),
            logical(source).len() <= s.len(),
            logical(source) == s.skip(s.len() - logical(source).len()),
            line_scan(s) == line_scan(logical(source)) + (s.len() - logical(source).len()),
        decreases logical(source).len(),
    {
        let ghost used = (s.len() - logical(source).len()) as nat;
        let ch = match next_spliced(source) {
            Some(c) => c,
            None => {
                return ;
            },
        };
        assert(logical(source) =~= s.skip(s.len() - logical(source).len()));
        proof {
            lemma_raw_add(r0, used, 1);
        }
        if ch.ch == '\n' {
            return ;
        }
    }
}

proof fn lemma_skip_skip(s: Seq<SourceChar>, a: int, b: int)
    requires
        0 <= a <= s.len(),
        0 <= b <= s.len() - a,
    ensures
        s.skip(a).skip(b) == s.skip(a + b),
{
    assert(s.skip(a).skip(b) =~= s.skip(a + b));
}

/// Appending `c` holds a newline where `c` is one or `e` held one.
proof fn lemma_push_newline(e: Seq<char>, c: char)
    ensures
        e.push(c).contains('\n') == (e.contains('\n') || c == '\n'),
{
    if c == '\n' {
        assert(e.push(c)[e.len() as int] == '\n');
    } else if e.push(c).contains('\n') {
        let i = choose|i: int| 0 <= i < e.len() + 1 && e.push(c)[i] == '\n';
        assert(e[i] == '\n');
    }
    if e.contains('\n') {
        let i = choose|i: int| 0 <= i < e.len() && e[i] == '\n';
        assert(e.push(c)[i] == '\n');
    }
}

/// Return the next lexical token in the input stream, and whether a
/// newline was skipped before it, as a directive must follow one.
///
/// Whitespace before the token is appended to `emit`, and one space for
/// each comment.
pub fn next_token_with_newline(source: &mut Source, emit: &mut Vec<char>) -> (r: (
    Result<PpToken, CcError>,
    bool,
))
    requires
        old(source).wf(),
    ensures
        same_files(old(source), final(source)),
        outcome(&r.0) == lex(logical(old(source))).result,
        logical(final(source)) == logical(old(source)).skip(
            lex(logical(old(source))).consumed as int,
        ),
        final(emit)@ == old(emit)@ + lex(logical(old(source))).trivia,
        r.1 == lex(logical(old(source))).trivia.contains('\n'),
        lex(logical(old(source))).to_end ==> final(source).chars().len() == 0,
        !lex(logical(old(source))).to_end ==> final(source).chars() == raw_after(
            old(source).chars(),
            lex(logical(old(source))).consumed,
        ),
{
    let ghost r0 = source.chars();
    let ghost mut ended = false;
    assert(raw_after(r0, 0) =~= r0);
    let ghost s0 = logical(source);
    let ghost e0 = emit@;
    let ghost mut emitted: Seq<char> = seq![];
    let ghost mut used: int = 0;
    let mut newline = false;
    assert(s0.skip(0) =~= s0);
    assert(e0 + emitted =~= e0);
    loop
        invariant
            same_files(old(source), source),
            s0 == logical(old(source)),
            e0 == old(emit)@,
            0 <= used <= s0.len(),
            logical(source) == s0.skip(used),
            emit@ == e0 + emitted,
            lex(s0).result == lex(logical(source)).result,
            lex(s0).consumed == used + lex(logical(source)).consumed,
            lex(s0).trivia == emitted + lex(logical(source)).trivia,
            newline == emitted.contains('\n'),
            r0 == old(source).chars(),
            !ended ==> source.chars() == raw_after(r0, used as nat),
            ended ==> source.chars().len() == 0 && logical(source).len() == 0,
            lex(s0).to_end == (ended || lex(logical(source)).to_end),
        decreases logical(source).len(),
    {
        let ghost cur = logical(source);
        proof {
            lemma_lex_len(cur);
        }
        let ch = match peek_spliced(source) {
            Some(c) => c,
            None => {
                assert(emitted + lex(cur).trivia =~= emitted);
                return (Ok(PpToken::Eof), newline);
            },
        };
        if is_space_char(ch.ch) {
            if ch.ch == '\n' {
                newline = true;
            }
            emit.push(ch.ch);
            next_spliced(source);
            proof {
                lemma_push_newline(emitted, ch.ch);
                lemma_raw_add(r0, used as nat, 1);
                assert(lex(s0).trivia =~= emitted.push(ch.ch) + lex(logical(source)).trivia);
                emitted = emitted.push(ch.ch);
                lemma_skip_skip(s0, used, 1);
                used = used + 1;
            }
            continue ;
        }
        if is_ident_start_char(ch.ch) {
            assert(emitted + lex(cur).trivia =~= emitted);
            let t = identifier(source);
            proof {
                lemma_raw_add(r0, used as nat, lex(cur).consumed);
                lemma_skip_skip(s0, used, lex(cur).consumed as int);
            }
            return (Ok(t), newline);
        }
        // A dot followed by a digit starts a number, not a punctuator.
        let inum: u32 = if ch.ch == '.' {
            1
        } else {
            0
        };
        let is_number = match peek_spliced_n(source, inum) {
            Some(d) => is_digit_char(d.ch),
            None => false,
        };
        if is_number {
            assert(emitted + lex(cur).trivia =~= emitted);
            let t = ppnumber(source);
            proof {
                lemma_raw_add(r0, used as nat, lex(cur).consumed);
                lemma_skip_skip(s0, used, lex(cur).consumed as int);
            }
            return (Ok(t), newline);
        }
        if ch.ch == '\'' || ch.ch == '"' {
            assert(emitted + lex(cur).trivia =~= emitted);
            next_spliced(source);
            assert(logical(source) =~= cur.skip(1));
            let t = textlit(source, ch.ch == '\'', ch.pt);
            proof {
                lemma_raw_add(r0, used as nat, 1);
                lemma_raw_add(r0, (used + 1) as nat, lit_consumed(cur.skip(1), ch.ch));
                lemma_skip_skip(cur, 1, lit_consumed(cur.skip(1), ch.ch) as int);
                lemma_skip_skip(s0, used, lex(cur).consumed as int);
            }
            return (t, newline);
        }
        let ghost k = longest_punct(cur).1;
        proof {
            if punct_start(cur[0].ch) is Some {
                lemma_walk_len(cur.skip(1), punct_start(cur[0].ch)->0);
                lemma_walk_punct(cur, PpToken::Hash);
            }
        }
        match lookup_op(source) {
            Some(PpToken::BlockComment) => {
                let ghost rest = cur.skip(k as int);
                proof {
                    lemma_block_scan_len(rest, false);
                }
                match skip_block_comment(source, ch.pt) {
                    Ok(()) => {},
                    Err(e) => {
                        assert(s0.skip(s0.len() as int) =~= logical(source));
                        return (Err(e), newline);
                    },
                }
                emit.push(' ');
                proof {
                    let e = block_scan(rest, false)->0;
                    lemma_raw_add(r0, used as nat, k);
                    lemma_raw_add(r0, (used + k) as nat, e);
                    lemma_skip_skip(cur, k as int, e as int);
                    lemma_skip_skip(s0, used, (k + e) as int);
                    assert(lex(s0).trivia =~= emitted.push(' ') + lex(logical(source)).trivia);
                    lemma_push_newline(emitted, ' ');
                    emitted = emitted.push(' ');
                    used = used + (k + e) as int;
                }
                continue ;
            },
            Some(PpToken::LineComment) => {
                let ghost rest = cur.skip(k as int);
                proof {
                    lemma_line_scan_len(rest);
                }
                skip_line_comment(source);
                emit.push(' ');
                proof {
                    let e = line_scan(rest);
                    lemma_raw_add(r0, used as nat, k);
                    lemma_raw_add(r0, (used + k) as nat, e);
                    if !line_closed(rest) {
                        ended = true;
                    }
                    lemma_skip_skip(cur, k as int, e as int);
                    lemma_skip_skip(s0, used, (k + e) as int);
                    assert(lex(s0).trivia =~= emitted.push(' ') + lex(logical(source)).trivia);
                    lemma_push_newline(emitted, ' ');
                    emitted = emitted.push(' ');
                    used = used + (k + e) as int;
                }
                continue ;
            },
            Some(op) => {
                assert(emitted + lex(cur).trivia =~= emitted);
                proof {
                    lemma_raw_add(r0, used as nat, k);
                    lemma_skip_skip(s0, used, k as int);
                }
                return (Ok(op), newline);
            },
            None => {},
        }
        next_spliced(source);
        assert(emitted + lex(cur).trivia =~= emitted);
        proof {
            lemma_raw_add(r0, used as nat, 1);
            lemma_skip_skip(s0, used, 1);
        }
        return (Ok(PpToken::Other(ch.ch)), newline);
    }
}

/// Return the next lexical token in the input stream.
///
/// Whitespace before the token is appended to `emit`, and one space for
/// each comment. At the end of the input the token is `Eof`, and stays so
/// on every later call.
pub fn next_token(source: &mut Source, emit: &mut Vec<char>) -> (r: Result<PpToken, CcError>)
    requires
        old(source).wf(),
    ensures
        same_files(old(source), final(source)),
        outcome(&r) == lex(logical(old(source))).result,
        logical(final(source)) == logical(old(source)).skip(
            lex(logical(old(source))).consumed as int,
        ),
        final(emit)@ == old(emit)@ + lex(logical(old(source))).trivia,
        lex(logical(old(source))).to_end ==> final(source).chars().len() == 0,
        !lex(logical(old(source))).to_end ==> final(source).chars() == raw_after(
            old(source).chars(),
            lex(logical(old(source))).consumed,
        ),
        logical(old(source)).len() == 0 ==> (r matches Ok(PpToken::Eof)) && logical(
            final(source),
        ).len() == 0 && final(emit)@ == old(emit)@,
        r matches Ok(PpToken::Eof) ==> logical(final(source)).len() == 0,
        !(r matches Ok(PpToken::Eof)) ==> logical(final(source)).len() < logical(old(source)).len(),
{
    proof {
        lemma_lex_len(logical(source));
        assert(emit@ + Seq::<char>::empty() =~= emit@);
    }
    next_token_with_newline(source, emit).0
}

proof fn lemma_ident_len(s: Seq<SourceChar>)
    ensures
        ident_text(s).len() <= s.len(),
    decreases s.len(),
{
    if s.len() > 0 && is_ident_char(s[0].ch) {
        lemma_ident_len(s.skip(1));
    }
}

proof fn lemma_number_len(s: Seq<SourceChar>)
    ensures
        number_text(s).len() <= s.len(),
    decreases s.len(),
{
    if s.len() > 0 {
        lemma_number_len(s.skip(1));
        if s.len() > 1 {
            lemma_number_len(s.skip(2));
        }
    }
}

/// Every scan consumes at most what is there; at the end of the input
/// it yields `Eof`, consuming nothing.
pub proof fn lemma_lex_len(s: Seq<SourceChar>)
    ensures
        lex(s).consumed <= s.len(),
        lex(s).start <= lex(s).consumed,
        s.len() == 0 ==> lex(s) == token_scan(Ok(Lexeme::Plain(PpToken::Eof)), 0),
        lex(s).result == Ok::<Lexeme, (Seq<char>, Option<Point>)>(Lexeme::Plain(PpToken::Eof))
            ==> lex(s).consumed == s.len(),
        lex(s).result != Ok::<Lexeme, (Seq<char>, Option<Point>)>(Lexeme::Plain(PpToken::Eof))
            ==> lex(s).consumed >= 1,
    decreases s.len(),
{
    if s.len() == 0 {
    } else if is_space(s[0].ch) {
        lemma_lex_len(s.skip(1));
    } else if is_ident_start(s[0].ch) {
        lemma_ident_len(s);
    } else if starts_number(s) {
        lemma_number_len(s);
    } else if s[0].ch == '\'' || s[0].ch == '"' {
        lemma_lit_scan_len(s.skip(1), s[0].ch);
    } else if punct_start(s[0].ch) is Some {
        let (t, k) = longest_punct(s);
        lemma_walk_len(s.skip(1), punct_start(s[0].ch)->0);
        lemma_walk_punct(s, PpToken::Hash);
        let rest = s.skip(k as int);
        if t == PpToken::BlockComment {
            lemma_block_scan_len(rest, false);
            if let Some(e) = block_scan(rest, false) {
                lemma_lex_len(rest.skip(e as int));
            }
        } else if t == PpToken::LineComment {
            lemma_line_scan_len(rest);
            lemma_lex_len(rest.skip(line_scan(rest) as int));
        }
    }
}

/// Trivia round trip: the trivia that a scan emits is whitespace, at most
/// one character for each character skipped before the token. Where no
/// comment is skipped, the trivia followed by the token's own source text
/// is exactly the text consumed; a comment of any length, closed or ended
/// by its line, is emitted as one space.
pub proof fn lemma_trivia_round_trip(s: Seq<SourceChar>)
    ensures
        forall|i: int| 0 <= i < lex(s).trivia.len() ==> is_space(#[trigger] lex(s).trivia[i]),
        lex(s).trivia.len() <= lex(s).start <= lex(s).consumed <= s.len(),
        (forall|i: int| 0 <= i < lex(s).start ==> is_space(#[trigger] s[i].ch)) ==> lex(s).trivia
            + chars_of(s.subrange(lex(s).start as int, lex(s).consumed as int)) == chars_of(
            s.take(lex(s).consumed as int),
        ),
        s.len() > 0 && punct_start(s[0].ch) is Some && longest_punct(s).0 is BlockComment
            && block_scan(s.skip(longest_punct(s).1 as int), false) is Some ==> lex(s).trivia
            == seq![' '] + lex(
            s.skip(
                (longest_punct(s).1 + block_scan(s.skip(longest_punct(s).1 as int), false)->0) as int,
            ),
        ).trivia,
        s.len() > 0 && punct_start(s[0].ch) is Some && longest_punct(s).0 is LineComment
            ==> lex(s).trivia == seq![' '] + lex(
            s.skip((longest_punct(s).1 + line_scan(s.skip(longest_punct(s).1 as int))) as int),
        ).trivia,
    decreases s.len(),
{
    lemma_lex_len(s);
    if s.len() == 0 {
    } else if is_space(s[0].ch) {
        let s1 = s.skip(1);
        lemma_trivia_round_trip(s1);
        let r1 = lex(s1);
        assert forall|i: int| 0 <= i < lex(s).trivia.len() implies is_space(
            #[trigger] lex(s).trivia[i],
        ) by {
            if i > 0 {
                assert(lex(s).trivia[i] == r1.trivia[i - 1]);
            }
        }
        if forall|i: int| 0 <= i < lex(s).start ==> is_space(#[trigger] s[i].ch) {
            assert forall|i: int| 0 <= i < r1.start implies is_space(#[trigger] s1[i].ch) by {
                assert(s1[i] == s[i + 1]);
            }
            assert(chars_of(s.subrange(lex(s).start as int, lex(s).consumed as int)) =~= chars_of(
                s1.subrange(r1.start as int, r1.consumed as int),
            ));
            assert(chars_of(s.take(lex(s).consumed as int)) =~= seq![s[0].ch] + chars_of(
                s1.take(r1.consumed as int),
            ));
            assert(lex(s).trivia + chars_of(s.subrange(lex(s).start as int, lex(s).consumed as int))
                =~= seq![s[0].ch] + (r1.trivia + chars_of(
                s1.subrange(r1.start as int, r1.consumed as int),
            )));
        }
    } else if is_ident_start(s[0].ch) || starts_number(s) || s[0].ch == '\'' || s[0].ch == '"' {
        assert(chars_of(s.subrange(0, lex(s).consumed as int)) =~= chars_of(
            s.take(lex(s).consumed as int),
        ));
    } else if punct_start(s[0].ch) is Some {
        let (t, k) = longest_punct(s);
        lemma_walk_len(s.skip(1), punct_start(s[0].ch)->0);
        let rest = s.skip(k as int);
        if t == PpToken::BlockComment {
            lemma_block_scan_len(rest, false);
            if let Some(e) = block_scan(rest, false) {
                lemma_skip_skip(s, k as int, e as int);
                let r1 = lex(rest.skip(e as int));
                lemma_trivia_round_trip(rest.skip(e as int));
                assert forall|i: int| 0 <= i < lex(s).trivia.len() implies is_space(
                    #[trigger] lex(s).trivia[i],
                ) by {
                    if i > 0 {
                        assert(lex(s).trivia[i] == r1.trivia[i - 1]);
                    }
                }
            }
        } else if t == PpToken::LineComment {
            lemma_line_scan_len(rest);
            let e = line_scan(rest);
            lemma_skip_skip(s, k as int, e as int);
            let r1 = lex(rest.skip(e as int));
            lemma_trivia_round_trip(rest.skip(e as int));
            assert forall|i: int| 0 <= i < lex(s).trivia.len() implies is_space(
                #[trigger] lex(s).trivia[i],
            ) by {
                if i > 0 {
                    assert(lex(s).trivia[i] == r1.trivia[i - 1]);
                }
            }
        } else {
            assert(chars_of(s.subrange(0, lex(s).consumed as int)) =~= chars_of(
                s.take(lex(s).consumed as int),
            ));
        }
    } else {
        assert(chars_of(s.subrange(0, 1)) =~= chars_of(s.take(1)));
    }
}

/// What is left of `s` after `n` successive scans.
pub open spec fn rest_after(s: Seq<SourceChar>, n: nat) -> Seq<SourceChar>
    decreases n,
{
    if n == 0 {
        s
    } else {
        rest_after(s.skip(lex(s).consumed as int), (n - 1) as nat)
    }
}

/// Scanning always ends: from any input, once there have been as many
/// scans as it has characters, everything is consumed and every further
/// scan yields `Eof`.
pub proof fn lemma_reaches_eof(s: Seq<SourceChar>, n: nat)
    requires
        n >= s.len(),
    ensures
        rest_after(s, n).len() == 0,
        lex(rest_after(s, n)) == token_scan(Ok(Lexeme::Plain(PpToken::Eof)), 0),
    decreases n,
{
    lemma_lex_len(s);
    if n > 0 {
        if s.len() == 0 {
            assert(s.skip(0) =~= s);
        }
        lemma_reaches_eof(s.skip(lex(s).consumed as int), (n - 1) as nat);
    } else {
        lemma_lex_len(rest_after(s, n));
    }
}

/// The text that successive scans of `s` give back, up to the end: the
/// trivia of each scan followed by the source text of its token or of the
/// broken construct. Successive calls of `next_token` emit these trivia
/// and consume these tokens.
pub open spec fn run_text(s: Seq<SourceChar>) -> Seq<char>
    decreases s.len(),
{
    let r = lex(s);
    proof {
        lemma_lex_len(s);
    }
    if r.consumed == 0 {
        r.trivia
    } else {
        r.trivia + chars_of(s.subrange(r.start as int, r.consumed as int)) + run_text(
            s.skip(r.consumed as int),
        )
    }
}

/// Without a `/` there is no comment: everything a scan skips before its
/// token is whitespace.
proof fn lemma_no_comment(s: Seq<SourceChar>)
    requires
        forall|i: int| 0 <= i < s.len() ==> #[trigger] s[i].ch != '/',
    ensures
        forall|i: int| 0 <= i < lex(s).start ==> is_space(#[trigger] s[i].ch),
    decreases s.len(),
{
    lemma_lex_len(s);
    if s.len() > 0 && is_space(s[0].ch) {
        let s1 = s.skip(1);
        assert forall|i: int| 0 <= i < s1.len() implies #[trigger] s1[i].ch != '/' by {
            assert(s1[i] == s[i + 1]);
        }
        lemma_no_comment(s1);
        assert forall|i: int| 0 <= i < lex(s).start implies is_space(#[trigger] s[i].ch) by {
            if i > 0 {
                assert(s[i] == s1[i - 1]);
            }
        }
    } else if s.len() > 0 && !is_ident_start(s[0].ch) && !starts_number(s) && s[0].ch != '\''
        && s[0].ch != '"' && punct_start(s[0].ch) is Some {
        lemma_walk_comment(s, PpToken::Hash);
    }
}

/// Trivia round trip over a whole run of scans: on input without a `/`,
/// hence without comments, the trivia and token texts of successive scans
/// put together are exactly the input.
pub proof fn lemma_run_round_trip(s: Seq<SourceChar>)
    requires
        forall|i: int| 0 <= i < s.len() ==> #[trigger] s[i].ch != '/',
    ensures
        run_text(s) == chars_of(s),
    decreases s.len(),
{
    lemma_lex_len(s);
    let r = lex(s);
    if r.consumed == 0 {
        assert(chars_of(s) =~= Seq::<char>::empty());
    } else {
        lemma_no_comment(s);
        lemma_trivia_round_trip(s);
        let rest = s.skip(r.consumed as int);
        assert forall|i: int| 0 <= i < rest.len() implies #[trigger] rest[i].ch != '/' by {
            assert(rest[i] == s[i + r.consumed]);
        }
        lemma_run_round_trip(rest);
        assert(chars_of(s) =~= chars_of(s.take(r.consumed as int)) + chars_of(rest));
    }
}

} // verus!

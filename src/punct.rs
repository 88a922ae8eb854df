//! The punctuator automaton: a trie over the punctuator table, matched
//! greedily for the longest punctuator. Each node is named by the token it
//! yields when the input cannot be extended further; the first character
//! leads from the root to a node, each further one to a child. The table
//! is code, so it is immutable and needs no initialization.
use vstd::prelude::*;

use crate::lexer::PpToken;
use crate::source::{Source, SourceChar};
use crate::splice::{lemma_raw_add, logical, next_spliced, peek_spliced, raw_after};

verus! {

/// The node reached from the root by the character `c`, if any.
pub open spec fn punct_start(c: char) -> Option<PpToken> {
    match c {
        '(' => Some(PpToken::LeftParen),
        ')' => Some(PpToken::RightParen),
        '{' => Some(PpToken::LeftBrace),
        '}' => Some(PpToken::RightBrace),
        '[' => Some(PpToken::LeftBracket),
        ']' => Some(PpToken::RightBracket),
        ';' => Some(PpToken::Semicolon),
        '#' => Some(PpToken::Hash),
        '?' => Some(PpToken::Question),
        ':' => Some(PpToken::Colon),
        ',' => Some(PpToken::Comma),
        '~' => Some(PpToken::BitNot),
        '.' => Some(PpToken::Dot),
        '+' => Some(PpToken::Add),
        '-' => Some(PpToken::Subtract),
        '*' => Some(PpToken::Star),
        '/' => Some(PpToken::Divide),
        '%' => Some(PpToken::Mod),
        '=' => Some(PpToken::Assign),
        '!' => Some(PpToken::LogicalNot),
        '&' => Some(PpToken::Ampersand),
        '|' => Some(PpToken::BitOr),
        '^' => Some(PpToken::BitXor),
        '<' => Some(PpToken::Less),
        '>' => Some(PpToken::Greater),
        _ => None,
    }
}

/// The child of node `t` reached by the character `c`, if any.
pub open spec fn punct_follow(t: PpToken, c: char) -> Option<PpToken> {
    match (t, c) {
        (PpToken::Add, '+') => Some(PpToken::Increment),
        (PpToken::Add, '=') => Some(PpToken::AddAssign),
        (PpToken::Subtract, '-') => Some(PpToken::Decrement),
        (PpToken::Subtract, '=') => Some(PpToken::SubtractAssign),
        (PpToken::Subtract, '>') => Some(PpToken::Arrow),
        (PpToken::Star, '=') => Some(PpToken::MultiplyAssign),
        (PpToken::Divide, '=') => Some(PpToken::DivideAssign),
        (PpToken::Divide, '*') => Some(PpToken::BlockComment),
        (PpToken::Divide, '/') => Some(PpToken::LineComment),
        (PpToken::Mod, '=') => Some(PpToken::ModAssign),
        (PpToken::Assign, '=') => Some(PpToken::Equal),
        (PpToken::LogicalNot, '=') => Some(PpToken::NotEqual),
        (PpToken::Ampersand, '=') => Some(PpToken::AndAssign),
        (PpToken::Ampersand, '&') => Some(PpToken::LogicalAnd),
        (PpToken::BitOr, '=') => Some(PpToken::OrAssign),
        (PpToken::BitOr, '|') => Some(PpToken::LogicalOr),
        (PpToken::BitXor, '=') => Some(PpToken::XorAssign),
        (PpToken::Less, '=') => Some(PpToken::LessEqual),
        (PpToken::Less, '<') => Some(PpToken::ShiftLeft),
        (PpToken::ShiftLeft, '=') => Some(PpToken::LeftShiftAssign),
        (PpToken::Greater, '=') => Some(PpToken::GreaterEqual),
        (PpToken::Greater, '>') => Some(PpToken::ShiftRight),
        (PpToken::ShiftRight, '=') => Some(PpToken::RightShiftAssign),
        _ => None,
    }
}

/// Walks down from node `t` as far as `s` leads: the node where the walk
/// stops, and the number of characters taken.
pub open spec fn punct_walk(s: Seq<SourceChar>, t: PpToken) -> (PpToken, nat)
    decreases s.len(),
{
    if s.len() > 0 && punct_follow(t, s[0].ch) is Some {
        let r = punct_walk(s.skip(1), punct_follow(t, s[0].ch)->0);
        (r.0, r.1 + 1)
    } else {
        (t, 0)
    }
}

/// The longest punctuator at the start of `s`, which must begin with a
/// punctuator character, and its length.
pub open spec fn longest_punct(s: Seq<SourceChar>) -> (PpToken, nat)
    recommends
        s.len() > 0,
{
    let r = punct_walk(s.skip(1), punct_start(s[0].ch)->0);
    (r.0, r.1 + 1)
}

/// `t` is a punctuator, or one of the two comment openers.
pub open spec fn is_punct(t: PpToken) -> bool {
    !(t is Identifier || t is StringLiteral || t is Number || t is CharLiteral || t is Other
        || t is Eof)
}

/// Every node of the automaton is a punctuator.
pub proof fn lemma_walk_punct(s: Seq<SourceChar>, t: PpToken)
    requires
        is_punct(t),
    ensures
        is_punct(punct_walk(s, t).0),
        s.len() > 0 && punct_start(s[0].ch) is Some ==> is_punct(longest_punct(s).0),
    decreases s.len(),
{
    if s.len() > 0 {
        if punct_follow(t, s[0].ch) is Some {
            lemma_walk_punct(s.skip(1), punct_follow(t, s[0].ch)->0);
        }
        if punct_start(s[0].ch) is Some {
            lemma_walk_punct(s.skip(1), punct_start(s[0].ch)->0);
        }
    }
}

/// Only the `/` node leads to a comment opener.
pub proof fn lemma_walk_comment(s: Seq<SourceChar>, t: PpToken)
    ensures
        (punct_walk(s, t).0 is BlockComment || punct_walk(s, t).0 is LineComment) ==> (t is Divide
            || t is BlockComment || t is LineComment),
        s.len() > 0 && punct_start(s[0].ch) is Some && (longest_punct(s).0 is BlockComment
            || longest_punct(s).0 is LineComment) ==> s[0].ch == '/',
    decreases s.len(),
{
    if s.len() > 0 {
        if punct_follow(t, s[0].ch) is Some {
            lemma_walk_comment(s.skip(1), punct_follow(t, s[0].ch)->0);
        }
        if punct_start(s[0].ch) is Some {
            lemma_walk_comment(s.skip(1), punct_start(s[0].ch)->0);
        }
    }
}

/// A walk takes no more characters than there are.
pub proof fn lemma_walk_len(s: Seq<SourceChar>, t: PpToken)
    ensures
        punct_walk(s, t).1 <= s.len(),
    decreases s.len(),
{
    if s.len() > 0 && punct_follow(t, s[0].ch) is Some {
        lemma_walk_len(s.skip(1), punct_follow(t, s[0].ch)->0);
    }
}

/// The node reached from the root by `c`.
fn op_start(c: char) -> (r: Option<PpToken>)
    ensures
        r == punct_start(c),
{
    match c {
        '(' => Some(PpToken::LeftParen),
        ')' => Some(PpToken::RightParen),
        '{' => Some(PpToken::LeftBrace),
        '}' => Some(PpToken::RightBrace),
        '[' => Some(PpToken::LeftBracket),
        ']' => Some(PpToken::RightBracket),
        ';' => Some(PpToken::Semicolon),
        '#' => Some(PpToken::Hash),
        '?' => Some(PpToken::Question),
        ':' => Some(PpToken::Colon),
        ',' => Some(PpToken::Comma),
        '~' => Some(PpToken::BitNot),
        '.' => Some(PpToken::Dot),
        '+' => Some(PpToken::Add),
        '-' => Some(PpToken::Subtract),
        '*' => Some(PpToken::Star),
        '/' => Some(PpToken::Divide),
        '%' => Some(PpToken::Mod),
        '=' => Some(PpToken::Assign),
        '!' => Some(PpToken::LogicalNot),
        '&' => Some(PpToken::Ampersand),
        '|' => Some(PpToken::BitOr),
        '^' => Some(PpToken::BitXor),
        '<' => Some(PpToken::Less),
        '>' => Some(PpToken::Greater),
        _ => None,
    }
}

/// The child of node `t` reached by `c`.
fn op_follow(t: &PpToken, c: char) -> (r: Option<PpToken>)
    ensures
        r == punct_follow(*t, c),
{
    match (t, c) {
        (PpToken::Add, '+') => Some(PpToken::Increment),
        (PpToken::Add, '=') => Some(PpToken::AddAssign),
        (PpToken::Subtract, '-') => Some(PpToken::Decrement),
        (PpToken::Subtract, '=') => Some(PpToken::SubtractAssign),
        (PpToken::Subtract, '>') => Some(PpToken::Arrow),
        (PpToken::Star, '=') => Some(PpToken::MultiplyAssign),
        (PpToken::Divide, '=') => Some(PpToken::DivideAssign),
        (PpToken::Divide, '*') => Some(PpToken::BlockComment),
        (PpToken::Divide, '/') => Some(PpToken::LineComment),
        (PpToken::Mod, '=') => Some(PpToken::ModAssign),
        (PpToken::Assign, '=') => Some(PpToken::Equal),
        (PpToken::LogicalNot, '=') => Some(PpToken::NotEqual),
        (PpToken::Ampersand, '=') => Some(PpToken::AndAssign),
        (PpToken::Ampersand, '&') => Some(PpToken::LogicalAnd),
        (PpToken::BitOr, '=') => Some(PpToken::OrAssign),
        (PpToken::BitOr, '|') => Some(PpToken::LogicalOr),
        (PpToken::BitXor, '=') => Some(PpToken::XorAssign),
        (PpToken::Less, '=') => Some(PpToken::LessEqual),
        (PpToken::Less, '<') => Some(PpToken::ShiftLeft),
        (PpToken::ShiftLeft, '=') => Some(PpToken::LeftShiftAssign),
        (PpToken::Greater, '=') => Some(PpToken::GreaterEqual),
        (PpToken::Greater, '>') => Some(PpToken::ShiftRight),
        (PpToken::ShiftRight, '=') => Some(PpToken::RightShiftAssign),
        _ => None,
    }
}

/// Walks the automaton over the source to translate the longest prefix
/// that is a punctuator; consumes nothing and returns `None` where the
/// next character starts none.
pub fn lookup_op(source: &mut Source) -> (r: Option<PpToken>)
    requires
        old(source).wf(),
    ensures
        final(source).wf(),
        final(source).texts() == old(source).texts(),
        final(source).names() == old(source).names(),
        ({
            let s = logical(old(source));
            if s.len() > 0 && punct_start(s[0].ch) is Some {
                &&& r == Some(longest_punct(s).0)
                &&& logical(final(source)) == s.skip(longest_punct(s).1 as int)
                &&& final(source).chars() == raw_after(old(source).chars(), longest_punct(s).1)
            } else {
                &&& r is None
                &&& final(source).chars() == old(source).chars()
            }
        }),
{
    let ghost s = logical(source);
    let first = match peek_spliced(source) {
        Some(c) => c,
        None => return None,
    };
    let mut tok = match op_start(first.ch) {
        Some(t) => t,
        None => return None,
    };
    let ghost r0 = source.chars();
    assert(raw_after(r0, 0) =~= r0);
    next_spliced(source);
    proof {
        lemma_raw_add(r0, 0, 1);
    }
    let ghost mut used: nat = 1;
    loop
        invariant
            source.wf(),
            source.texts() == old(source).texts(),
            source.names() == old(source).names(),
            s.len() > 0,
            punct_start(s[0].ch) is Some,
            1 <= used <= s.len(),
            logical(source) == s.skip(used as int),
            r0 == old(source).chars(),
            source.chars() == raw_after(r0, used),
            longest_punct(s) == ({
                let w = punct_walk(logical(source), tok);
                (w.0, w.1 + used)
            }),
        ensures
            source.wf(),
            source.texts() == old(source).texts(),
            source.names() == old(source).names(),
            logical(source) == s.skip(used as int),
            source.chars() == raw_after(r0, used),
            longest_punct(s) == (tok, used),
        decreases logical(source).len(),
    {
        let c = match peek_spliced(source) {
            Some(c) => c,
            None => break,
        };
        match op_follow(&tok, c.ch) {
            Some(t) => {
                tok = t;
            },
            None => break,
        }
        next_spliced(source);
        proof {
            lemma_raw_add(r0, used, 1);
            assert(logical(source) =~= s.skip(used + 1 as int));
            used = used + 1;
        }
    }
    Some(tok)
}

} // verus!

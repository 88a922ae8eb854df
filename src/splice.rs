//! Line splicing: a backslash followed by a newline is deleted before any
//! later layer sees the characters.
use vstd::prelude::*;

use crate::source::{head, nth, tail, Source, SourceChar};

verus! {

/// `s` with every backslash-newline pair removed, scanning from the front.
pub open spec fn spliced(s: Seq<SourceChar>) -> Seq<SourceChar>
    decreases s.len(),
{
    if s.len() == 0 {
        s
    } else if s.len() >= 2 && s[0].ch == '\\' && s[1].ch == '\n' {
        spliced(s.skip(2))
    } else {
        seq![s[0]] + spliced(s.skip(1))
    }
}

/// How many raw characters of `s` are read to take `m` characters of
/// `spliced(s)`: the splices before each of them, and the character
/// itself; splices after the last are left. Where `spliced(s)` is
/// shorter than `m`, all of `s`.
pub open spec fn raw_skip(s: Seq<SourceChar>, m: nat) -> nat
    decreases s.len(),
{
    if m == 0 || s.len() == 0 {
        0
    } else if s.len() >= 2 && s[0].ch == '\\' && s[1].ch == '\n' {
        raw_skip(s.skip(2), m) + 2
    } else {
        raw_skip(s.skip(1), (m - 1) as nat) + 1
    }
}

/// What is left of the raw characters `s` once `m` characters of
/// `spliced(s)` have been taken.
pub open spec fn raw_after(s: Seq<SourceChar>, m: nat) -> Seq<SourceChar> {
    s.skip(raw_skip(s, m) as int)
}

pub proof fn lemma_raw_len(s: Seq<SourceChar>, m: nat)
    ensures
        raw_skip(s, m) <= s.len(),
        m > 0 && s.len() > 0 ==> raw_skip(s, m) > 0,
    decreases s.len(),
{
    if m > 0 && s.len() > 0 {
        if s.len() >= 2 && s[0].ch == '\\' && s[1].ch == '\n' {
            lemma_raw_len(s.skip(2), m);
        } else {
            lemma_raw_len(s.skip(1), (m - 1) as nat);
        }
    }
}

/// Taking `a` characters and then `b` more reads as far as taking `a + b`.
pub proof fn lemma_raw_add(s: Seq<SourceChar>, a: nat, b: nat)
    ensures
        raw_skip(s, a) <= s.len(),
        raw_after(raw_after(s, a), b) == raw_after(s, a + b),
    decreases s.len(),
{
    lemma_raw_len(s, a);
    lemma_raw_len(s, a + b);
    let k = raw_skip(s, a);
    if a == 0 || s.len() == 0 {
        assert(s.skip(0) =~= s);
    } else if s.len() >= 2 && s[0].ch == '\\' && s[1].ch == '\n' {
        let s2 = s.skip(2);
        lemma_raw_add(s2, a, b);
        lemma_raw_len(s2, a + b);
        assert(s.skip(k as int) =~= s2.skip(raw_skip(s2, a) as int));
        assert(s.skip(raw_skip(s, a + b) as int) =~= s2.skip(raw_skip(s2, a + b) as int));
    } else {
        let s1 = s.skip(1);
        lemma_raw_add(s1, (a - 1) as nat, b);
        assert((a + b - 1) as nat == (a - 1) as nat + b);
        lemma_raw_len(s1, (a + b - 1) as nat);
        assert(s.skip(k as int) =~= s1.skip(raw_skip(s1, (a - 1) as nat) as int));
        assert(s.skip(raw_skip(s, a + b) as int) =~= s1.skip(
            raw_skip(s1, (a + b - 1) as nat) as int,
        ));
    }
}

/// The characters still to come from `source`, as the scanner sees them.
pub open spec fn logical(source: &Source) -> Seq<SourceChar> {
    spliced(source.chars())
}

/// Return the n'th next character in the source stream without consuming
/// it, skipping line splices. If n is zero, the immediate next character
/// is returned.
pub fn peek_spliced_n(source: &Source, n: u32) -> (r: Option<SourceChar>)
    requires
        source.wf(),
    ensures
        r == nth(logical(source), n as int),
{
    let mut st = source.snapshot();
    let mut k = n;
    loop
        invariant
            source.wf(),
            source.holds(&st),
            nth(logical(source), n as int) == nth(spliced(source.chars_in(&st)), k as int),
        decreases source.chars_in(&st).len(),
    {
        let ghost s = source.chars_in(&st);
        let c = match source.advance_in(&mut st) {
            None => return None,
            Some(c) => c,
        };
        if c.ch == '\\' {
            match source.peek_in(&st) {
                Some(d) => {
                    if d.ch == '\n' {
                        source.advance_in(&mut st);
                        assert(source.chars_in(&st) =~= s.skip(2));
                        continue ;
                    }
                },
                None => {},
            }
        }
        assert(source.chars_in(&st) =~= s.skip(1));
        assert(spliced(s) == seq![c] + spliced(s.skip(1)));
        if k == 0 {
            return Some(c);
        }
        k = k - 1;
    }
}

/// Return the next character in the source stream without consuming it,
/// skipping line splices.
pub fn peek_spliced(source: &Source) -> (r: Option<SourceChar>)
    requires
        source.wf(),
    ensures
        r == head(logical(source)),
{
    peek_spliced_n(source, 0)
}

/// Consume and return the next character in the source stream, skipping
/// line splices.
pub fn next_spliced(source: &mut Source) -> (r: Option<SourceChar>)
    requires
        old(source).wf(),
    ensures
        final(source).wf(),
        final(source).texts() == old(source).texts(),
        final(source).names() == old(source).names(),
        r == head(logical(old(source))),
        logical(final(source)) == tail(logical(old(source))),
        final(source).chars() == raw_after(old(source).chars(), 1),
        r is None ==> final(source).chars().len() == 0,
{
    loop
        invariant
            source.wf(),
            source.chars().len() <= old(source).chars().len(),
            source.chars() == old(source).chars().skip(
                old(source).chars().len() - source.chars().len(),
            ),
            raw_skip(old(source).chars(), 1) == old(source).chars().len() - source.chars().len()
                + raw_skip(source.chars(), 1),
            source.texts() == old(source).texts(),
            source.names() == old(source).names(),
            head(logical(old(source))) == head(logical(source)),
            tail(logical(old(source))) == tail(logical(source)),
        decreases source.chars().len(),
    {
        let ghost s = source.chars();
        let c = match source.next() {
            None => {
                assert(old(source).chars().skip(old(source).chars().len() as int) =~= s);
                return None;
            },
            Some(c) => c,
        };
        if c.ch == '\\' {
            match source.peek() {
                Some(d) => {
                    if d.ch == '\n' {
                        source.next();
                        assert(source.chars() =~= s.skip(2));
                        assert(source.chars() =~= old(source).chars().skip(
                            old(source).chars().len() - source.chars().len(),
                        ));
                        continue ;
                    }
                },
                None => {},
            }
        }
        assert(source.chars() =~= s.skip(1));
        assert(source.chars() =~= old(source).chars().skip(
            old(source).chars().len() - source.chars().len(),
        ));
        assert(spliced(s) == seq![c] + spliced(s.skip(1)));
        assert(tail(spliced(s)) =~= spliced(s.skip(1)));
        assert(raw_skip(s.skip(1), 0) == 0);
        assert(raw_skip(s, 1) == 1);
        return Some(c);
    }
}

} // verus!

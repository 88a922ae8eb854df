//! The character stream: every loaded file, and a stack of cursors into
//! them that models file nesting. Line endings are normalized here, and
//! each character carries the position it came from.
use vstd::prelude::*;

verus! {

/// A location in the source code, for errors.
#[derive(Clone, Copy, Debug, PartialEq, Eq, Hash, Structural)]
pub struct Point {
    /// The index of the source file the character came from.
    pub file: u32,
    /// The 1-based line number in the source.
    pub line: u32,
    /// The 1-based column in the source.
    pub col: u32,
}

/// The source code from one file.
pub struct SourceFile {
    /// The name the file was loaded under, also used to print it.
    pub name: String,
    /// The contents of the source file.
    pub text: Vec<char>,
}

/// A pointer for iterating through a source file.
#[derive(Clone, Copy, Debug, PartialEq, Eq, Structural)]
pub struct SourcePointer {
    /// Index of the file being iterated.
    pub file: u32,
    /// Index of the next character.
    pub next: usize,
    /// Point in the original file of the next character.
    pub next_loc: Point,
}

/// A character from a source file.
#[derive(Clone, Copy, Debug, PartialEq, Eq, Structural)]
pub struct SourceChar {
    /// The character, with every line ending reported as `'\n'`.
    pub ch: char,
    /// Its original position in the file.
    pub pt: Point,
    /// Is this the first character after a file switch?
    pub switched: bool,
}

/// The nested stack of file pointers, innermost file last, together with
/// the flag that marks the next character as the first after a switch.
/// Copies of it serve for lookahead without touching the real stream.
pub struct CursorStack {
    iters: Vec<SourcePointer>,
    switched: bool,
}

/// The state for reading characters across all source files.
pub struct Source {
    /// All files, indexed by a file integer.
    files: Vec<SourceFile>,
    /// The files being read.
    active: CursorStack,
}

/// A character as delivered: a CR reads as `'\n'`. That a CR/LF or LF/CR
/// pair is one line end is `step_ptr`'s part.
pub open spec fn normalized(c: char) -> char {
    if c == '\r' {
        '\n'
    } else {
        c
    }
}

/// A carriage return or a line feed.
pub open spec fn is_line_end(c: char) -> bool {
    c == '\r' || c == '\n'
}

/// The pointer past the character that `p` points at.
pub open spec fn step_ptr(text: Seq<char>, p: SourcePointer) -> SourcePointer {
    let c = text[p.next as int];
    if is_line_end(c) {
        let pair = p.next + 1 < text.len() && is_line_end(text[p.next + 1]) && text[p.next + 1] != c;
        SourcePointer {
            file: p.file,
            next: (if pair { p.next + 2 } else { p.next + 1 }) as usize,
            next_loc: Point { file: p.next_loc.file, line: (p.next_loc.line + 1) as u32, col: 1 },
        }
    } else {
        SourcePointer {
            file: p.file,
            next: (p.next + 1) as usize,
            next_loc: Point {
                file: p.next_loc.file,
                line: p.next_loc.line,
                col: (p.next_loc.col + 1) as u32,
            },
        }
    }
}

/// The characters of `text` from the pointer `p` to the end, none of them
/// marked as switched.
pub open spec fn chars_from(text: Seq<char>, p: SourcePointer) -> Seq<SourceChar>
    decreases text.len() - p.next,
{
    if p.next < text.len() && text.len() <= usize::MAX {
        seq![SourceChar { ch: normalized(text[p.next as int]), pt: p.next_loc, switched: false }]
            + chars_from(text, step_ptr(text, p))
    } else {
        seq![]
    }
}

/// The pointer to the start of the file with index `file`.
pub open spec fn start_ptr(file: u32) -> SourcePointer {
    SourcePointer { file, next: 0, next_loc: Point { file, line: 1, col: 1 } }
}

/// The characters of a whole file, as read with the file index `file`.
pub open spec fn file_chars(text: Seq<char>, file: u32) -> Seq<SourceChar> {
    chars_from(text, start_ptr(file))
}

/// `s` with its first character's switched flag set to `sw`.
pub open spec fn mark(s: Seq<SourceChar>, sw: bool) -> Seq<SourceChar> {
    if s.len() == 0 {
        s
    } else {
        s.update(0, SourceChar { switched: sw, ..s[0] })
    }
}

/// The first character of `s`, if any.
pub open spec fn head(s: Seq<SourceChar>) -> Option<SourceChar> {
    if s.len() == 0 {
        None
    } else {
        Some(s[0])
    }
}

/// `s` without its first character; empty stays empty.
pub open spec fn tail(s: Seq<SourceChar>) -> Seq<SourceChar> {
    if s.len() == 0 {
        s
    } else {
        s.drop_first()
    }
}

/// The character at index `n` of `s`, if any.
pub open spec fn nth(s: Seq<SourceChar>, n: int) -> Option<SourceChar> {
    if 0 <= n < s.len() {
        Some(s[n])
    } else {
        None
    }
}

/// The characters that a stack of pointers still has to deliver, innermost
/// file first; `sw` is the flag of the very first one.
pub open spec fn stack_chars(texts: Seq<Seq<char>>, iters: Seq<SourcePointer>, sw: bool) -> Seq<
    SourceChar,
>
    decreases iters.len(),
{
    if iters.len() == 0 {
        seq![]
    } else {
        let p = iters.last();
        let seg = if (p.file as int) < texts.len() {
            chars_from(texts[p.file as int], p)
        } else {
            seq![]
        };
        mark(seg, sw) + stack_chars(texts, iters.drop_last(), true)
    }
}

/// Every file is short enough for its positions to fit in 32 bits.
pub open spec fn texts_ok(texts: Seq<Seq<char>>) -> bool {
    forall|i: int| 0 <= i < texts.len() ==> #[trigger] texts[i].len() < u32::MAX
}

/// `p` points into its file, at most at its end, with a position that
/// fits what lies before it.
pub open spec fn ptr_inb(texts: Seq<Seq<char>>, p: SourcePointer) -> bool {
    &&& (p.file as int) < texts.len()
    &&& p.next <= texts[p.file as int].len()
    &&& p.next_loc.file == p.file
    &&& 1 <= p.next_loc.line <= p.next + 1
    &&& 1 <= p.next_loc.col <= p.next + 1
}

/// `p` points at a character of its file.
pub open spec fn ptr_valid(texts: Seq<Seq<char>>, p: SourcePointer) -> bool {
    ptr_inb(texts, p) && p.next < texts[p.file as int].len()
}

/// Every pointer of the stack points at a character of its file.
pub open spec fn stack_valid(texts: Seq<Seq<char>>, iters: Seq<SourcePointer>) -> bool {
    forall|j: int| 0 <= j < iters.len() ==> ptr_valid(texts, #[trigger] iters[j])
}

/// The text of each file, by file index.
pub open spec fn texts_of(files: Seq<SourceFile>) -> Seq<Seq<char>> {
    files.map_values(|f: SourceFile| f.text@)
}

/// The name of each file, by file index.
pub open spec fn names_of(files: Seq<SourceFile>) -> Seq<Seq<char>> {
    files.map_values(|f: SourceFile| f.name@)
}

/// Reading one character off the top pointer delivers the first character
/// of the stack, and what is left delivers the rest.
proof fn lemma_step(texts: Seq<Seq<char>>, iters: Seq<SourcePointer>, sw: bool)
    requires
        texts_ok(texts),
        stack_valid(texts, iters),
        iters.len() > 0,
    ensures
        ({
            let p = iters.last();
            let text = texts[p.file as int];
            let p2 = step_ptr(text, p);
            let all = stack_chars(texts, iters, sw);
            &&& ptr_inb(texts, p2)
            &&& p2.file == p.file
            &&& all.len() > 0
            &&& all[0] == SourceChar { ch: normalized(text[p.next as int]), pt: p.next_loc, switched: sw }
            &&& stack_chars(texts, iters.update(iters.len() - 1, p2), false) == all.drop_first()
        }),
{
    let p = iters.last();
    let text = texts[p.file as int];
    let p2 = step_ptr(text, p);
    let iters2 = iters.update(iters.len() - 1, p2);
    assert(ptr_valid(texts, iters[iters.len() - 1]));
    assert(text.len() < u32::MAX);
    assert(iters2.drop_last() =~= iters.drop_last());
    assert(iters2.last() == p2);
    let rest = stack_chars(texts, iters.drop_last(), true);
    let seg2 = chars_from(text, p2);
    let c0 = SourceChar { ch: normalized(text[p.next as int]), pt: p.next_loc, switched: false };
    assert(chars_from(text, p) == seq![c0] + seg2);
    if seg2.len() > 0 {
        assert(mark(seg2, false) =~= seg2);
    }
    assert(stack_chars(texts, iters, sw) == mark(seq![c0] + seg2, sw) + rest);
    assert(stack_chars(texts, iters2, false) == mark(seg2, false) + rest);
    assert(stack_chars(texts, iters2, false) =~= stack_chars(texts, iters, sw).drop_first());
}

/// A pointer at the end of its file delivers nothing; popping it only
/// marks the next character as switched.
proof fn lemma_pop(texts: Seq<Seq<char>>, iters: Seq<SourcePointer>, sw: bool)
    requires
        iters.len() > 0,
        ptr_inb(texts, iters.last()),
        iters.last().next >= texts[iters.last().file as int].len(),
    ensures
        stack_chars(texts, iters, sw) == stack_chars(texts, iters.drop_last(), true),
{
    let p = iters.last();
    assert(chars_from(texts[p.file as int], p) == Seq::<SourceChar>::empty());
    assert(stack_chars(texts, iters, sw) =~= stack_chars(texts, iters.drop_last(), true));
}

/// Adding a file leaves the characters of the existing pointers alone.
proof fn lemma_extend(texts: Seq<Seq<char>>, t: Seq<char>, iters: Seq<SourcePointer>, sw: bool)
    requires
        stack_valid(texts, iters),
    ensures
        stack_chars(texts.push(t), iters, sw) == stack_chars(texts, iters, sw),
        stack_valid(texts.push(t), iters),
    decreases iters.len(),
{
    if iters.len() > 0 {
        assert(stack_valid(texts, iters.drop_last()));
        lemma_extend(texts, t, iters.drop_last(), true);
        assert(ptr_valid(texts, iters[iters.len() - 1]));
        assert(texts.push(t)[iters.last().file as int] == texts[iters.last().file as int]);
    }
    assert forall|j: int| 0 <= j < iters.len() implies ptr_valid(texts.push(t), #[trigger] iters[j]) by {
        assert(ptr_valid(texts, iters[j]));
        assert(texts.push(t)[iters[j].file as int] == texts[iters[j].file as int]);
    }
}

/// Below a pointer at a character, the first flag is all that `sw` changes.
proof fn lemma_mark_stack(texts: Seq<Seq<char>>, iters: Seq<SourcePointer>, sw: bool)
    requires
        texts_ok(texts),
        stack_valid(texts, iters),
    ensures
        stack_chars(texts, iters, true) == mark(stack_chars(texts, iters, sw), true),
{
    if iters.len() > 0 {
        let p = iters.last();
        assert(ptr_valid(texts, iters[iters.len() - 1]));
        assert(texts[p.file as int].len() < u32::MAX);
        let seg = chars_from(texts[p.file as int], p);
        assert(seg.len() > 0);
        let rest = stack_chars(texts, iters.drop_last(), true);
        assert(mark(seg, true) + rest =~= mark(mark(seg, sw) + rest, true));
    }
}

/// Reads one character at `iter`, which must point into `file`.
fn extract_one_char(file: &SourceFile, iter: &SourcePointer) -> (r: (SourcePointer, SourceChar))
    requires
        (iter.next as int) < file.text@.len(),
        file.text@.len() < u32::MAX,
        iter.next_loc.line <= iter.next + 1,
        iter.next_loc.col <= iter.next + 1,
    ensures
        r.0 == step_ptr(file.text@, *iter),
        r.1 == (SourceChar {
            ch: normalized(file.text@[iter.next as int]),
            pt: iter.next_loc,
            switched: false,
        }),
{
    let mut sp = *iter;
    let ch = file.text[sp.next];
    let pt = sp.next_loc;
    if ch == '\r' || ch == '\n' {
        sp.next = sp.next + 1;
        if sp.next < file.text.len() {
            let next_ch = file.text[sp.next];
            if (ch == '\r' && next_ch == '\n') || (ch == '\n' && next_ch == '\r') {
                sp.next = sp.next + 1;
            }
        }
        sp.next_loc.col = 1;
        sp.next_loc.line = sp.next_loc.line + 1;
        (sp, SourceChar { ch: '\n', pt, switched: false })
    } else {
        sp.next = sp.next + 1;
        sp.next_loc.col = sp.next_loc.col + 1;
        (sp, SourceChar { ch, pt, switched: false })
    }
}

/// Pops the pointers that have reached the end of their file, marking the
/// next character as the first after a switch whenever one is popped.
fn pop_exhausted(files: &Vec<SourceFile>, st: &mut CursorStack)
    requires
        texts_ok(texts_of(files@)),
        old(st).iters@.len() > 0 ==> stack_valid(texts_of(files@), old(st).iters@.drop_last()),
        old(st).iters@.len() > 0 ==> ptr_inb(texts_of(files@), old(st).iters@.last()),
    ensures
        stack_valid(texts_of(files@), final(st).iters@),
        stack_chars(texts_of(files@), final(st).iters@, final(st).switched) == stack_chars(
            texts_of(files@),
            old(st).iters@,
            old(st).switched,
        ),
{
    let ghost texts = texts_of(files@);
    loop
        invariant
            texts == texts_of(files@),
            texts_ok(texts),
            st.iters@.len() > 0 ==> stack_valid(texts, st.iters@.drop_last()),
            st.iters@.len() > 0 ==> ptr_inb(texts, st.iters@.last()),
            stack_chars(texts, st.iters@, st.switched) == stack_chars(
                texts,
                old(st).iters@,
                old(st).switched,
            ),
        ensures
            stack_valid(texts, st.iters@),
            stack_chars(texts, st.iters@, st.switched) == stack_chars(
                texts,
                old(st).iters@,
                old(st).switched,
            ),
        decreases st.iters@.len(),
    {
        let n = st.iters.len();
        if n == 0 {
            break;
        }
        let sp = st.iters[n - 1];
        assert(texts[sp.file as int] == files@[sp.file as int].text@);
        if sp.next < files[sp.file as usize].text.len() {
            assert forall|j: int| 0 <= j < st.iters@.len() implies ptr_valid(
                texts,
                #[trigger] st.iters@[j],
            ) by {
                if j < n - 1 {
                    assert(st.iters@[j] == st.iters@.drop_last()[j]);
                }
            }
            break;
        }
        proof {
            lemma_pop(texts, st.iters@, st.switched);
        }
        let ghost prev = st.iters@;
        st.switched = true;
        st.iters.pop();
        proof {
            assert(st.iters@ =~= prev.drop_last());
            if st.iters@.len() > 0 {
                assert(ptr_valid(texts, st.iters@[st.iters@.len() - 1]));
                assert forall|j: int| 0 <= j < st.iters@.len() - 1 implies ptr_valid(
                    texts,
                    #[trigger] st.iters@.drop_last()[j],
                ) by {
                    assert(st.iters@.drop_last()[j] == st.iters@[j]);
                }
            }
        }
    }
}

/// Consumes the next character of the stack `st`, if there is one.
fn advance(files: &Vec<SourceFile>, st: &mut CursorStack) -> (r: Option<SourceChar>)
    requires
        texts_ok(texts_of(files@)),
        stack_valid(texts_of(files@), old(st).iters@),
    ensures
        stack_valid(texts_of(files@), final(st).iters@),
        r == head(stack_chars(texts_of(files@), old(st).iters@, old(st).switched)),
        stack_chars(texts_of(files@), final(st).iters@, final(st).switched) == tail(
            stack_chars(texts_of(files@), old(st).iters@, old(st).switched),
        ),
{
    let ghost texts = texts_of(files@);
    let n = st.iters.len();
    if n == 0 {
        return None;
    }
    let sp = st.iters[n - 1];
    proof {
        assert(ptr_valid(texts, st.iters@[n - 1]));
        assert(texts[sp.file as int] == files@[sp.file as int].text@);
        lemma_step(texts, st.iters@, st.switched);
    }
    let (sp2, ch) = extract_one_char(&files[sp.file as usize], &sp);
    let ch = SourceChar { ch: ch.ch, pt: ch.pt, switched: st.switched };
    let ghost before = st.iters@;
    st.iters.set(n - 1, sp2);
    st.switched = false;
    proof {
        assert(st.iters@.drop_last() =~= before.drop_last());
        assert(stack_valid(texts, before.drop_last())) by {
            assert forall|j: int| 0 <= j < before.len() - 1 implies ptr_valid(
                texts,
                #[trigger] before.drop_last()[j],
            ) by {
                assert(before.drop_last()[j] == before[j]);
            }
        }
    }
    pop_exhausted(files, st);
    Some(ch)
}

impl CursorStack {
    /// A copy of this stack, sharing nothing with it.
    fn copy(&self) -> (r: CursorStack)
        ensures
            r.iters@ == self.iters@,
            r.switched == self.switched,
    {
        let mut iters: Vec<SourcePointer> = Vec::new();
        let mut i: usize = 0;
        while i < self.iters.len()
            invariant
                i <= self.iters@.len(),
                iters@ == self.iters@.take(i as int),
            decreases self.iters@.len() - i,
        {
            iters.push(self.iters[i]);
            i = i + 1;
            assert(iters@ =~= self.iters@.take(i as int));
        }
        assert(iters@ =~= self.iters@);
        CursorStack { iters, switched: self.switched }
    }
}

impl Source {
    /// The text of each loaded file, by file index.
    pub closed spec fn texts(&self) -> Seq<Seq<char>> {
        texts_of(self.files@)
    }

    /// The name of each loaded file, by file index.
    pub closed spec fn names(&self) -> Seq<Seq<char>> {
        names_of(self.files@)
    }

    /// `st` is a stack of pointers at characters of this source's files.
    pub closed spec fn holds(&self, st: &CursorStack) -> bool {
        stack_valid(self.texts(), st.iters@)
    }

    /// The characters that reading from `st` delivers, in order.
    pub closed spec fn chars_in(&self, st: &CursorStack) -> Seq<SourceChar> {
        stack_chars(self.texts(), st.iters@, st.switched)
    }

    /// Every file fits 32-bit positions and indexes, and every pointer
    /// being read points at a character.
    pub closed spec fn wf(&self) -> bool {
        &&& texts_ok(self.texts())
        &&& self.holds(&self.active)
        &&& self.files@.len() <= u32::MAX
    }

    /// The characters that repeated calls of `next` deliver, in order.
    pub closed spec fn chars(&self) -> Seq<SourceChar> {
        self.chars_in(&self.active)
    }

    /// An empty stream, with no file loaded.
    pub fn new() -> (r: Source)
        ensures
            r.wf(),
            r.chars().len() == 0,
            r.texts().len() == 0,
            r.names().len() == 0,
    {
        let r = Source { files: Vec::new(), active: CursorStack { iters: Vec::new(), switched: false } };
        assert(r.texts() =~= Seq::<Seq<char>>::empty());
        assert(r.names() =~= Seq::<Seq<char>>::empty());
        r
    }

    /// A copy of the state of reading, for lookahead.
    pub fn snapshot(&self) -> (r: CursorStack)
        requires
            self.wf(),
        ensures
            self.holds(&r),
            self.chars_in(&r) == self.chars(),
    {
        self.active.copy()
    }

    /// The next character that reading from `st` delivers.
    pub fn peek_in(&self, st: &CursorStack) -> (r: Option<SourceChar>)
        requires
            self.wf(),
            self.holds(st),
        ensures
            r == head(self.chars_in(st)),
    {
        let n = st.iters.len();
        if n == 0 {
            None
        } else {
            let sp = st.iters[n - 1];
            proof {
                assert(ptr_valid(self.texts(), st.iters@[n - 1]));
                assert(self.texts()[sp.file as int] == self.files@[sp.file as int].text@);
                lemma_step(self.texts(), st.iters@, st.switched);
            }
            let ch = self.files[sp.file as usize].text[sp.next];
            let ch = if ch == '\r' {
                '\n'
            } else {
                ch
            };
            Some(SourceChar { ch, pt: sp.next_loc, switched: st.switched })
        }
    }

    /// Reads one character from `st`, leaving this source as it is.
    pub fn advance_in(&self, st: &mut CursorStack) -> (r: Option<SourceChar>)
        requires
            self.wf(),
            self.holds(old(st)),
        ensures
            self.holds(final(st)),
            r == head(self.chars_in(old(st))),
            self.chars_in(final(st)) == tail(self.chars_in(old(st))),
    {
        advance(&self.files, st)
    }

    /// Peek the next character, if there is one.
    pub fn peek(&self) -> (r: Option<SourceChar>)
        requires
            self.wf(),
        ensures
            r == head(self.chars()),
    {
        self.peek_in(&self.active)
    }

    /// Peek the n'th character: `peek_n(0)` returns the next character.
    pub fn peek_n(&self, n: u32) -> (r: Option<SourceChar>)
        requires
            self.wf(),
        ensures
            r == nth(self.chars(), n as int),
    {
        let mut st = self.snapshot();
        let mut k: u32 = 0;
        while k < n
            invariant
                self.wf(),
                k <= n,
                self.holds(&st),
                k <= self.chars().len() ==> self.chars_in(&st) == self.chars().skip(k as int),
                k > self.chars().len() ==> self.chars_in(&st).len() == 0,
            decreases n - k,
        {
            self.advance_in(&mut st);
            proof {
                if k < self.chars().len() {
                    assert(self.chars_in(&st) =~= self.chars().skip(k + 1));
                }
            }
            k = k + 1;
        }
        self.peek_in(&st)
    }

    /// Nests a fresh pointer at the start of the loaded file `file` on top
    /// of the files being read.
    fn push_pointer(&mut self, file: u32)
        requires
            old(self).wf(),
            (file as int) < old(self).texts().len(),
        ensures
            final(self).wf(),
            final(self).files@ == old(self).files@,
            final(self).chars() == mark(file_chars(old(self).texts()[file as int], file), true)
                + mark(old(self).chars(), true),
    {
        let ghost texts = self.texts();
        let ghost iters = self.active.iters@;
        let ghost sw = self.active.switched;
        let ptr = SourcePointer { file, next: 0, next_loc: Point { file, line: 1, col: 1 } };
        self.active.iters.push(ptr);
        self.active.switched = true;
        proof {
            assert(self.active.iters@.drop_last() =~= iters);
            assert(self.active.iters@.last() == start_ptr(file));
            lemma_mark_stack(texts, iters, sw);
            assert(stack_chars(texts, self.active.iters@, true) == mark(
                file_chars(texts[file as int], file),
                true,
            ) + stack_chars(texts, iters, true));
        }
        pop_exhausted(&self.files, &mut self.active);
    }

    /// Loads `text` as a new file under the name `name` and nests it on top
    /// of the files being read.
    pub fn push_data(&mut self, name: &str, text: Vec<char>)
        requires
            old(self).wf(),
            text@.len() < u32::MAX,
            old(self).texts().len() < u32::MAX,
        ensures
            final(self).wf(),
            final(self).texts() == old(self).texts().push(text@),
            final(self).names() == old(self).names().push(name@),
            final(self).chars() == mark(file_chars(text@, old(self).texts().len() as u32), true)
                + mark(old(self).chars(), true),
    {
        let ghost texts = self.texts();
        let ghost t = text@;
        let file = self.files.len() as u32;
        let ghost names = self.names();
        self.files.push(SourceFile { name: name.to_owned(), text });
        proof {
            assert(self.texts() =~= texts.push(t));
            assert(self.names() =~= names.push(name@));
            lemma_extend(texts, t, self.active.iters@, self.active.switched);
        }
        self.push_pointer(file);
    }

    /// Nests the already loaded file named `name` again, reusing its text;
    /// the first file loaded under that name is taken. Returns false, and
    /// changes nothing, where no file of that name was loaded.
    pub fn push_loaded(&mut self, name: &str) -> (r: bool)
        requires
            old(self).wf(),
        ensures
            final(self).wf(),
            final(self).texts() == old(self).texts(),
            final(self).names() == old(self).names(),
            r == exists|i: int| 0 <= i < old(self).names().len() && old(self).names()[i] == name@,
            !r ==> final(self).chars() == old(self).chars(),
            r ==> exists|i: int|
                0 <= i < old(self).names().len() && old(self).names()[i] == name@ && (forall|j: int|
                    0 <= j < i ==> old(self).names()[j] != name@) && final(self).chars() == mark(
                    file_chars(old(self).texts()[i], i as u32),
                    true,
                ) + mark(old(self).chars(), true),
    {
        let key = name.to_owned();
        let mut i: usize = 0;
        while i < self.files.len()
            invariant
                i <= self.files@.len(),
                key@ == name@,
                self.wf(),
                *self == *old(self),
                self.names().len() == self.files@.len(),
                forall|j: int| 0 <= j < i ==> self.names()[j] != name@,
            decreases self.files@.len() - i,
        {
            if self.files[i].name == key {
                assert(self.names()[i as int] == name@);
                self.push_pointer(i as u32);
                return true;
            }
            i = i + 1;
        }
        false
    }

    /// Get a printable name for a file, by file index.
    pub fn get_filename(&self, file: u32) -> (r: Option<String>)
        ensures
            r is Some <==> (file as int) < self.names().len(),
            r is Some ==> r->0@ == self.names()[file as int],
    {
        if (file as usize) < self.files.len() {
            Some(self.files[file as usize].name.clone())
        } else {
            None
        }
    }

    /// The number of files loaded so far.
    pub fn file_count(&self) -> (r: usize)
        ensures
            r == self.texts().len(),
            r == self.names().len(),
    {
        self.files.len()
    }

    /// Get the next source character, crossing into the parent file at
    /// the end of a nested one.
    pub fn next(&mut self) -> (r: Option<SourceChar>)
        requires
            old(self).wf(),
        ensures
            final(self).wf(),
            final(self).texts() == old(self).texts(),
            final(self).names() == old(self).names(),
            r == head(old(self).chars()),
            final(self).chars() == tail(old(self).chars()),
    {
        advance(&self.files, &mut self.active)
    }
}

} // verus!

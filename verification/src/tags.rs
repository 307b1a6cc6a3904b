//! Escaped SSB text, split into tags and geometry, and tag lists split into tags.
use vstd::prelude::*;
use crate::text::{chars_of, string_of};

verus! {

/// Opens a tag.
pub const TAG_START_CHAR: char = '[';
/// Closes a tag.
pub const TAG_END_CHAR: char = ']';
/// Separates the tags in a tag list.
pub const TAG_SEPARATOR: char = ';';
/// Separates a tag's name from its value.
pub const TAG_ASSIGN: char = '=';

/// `s` with each occurrence of `pattern` replaced by `by`, scanning from left to right
/// without overlaps, as std's `str::replace` does for a non-empty pattern.
pub open spec fn replace_all(s: Seq<char>, pattern: Seq<char>, by: Seq<char>) -> Seq<char>
    decreases s.len(),
{
    if s.len() == 0 {
        Seq::<char>::empty()
    } else if 0 < pattern.len() <= s.len() && s.take(pattern.len() as int) == pattern {
        by + replace_all(s.skip(pattern.len() as int), pattern, by)
    } else {
        seq![s[0]] + replace_all(s.skip(1), pattern, by)
    }
}

/// The text after the escapes are read, with the escaped brackets still marked: `\\` is a
/// backslash, `\[` and `\]` are the marks `\x02` and `\x03`, `\n` is a line break.
pub open spec fn unescaped(s: Seq<char>) -> Seq<char> {
    let t1 = replace_all(s, seq!['\\', '\\'], seq!['\x1B']);
    let t2 = replace_all(t1, seq!['\\', '['], seq!['\x02']);
    let t3 = replace_all(t2, seq!['\\', ']'], seq!['\x03']);
    let t4 = replace_all(t3, seq!['\\', 'n'], seq!['\n']);
    replace_all(t4, seq!['\x1B'], seq!['\\'])
}

/// The unescaped text, escaped brackets included as plain brackets.
pub open spec fn escaped_text(s: Seq<char>) -> Seq<char> {
    replace_all(replace_all(unescaped(s), seq!['\x02'], seq!['[']), seq!['\x03'], seq![']'])
}

pub open spec fn is_bracket(c: char) -> bool {
    c == TAG_START_CHAR || c == TAG_END_CHAR
}

/// The brackets of `u` with their positions, in order.
pub open spec fn bracket_marks(u: Seq<char>) -> Seq<(int, char)>
    decreases u.len(),
{
    if u.len() == 0 {
        Seq::<(int, char)>::empty()
    } else if is_bracket(u.last()) {
        bracket_marks(u.drop_last()).push(((u.len() - 1) as int, u.last()))
    } else {
        bracket_marks(u.drop_last())
    }
}

fn single(a: char) -> (v: Vec<char>)
    ensures
        v@ == seq![a],
{
    let mut v: Vec<char> = Vec::new();
    v.push(a);
    assert(v@ =~= seq![a]);
    v
}

fn pair(a: char, b: char) -> (v: Vec<char>)
    ensures
        v@ == seq![a, b],
{
    let mut v: Vec<char> = Vec::new();
    v.push(a);
    v.push(b);
    assert(v@ =~= seq![a, b]);
    v
}

/// Whether `pattern` occurs in `s` at index `i`.
fn occurs_at(s: &Vec<char>, i: usize, pattern: &Vec<char>) -> (r: bool)
    requires
        i <= s@.len(),
    ensures
        r == (pattern@.len() <= s@.len() - i && s@.skip(i as int).take(pattern@.len() as int) == pattern@),
{
    if pattern.len() > s.len() - i {
        return false;
    }
    let mut k: usize = 0;
    while k < pattern.len()
        invariant
            i + pattern@.len() <= s@.len(),
            s@.len() <= usize::MAX,
            k <= pattern@.len(),
            forall|j: int| 0 <= j < k ==> s@[i + j] == pattern@[j],
        decreases pattern@.len() - k,
    {
        if s[i + k] != pattern[k] {
            assert(s@.skip(i as int).take(pattern@.len() as int)[k as int] != pattern@[k as int]);
            return false;
        }
        k = k + 1;
    }
    assert(s@.skip(i as int).take(pattern@.len() as int) =~= pattern@);
    true
}

/// Appends all of `more` to `r`.
pub fn append_chars(r: &mut Vec<char>, more: &Vec<char>)
    ensures
        final(r)@ == old(r)@ + more@,
{
    let ghost start = r@;
    let mut k: usize = 0;
    while k < more.len()
        invariant
            k <= more@.len(),
            r@ == start + more@.take(k as int),
        decreases more@.len() - k,
    {
        r.push(more[k]);
        k = k + 1;
        assert(r@ =~= start + more@.take(k as int));
    }
    assert(more@.take(more@.len() as int) =~= more@);
}

/// `s` with each occurrence of the non-empty `pattern` replaced by `by`, left to right.
fn replace_chars(s: &Vec<char>, pattern: &Vec<char>, by: &Vec<char>) -> (r: Vec<char>)
    requires
        pattern@.len() > 0,
    ensures
        r@ == replace_all(s@, pattern@, by@),
{
    let mut r: Vec<char> = Vec::new();
    let mut i: usize = 0;
    assert(s@.skip(0) =~= s@);
    assert(r@ + replace_all(s@, pattern@, by@) =~= replace_all(s@, pattern@, by@));
    while i < s.len()
        invariant
            i <= s@.len(),
            pattern@.len() > 0,
            r@ + replace_all(s@.skip(i as int), pattern@, by@) == replace_all(s@, pattern@, by@),
        decreases s@.len() - i,
    {
        let ghost rest = s@.skip(i as int);
        if occurs_at(s, i, pattern) {
            append_chars(&mut r, by);
            assert(rest.skip(pattern@.len() as int) =~= s@.skip(i + pattern@.len()));
            i = i + pattern.len();
        } else {
            r.push(s[i]);
            assert(rest.skip(1) =~= s@.skip(i + 1));
            i = i + 1;
        }
    }
    r
}

proof fn lemma_replace_one_char(s: Seq<char>, a: char, b: char)
    ensures
        replace_all(s, seq![a], seq![b]).len() == s.len(),
        forall|i: int| 0 <= i < s.len() ==> #[trigger] replace_all(s, seq![a], seq![b])[i] == if s[i] == a { b } else { s[i] },
    decreases s.len(),
{
    if s.len() > 0 {
        lemma_replace_one_char(s.skip(1), a, b);
        let r = replace_all(s, seq![a], seq![b]);
        let rest = replace_all(s.skip(1), seq![a], seq![b]);
        if s.take(1) == seq![a] {
            assert(s[0] == a) by { assert(s.take(1)[0] == s[0]); }
        } else {
            assert(s[0] != a) by {
                if s[0] == a { assert(s.take(1) =~= seq![a]); }
            }
        }
        assert forall|i: int| 0 <= i < s.len() implies #[trigger] r[i] == if s[i] == a { b } else { s[i] } by {
            if i > 0 {
                assert(r[i] == rest[i - 1]);
                assert(s.skip(1)[i - 1] == s[i]);
            }
        }
    }
}

proof fn lemma_bracket_marks(u: Seq<char>)
    ensures
        forall|i: int| 0 <= i < bracket_marks(u).len() ==> {
            let m = #[trigger] bracket_marks(u)[i];
            &&& 0 <= m.0 < u.len()
            &&& u[m.0] == m.1
            &&& is_bracket(m.1)
        },
        forall|i: int, j: int| 0 <= i < j < bracket_marks(u).len() ==> #[trigger] bracket_marks(u)[i].0 < #[trigger] bracket_marks(u)[j].0,
    decreases u.len(),
{
    if u.len() > 0 {
        let d = u.drop_last();
        lemma_bracket_marks(d);
        let prev = bracket_marks(d);
        let m = bracket_marks(u);
        assert forall|i: int| 0 <= i < m.len() implies {
            let x = #[trigger] m[i];
            &&& 0 <= x.0 < u.len()
            &&& u[x.0] == x.1
            &&& is_bracket(x.1)
        } by {
            if i < prev.len() {
                assert(m[i] == prev[i]);
                assert(d[prev[i].0] == u[prev[i].0]);
            }
        }
        assert forall|i: int, j: int| 0 <= i < j < m.len() implies #[trigger] m[i].0 < #[trigger] m[j].0 by {
            assert(m[i] == prev[i]);
            if j < prev.len() {
                assert(m[j] == prev[j]);
            }
        }
    }
}

/// SSB text with its escapes read, and the positions of its tag brackets: the brackets that
/// were not escaped.
pub struct EscapedText {
    text: String,
    tag_starts_ends: Vec<(usize, char)>,
}

/// Positions and kinds of marks, positions as integers.
pub open spec fn marks_view(m: Seq<(usize, char)>) -> Seq<(int, char)> {
    m.map_values(|x: (usize, char)| (x.0 as int, x.1))
}

/// Marks that are brackets of `text` at their positions, in increasing order.
pub open spec fn marks_fit(text: Seq<char>, marks: Seq<(int, char)>) -> bool {
    &&& forall|i: int| 0 <= i < marks.len() ==> {
        let m = #[trigger] marks[i];
        &&& 0 <= m.0 < text.len()
        &&& text[m.0] == m.1
        &&& is_bracket(m.1)
    }
    &&& forall|i: int, j: int| 0 <= i < j < marks.len() ==> #[trigger] marks[i].0 < #[trigger] marks[j].0
}

impl EscapedText {
    #[verifier::type_invariant]
    spec fn wf(self) -> bool {
        marks_fit(self.text@, marks_view(self.tag_starts_ends@))
    }

    /// The text, escapes read.
    pub closed spec fn text_view(self) -> Seq<char> {
        self.text@
    }

    /// The positions of the tag brackets in the text, in order, with the bracket.
    pub closed spec fn marks(self) -> Seq<(int, char)> {
        marks_view(self.tag_starts_ends@)
    }

    /// Walks through the text from its start.
    pub fn iter(&self) -> (it: TagGeometryIterator<'_>)
        ensures
            it.escaped() == *self,
            it.position() == 0,
    {
        TagGeometryIterator { source: self, pos: 0 }
    }

    /// Reads the escapes of `source`: `\\` is a backslash, `\[` and `\]` are brackets that
    /// open or close no tag, `\n` is a line break.
    pub fn new(source: &str) -> (e: Self)
        ensures
            e.text_view() == escaped_text(source@),
            e.marks() == bracket_marks(unescaped(source@)),
            marks_fit(e.text_view(), e.marks()),
    {
        let chars = chars_of(source);
        let t1 = replace_chars(&chars, &pair('\\', '\\'), &single('\x1B'));
        let t2 = replace_chars(&t1, &pair('\\', '['), &single('\x02'));
        let t3 = replace_chars(&t2, &pair('\\', ']'), &single('\x03'));
        let t4 = replace_chars(&t3, &pair('\\', 'n'), &single('\n'));
        let u = replace_chars(&t4, &single('\x1B'), &single('\\'));
        assert(u@ == unescaped(source@));
        let mut marks: Vec<(usize, char)> = Vec::new();
        let mut i: usize = 0;
        while i < u.len()
            invariant
                i <= u@.len(),
                marks_view(marks@) == bracket_marks(u@.take(i as int)),
            decreases u@.len() - i,
        {
            let ghost pre = u@.take(i as int);
            assert(u@.take(i + 1).drop_last() =~= pre);
            let c = u[i];
            if c == TAG_START_CHAR || c == TAG_END_CHAR {
                marks.push((i, c));
                assert(marks_view(marks@) =~= bracket_marks(pre).push((i as int, c)));
            }
            i = i + 1;
        }
        assert(u@.take(u@.len() as int) =~= u@);
        let v1 = replace_chars(&u, &single('\x02'), &single('['));
        let v2 = replace_chars(&v1, &single('\x03'), &single(']'));
        let text = string_of(&v2);
        proof {
            lemma_bracket_marks(u@);
            lemma_replace_one_char(u@, '\x02', '[');
            lemma_replace_one_char(v1@, '\x03', ']');
        }
        EscapedText { text, tag_starts_ends: marks }
    }
}

/// The position of the first tag start among `marks[k..]` that is at or after `pos`.
pub open spec fn first_tag_start(marks: Seq<(int, char)>, k: int, pos: int) -> Option<int>
    decreases marks.len() - k,
{
    if k < 0 || k >= marks.len() {
        None
    } else if marks[k].0 >= pos && marks[k].1 == TAG_START_CHAR {
        Some(marks[k].0)
    } else {
        first_tag_start(marks, k + 1, pos)
    }
}

/// The position of the tag end that closes the tag opened at `open`, scanning `marks[k..]`
/// with `depth` tags opened inside it and not closed yet.
pub open spec fn tag_end(marks: Seq<(int, char)>, k: int, open: int, depth: nat) -> Option<int>
    decreases marks.len() - k,
{
    if k < 0 || k >= marks.len() {
        None
    } else if marks[k].0 < open + 1 {
        tag_end(marks, k + 1, open, depth)
    } else if marks[k].1 == TAG_START_CHAR {
        tag_end(marks, k + 1, open, depth + 1)
    } else if marks[k].1 == TAG_END_CHAR {
        if depth == 0 {
            Some(marks[k].0)
        } else {
            tag_end(marks, k + 1, open, (depth - 1) as nat)
        }
    } else {
        tag_end(marks, k + 1, open, depth)
    }
}

/// One step through escaped text of length `len` with tag marks `marks`, from `pos`: `None`
/// at the end; else whether the chunk is a tag, where it starts and ends, and where the next
/// step starts. A tag runs from its start to the end that closes it (or to the end of the
/// text), brackets not included; geometry runs up to the next tag start (or to the end).
pub open spec fn geometry_step(len: int, marks: Seq<(int, char)>, pos: int) -> Option<(bool, int, int, int)> {
    if pos >= len {
        None
    } else {
        let start = first_tag_start(marks, 0, pos);
        if start == Some(pos) {
            match tag_end(marks, 0, pos, 0) {
                Some(end) => Some((true, pos + 1, end, end + 1)),
                None => Some((true, pos + 1, len, len)),
            }
        } else {
            match start {
                Some(next) => Some((false, pos, next, next)),
                None => Some((false, pos, len, len)),
            }
        }
    }
}

fn find_tag_start(marks: &Vec<(usize, char)>, pos: usize) -> (r: Option<usize>)
    ensures
        match r {
            Some(t) => first_tag_start(marks_view(marks@), 0, pos as int) == Some(t as int),
            None => first_tag_start(marks_view(marks@), 0, pos as int) is None,
        },
{
    let ghost mv = marks_view(marks@);
    let mut k: usize = 0;
    while k < marks.len()
        invariant
            k <= marks@.len(),
            mv == marks_view(marks@),
            first_tag_start(mv, 0, pos as int) == first_tag_start(mv, k as int, pos as int),
        decreases marks@.len() - k,
    {
        let (p, c) = marks[k];
        if p >= pos && c == TAG_START_CHAR {
            return Some(p);
        }
        k = k + 1;
    }
    None
}

fn find_tag_end(marks: &Vec<(usize, char)>, open: usize) -> (r: Option<usize>)
    ensures
        match r {
            Some(t) => tag_end(marks_view(marks@), 0, open as int, 0) == Some(t as int),
            None => tag_end(marks_view(marks@), 0, open as int, 0) is None,
        },
{
    let ghost mv = marks_view(marks@);
    let mut k: usize = 0;
    let mut depth: usize = 0;
    while k < marks.len()
        invariant
            k <= marks@.len(),
            depth <= k,
            mv == marks_view(marks@),
            tag_end(mv, 0, open as int, 0) == tag_end(mv, k as int, open as int, depth as nat),
        decreases marks@.len() - k,
    {
        let (p, c) = marks[k];
        if p > open {
            if c == TAG_START_CHAR {
                depth = depth + 1;
            } else if c == TAG_END_CHAR {
                if depth == 0 {
                    return Some(p);
                }
                depth = depth - 1;
            }
        }
        k = k + 1;
    }
    None
}

/// Walks through escaped text, giving tags and geometry in turn.
pub struct TagGeometryIterator<'src> {
    source: &'src EscapedText,
    pos: usize,
}

impl<'src> TagGeometryIterator<'src> {
    #[verifier::type_invariant]
    spec fn wf(self) -> bool {
        self.pos <= self.source.text@.len()
    }

    /// The text walked through.
    pub closed spec fn escaped(self) -> EscapedText {
        *self.source
    }

    /// Where the next step starts.
    pub closed spec fn position(self) -> int {
        self.pos as int
    }

    /// The next tag (`true` and its content) or geometry (`false` and its text), or `None`
    /// at the end of the text.
    pub fn next(&mut self) -> (r: Option<(bool, &'src str)>)
        ensures
            final(self).escaped() == old(self).escaped(),
            marks_fit(old(self).escaped().text_view(), old(self).escaped().marks()),
            match geometry_step(old(self).escaped().text_view().len() as int, old(self).escaped().marks(), old(self).position()) {
                None => r is None && final(self).position() == old(self).position(),
                Some((is_tag, from, to, next)) => r matches Some((t, chunk)) && t == is_tag
                    && chunk@ == old(self).escaped().text_view().subrange(from, to)
                    && final(self).position() == next,
            },
    {
        proof {
            use_type_invariant(&*self);
            use_type_invariant(self.source);
        }
        let source: &'src EscapedText = self.source;
        let text: &'src str = source.text.as_str();
        let n = text.unicode_len();
        let pos = self.pos;
        if pos == n {
            return None;
        }
        let marks = &source.tag_starts_ends;
        let tag_start = find_tag_start(marks, pos);
        let is_tag: bool;
        let chunk: &'src str;
        let next: usize;
        let starts_here = match tag_start {
            Some(t) => t == pos,
            None => false,
        };
        if starts_here {
            is_tag = true;
            match find_tag_end(marks, pos) {
                Some(end) => {
                    proof {
                        lemma_tag_end_after(marks_view(marks@), 0, pos as int, 0);
                        assert(marks_fit(source.text@, marks_view(marks@)));
                        lemma_tag_end_is_mark(marks_view(marks@), 0, pos as int, 0);
                    }
                    chunk = text.substring_char(pos + 1, end);
                    next = end + 1;
                },
                None => {
                    chunk = text.substring_char(pos + 1, n);
                    next = n;
                },
            }
        } else {
            is_tag = false;
            match tag_start {
                Some(t) => {
                    proof {
                        lemma_tag_start_is_mark(marks_view(marks@), 0, pos as int);
                    }
                    chunk = text.substring_char(pos, t);
                    next = t;
                },
                None => {
                    chunk = text.substring_char(pos, n);
                    next = n;
                },
            }
        }
        self.pos = next;
        Some((is_tag, chunk))
    }
}

proof fn lemma_tag_start_is_mark(marks: Seq<(int, char)>, k: int, pos: int)
    ensures
        first_tag_start(marks, k, pos) matches Some(t) ==> exists|i: int|
            0 <= i < marks.len() && #[trigger] marks[i] == (t, TAG_START_CHAR) && t >= pos,
    decreases marks.len() - k,
{
    if 0 <= k < marks.len() && !(marks[k].0 >= pos && marks[k].1 == TAG_START_CHAR) {
        lemma_tag_start_is_mark(marks, k + 1, pos);
    }
}

proof fn lemma_tag_end_is_mark(marks: Seq<(int, char)>, k: int, open: int, depth: nat)
    ensures
        tag_end(marks, k, open, depth) matches Some(e) ==> exists|i: int|
            0 <= i < marks.len() && #[trigger] marks[i] == (e, TAG_END_CHAR) && e > open,
    decreases marks.len() - k,
{
    if 0 <= k < marks.len() {
        if marks[k].0 < open + 1 {
            lemma_tag_end_is_mark(marks, k + 1, open, depth);
        } else if marks[k].1 == TAG_START_CHAR {
            lemma_tag_end_is_mark(marks, k + 1, open, depth + 1);
        } else if marks[k].1 == TAG_END_CHAR {
            if depth > 0 {
                lemma_tag_end_is_mark(marks, k + 1, open, (depth - 1) as nat);
            }
        } else {
            lemma_tag_end_is_mark(marks, k + 1, open, depth);
        }
    }
}

proof fn lemma_tag_end_after(marks: Seq<(int, char)>, k: int, open: int, depth: nat)
    ensures
        tag_end(marks, k, open, depth) matches Some(e) ==> e > open,
{
    lemma_tag_end_is_mark(marks, k, open, depth);
}

/// Law: each step through escaped text moves forward, and what it passes over is the chunk
/// it gives, a tag with its opening bracket and, where the tag is closed, its closing one:
/// so the chunks, brackets put back, make up the text again.
pub proof fn law_geometry_step_rejoins(text: Seq<char>, marks: Seq<(int, char)>, pos: int)
    requires
        marks_fit(text, marks),
        0 <= pos < text.len(),
    ensures
        geometry_step(text.len() as int, marks, pos) matches Some((is_tag, from, to, next)) && {
            &&& pos < next <= text.len()
            &&& from <= to
            &&& text.subrange(pos, next) == if is_tag {
                seq![TAG_START_CHAR] + text.subrange(from, to) + if next > to {
                    seq![TAG_END_CHAR]
                } else {
                    Seq::<char>::empty()
                }
            } else {
                text.subrange(from, to)
            }
        },
{
    lemma_tag_start_is_mark(marks, 0, pos);
    lemma_tag_end_is_mark(marks, 0, pos, 0);
    let start = first_tag_start(marks, 0, pos);
    if start == Some(pos) {
        let i = choose|i: int| 0 <= i < marks.len() && #[trigger] marks[i] == (pos, TAG_START_CHAR) && pos >= pos;
        assert(text[pos] == TAG_START_CHAR);
        match tag_end(marks, 0, pos, 0) {
            Some(end) => {
                let j = choose|j: int| 0 <= j < marks.len() && #[trigger] marks[j] == (end, TAG_END_CHAR) && end > pos;
                assert(text[end] == TAG_END_CHAR);
                assert(text.subrange(pos, end + 1) =~= seq![TAG_START_CHAR] + text.subrange(pos + 1, end) + seq![TAG_END_CHAR]);
            },
            None => {
                assert(text.subrange(pos, text.len() as int) =~= seq![TAG_START_CHAR] + text.subrange(pos + 1, text.len() as int) + Seq::<char>::empty());
            },
        }
    } else {
        match start {
            Some(t) => {
                let i = choose|i: int| 0 <= i < marks.len() && #[trigger] marks[i] == (t, TAG_START_CHAR) && t >= pos;
                assert(marks[i].0 < text.len());
            },
            None => {},
        }
    }
}

/// The number of bytes of `c` in UTF-8.
pub open spec fn utf8_width(c: char) -> nat {
    if (c as u32) < 0x80 {
        1
    } else if (c as u32) < 0x800 {
        2
    } else if (c as u32) < 0x10000 {
        3
    } else {
        4
    }
}

/// The number of bytes of `s[..i]` in UTF-8.
pub open spec fn utf8_offset(s: Seq<char>, i: int) -> nat
    decreases i,
{
    if i <= 0 || i > s.len() {
        0
    } else {
        utf8_offset(s, i - 1) + utf8_width(s[i - 1])
    }
}

/// The first tag separator in `s[k..]` that no bracket encloses, `depth` brackets being
/// open at `k`; a closing bracket with none open is passed over.
pub open spec fn separator_from(s: Seq<char>, k: int, depth: nat) -> Option<int>
    decreases s.len() - k,
{
    if k < 0 || k >= s.len() {
        None
    } else if s[k] == TAG_START_CHAR {
        separator_from(s, k + 1, depth + 1)
    } else if s[k] == TAG_END_CHAR {
        separator_from(s, k + 1, if depth > 0 { (depth - 1) as nat } else { 0 })
    } else if s[k] == TAG_SEPARATOR && depth == 0 {
        Some(k)
    } else {
        separator_from(s, k + 1, depth)
    }
}

/// The first index of `c` in `s[k..]`.
pub open spec fn index_of_from(s: Seq<char>, c: char, k: int) -> Option<int>
    decreases s.len() - k,
{
    if k < 0 || k >= s.len() {
        None
    } else if s[k] == c {
        Some(k)
    } else {
        index_of_from(s, c, k + 1)
    }
}

/// Where the tag that starts at `pos` of the tag list `s` ends, and where the next one
/// starts. The search for the separator starts as many characters into `s` as `s[..pos]`
/// has bytes in UTF-8 (the same index where the text before is ASCII).
pub open spec fn tag_token_bounds(s: Seq<char>, pos: int) -> (int, int) {
    match separator_from(s, utf8_offset(s, pos) as int, 0) {
        Some(k) => (k, k + 1),
        None => (s.len() as int, s.len() as int),
    }
}

/// One step through the tag list `s` from `pos`: `None` at the end; else the tag's name,
/// its value (what follows the first `=`, if there is one), and where the next step starts.
pub open spec fn tags_step(s: Seq<char>, pos: int) -> Option<(Seq<char>, Option<Seq<char>>, int)> {
    if pos >= s.len() {
        None
    } else {
        let (end, next) = tag_token_bounds(s, pos);
        let token = s.subrange(pos, end);
        match index_of_from(token, TAG_ASSIGN, 0) {
            Some(a) => Some((token.take(a), Some(token.skip(a + 1)), next)),
            None => Some((token, None, next)),
        }
    }
}

proof fn lemma_utf8_offset(s: Seq<char>, i: int)
    requires
        0 <= i <= s.len(),
    ensures
        utf8_offset(s, i) >= i,
    decreases i,
{
    if i > 0 {
        lemma_utf8_offset(s, i - 1);
    }
}

proof fn lemma_separator_from(s: Seq<char>, k: int, depth: nat)
    ensures
        separator_from(s, k, depth) matches Some(j) ==> k <= j < s.len() && s[j] == TAG_SEPARATOR,
    decreases s.len() - k,
{
    if 0 <= k < s.len() {
        if s[k] == TAG_START_CHAR {
            lemma_separator_from(s, k + 1, depth + 1);
        } else if s[k] == TAG_END_CHAR {
            lemma_separator_from(s, k + 1, if depth > 0 { (depth - 1) as nat } else { 0 });
        } else if !(s[k] == TAG_SEPARATOR && depth == 0) {
            lemma_separator_from(s, k + 1, depth);
        }
    }
}

proof fn lemma_index_of_from(s: Seq<char>, c: char, k: int)
    ensures
        index_of_from(s, c, k) matches Some(j) ==> k <= j < s.len() && s[j] == c,
    decreases s.len() - k,
{
    if 0 <= k < s.len() && s[k] != c {
        lemma_index_of_from(s, c, k + 1);
    }
}

fn utf8_width_of(c: char) -> (w: usize)
    ensures
        w == utf8_width(c),
{
    let v = c as u32;
    if v < 0x80 {
        1
    } else if v < 0x800 {
        2
    } else if v < 0x10000 {
        3
    } else {
        4
    }
}

/// Walks through a tag list `name=value;name;...`, giving each tag's name and value.
///
/// After the first tag, the search for the next separator starts as many characters into the
/// list as the text before the tag has bytes in UTF-8 (see [`tag_token_bounds`]). On ASCII
/// text that is where the tag starts; on other text the search can pass over separators, so
/// that `éé;a;b` gives `éé` and then `a;b`.
pub struct TagsIterator<'src> {
    text: &'src str,
    pos: usize,
    skip: usize,
}

impl<'src> TagsIterator<'src> {
    #[verifier::type_invariant]
    spec fn wf(self) -> bool {
        &&& self.pos <= self.text@.len()
        &&& self.skip as int == if utf8_offset(self.text@, self.pos as int) < self.text@.len() {
            utf8_offset(self.text@, self.pos as int) as int
        } else {
            self.text@.len() as int
        }
    }

    /// The tag list walked through.
    pub closed spec fn text_view(self) -> Seq<char> {
        self.text@
    }

    /// Where the next step starts.
    pub closed spec fn position(self) -> int {
        self.pos as int
    }

    /// Walks through `text` from its start.
    pub fn new(text: &'src str) -> (it: Self)
        ensures
            it.text_view() == text@,
            it.position() == 0,
    {
        TagsIterator { text, pos: 0, skip: 0 }
    }

    /// The next tag's name and value, or `None` at the end of the list.
    pub fn next(&mut self) -> (r: Option<(&'src str, Option<&'src str>)>)
        ensures
            final(self).text_view() == old(self).text_view(),
            match tags_step(old(self).text_view(), old(self).position()) {
                None => r is None && final(self).position() == old(self).position(),
                Some((name, value, next)) => r matches Some((n, v)) && n@ == name
                    && match value {
                        Some(val) => v matches Some(w) && w@ == val,
                        None => v is None,
                    }
                    && final(self).position() == next,
            },
    {
        proof {
            use_type_invariant(&*self);
        }
        let text: &'src str = self.text;
        let n = text.unicode_len();
        let pos = self.pos;
        if pos == n {
            return None;
        }
        let ghost s = text@;
        // The separator search starts `self.skip` characters in, where `self.skip` is the
        // byte offset of `pos` (any value from `n` on meaning none is left).
        let mut k: usize = self.skip;
        let mut depth: usize = 0;
        let mut sep: Option<usize> = None;
        proof {
            lemma_utf8_offset(s, pos as int);
            if utf8_offset(s, pos as int) >= n {
                assert(separator_from(s, utf8_offset(s, pos as int) as int, 0) is None);
            }
        }
        while k < n
            invariant_except_break
                s == text@,
                n == s.len(),
                pos < n,
                self.skip <= k <= n,
                depth <= k,
                self.skip == utf8_offset(s, pos as int) || utf8_offset(s, pos as int) >= n,
                separator_from(s, utf8_offset(s, pos as int) as int, 0) == separator_from(s, k as int, depth as nat),
                sep is None,
            ensures
                s == text@,
                n == s.len(),
                match sep {
                    Some(j) => separator_from(s, utf8_offset(s, pos as int) as int, 0) == Some(j as int),
                    None => separator_from(s, utf8_offset(s, pos as int) as int, 0) is None,
                },
            decreases n - k,
        {
            let c = text.get_char(k);
            if c == TAG_START_CHAR {
                depth = depth + 1;
            } else if c == TAG_END_CHAR {
                if depth > 0 {
                    depth = depth - 1;
                }
            } else if c == TAG_SEPARATOR && depth == 0 {
                sep = Some(k);
                break;
            }
            k = k + 1;
        }
        let end: usize;
        let next: usize;
        let next_skip: usize;
        match sep {
            Some(j) => {
                proof {
                    lemma_separator_from(s, utf8_offset(s, pos as int) as int, 0);
                }
                end = j;
                next = j + 1;
                next_skip = self.skip_after(j);
            },
            None => {
                end = n;
                next = n;
                next_skip = n;
                proof {
                    lemma_utf8_offset(s, n as int);
                }
            },
        }
        let mut a: usize = pos;
        while a < end && text.get_char(a) != TAG_ASSIGN
            invariant
                s == text@,
                pos <= a <= end <= n,
                n == s.len(),
                index_of_from(s.subrange(pos as int, end as int), TAG_ASSIGN, 0)
                    == index_of_from(s.subrange(pos as int, end as int), TAG_ASSIGN, (a - pos) as int),
            decreases end - a,
        {
            a = a + 1;
        }
        let ghost token = s.subrange(pos as int, end as int);
        *self = TagsIterator { text, pos: next, skip: next_skip };
        if a < end {
            assert(token.take((a - pos) as int) =~= s.subrange(pos as int, a as int));
            assert(token.skip((a - pos) as int + 1) =~= s.subrange(a + 1, end as int));
            Some((text.substring_char(pos, a), Some(text.substring_char(a + 1, end))))
        } else {
            Some((text.substring_char(pos, end), None))
        }
    }

    /// The search start for the step after a separator at `j`: the byte offset of `j + 1`,
    /// or the length in characters if that is smaller.
    fn skip_after(&self, j: usize) -> (r: usize)
        requires
            self.pos <= j < self.text@.len(),
            self.text@[j as int] == TAG_SEPARATOR,
            utf8_offset(self.text@, self.pos as int) <= j,
        ensures
            r as int == if utf8_offset(self.text@, j + 1) < self.text@.len() {
                utf8_offset(self.text@, j + 1) as int
            } else {
                self.text@.len() as int
            },
    {
        proof {
            use_type_invariant(self);
        }
        let n = self.text.unicode_len();
        let mut acc: usize = self.skip;
        let mut i: usize = self.pos;
        while i <= j
            invariant
                self.pos <= i <= j + 1,
                j < n,
                n == self.text@.len(),
                acc as int == if utf8_offset(self.text@, i as int) < n {
                    utf8_offset(self.text@, i as int) as int
                } else {
                    n as int
                },
            decreases j + 1 - i,
        {
            let w = utf8_width_of(self.text.get_char(i));
            if w > n - acc {
                acc = n;
            } else {
                acc = acc + w;
                if acc > n {
                    acc = n;
                }
            }
            i = i + 1;
        }
        acc
    }
}

/// Law: each step through a tag list moves forward, and what it passes over is the tag's
/// name, then `=` and its value where it has one, then the separator unless the list ended:
/// so the tags, put back together, make up the list again. The name holds no `=`: on every
/// list, ASCII or not, a tag is split at its first `=`, and it has no value only where it
/// holds no `=`.
pub proof fn law_tags_step_rejoins(s: Seq<char>, pos: int)
    requires
        0 <= pos < s.len(),
    ensures
        tags_step(s, pos) matches Some((name, value, next)) && {
            let end = tag_token_bounds(s, pos).0;
            &&& pos <= end < next <= s.len() || pos <= end == next == s.len()
            &&& s.subrange(pos, end) == name + match value {
                Some(v) => seq![TAG_ASSIGN] + v,
                None => Seq::<char>::empty(),
            }
            &&& end < next ==> next == end + 1 && s[end] == TAG_SEPARATOR
            &&& forall|i: int| 0 <= i < name.len() ==> #[trigger] name[i] != TAG_ASSIGN
        },
{
    lemma_utf8_offset(s, pos);
    lemma_separator_from(s, utf8_offset(s, pos) as int, 0);
    let end = tag_token_bounds(s, pos).0;
    let token = s.subrange(pos, end);
    lemma_index_of_from(token, TAG_ASSIGN, 0);
    lemma_index_of_from_least(token, TAG_ASSIGN, 0);
    match index_of_from(token, TAG_ASSIGN, 0) {
        Some(a) => {
            assert(token =~= token.take(a) + seq![TAG_ASSIGN] + token.skip(a + 1));
        },
        None => {},
    }
}

proof fn lemma_index_of_from_least(s: Seq<char>, c: char, k: int)
    requires
        0 <= k,
    ensures
        match index_of_from(s, c, k) {
            Some(j) => forall|i: int| k <= i < j ==> s[i] != c,
            None => forall|i: int| k <= i < s.len() ==> s[i] != c,
        },
    decreases s.len() - k,
{
    if k < s.len() && s[k] != c {
        lemma_index_of_from_least(s, c, k + 1);
    }
}

/// Law: where the text before `pos` is ASCII, its UTF-8 length is `pos`, so the separator
/// search of a step starts at `pos` itself.
pub proof fn law_ascii_offset(s: Seq<char>, pos: int)
    requires
        0 <= pos <= s.len(),
        forall|i: int| 0 <= i < pos ==> (s[i] as u32) < 0x80,
    ensures
        utf8_offset(s, pos) == pos,
    decreases pos,
{
    if pos > 0 {
        law_ascii_offset(s, pos - 1);
    }
}

proof fn lemma_replace_absent(s: Seq<char>, pattern: Seq<char>, by: Seq<char>)
    requires
        pattern.len() > 0,
        forall|i: int| 0 <= i < s.len() ==> s[i] != pattern[0],
    ensures
        replace_all(s, pattern, by) == s,
    decreases s.len(),
{
    if s.len() > 0 {
        if pattern.len() <= s.len() && s.take(pattern.len() as int) == pattern {
            assert(s.take(pattern.len() as int)[0] == s[0]);
        }
        lemma_replace_absent(s.skip(1), pattern, by);
        assert(seq![s[0]] + s.skip(1) =~= s);
    }
}

/// Law: text without backslashes (and without the control characters `\x02`, `\x03` and
/// `\x1B`) reads as itself, and all its brackets are tag brackets.
pub proof fn law_plain_text_unchanged(s: Seq<char>)
    requires
        forall|i: int| 0 <= i < s.len() ==> s[i] != '\\' && s[i] != '\x1B' && s[i] != '\x02' && s[i] != '\x03',
    ensures
        unescaped(s) == s,
        escaped_text(s) == s,
{
    lemma_replace_absent(s, seq!['\\', '\\'], seq!['\x1B']);
    lemma_replace_absent(s, seq!['\\', '['], seq!['\x02']);
    lemma_replace_absent(s, seq!['\\', ']'], seq!['\x03']);
    lemma_replace_absent(s, seq!['\\', 'n'], seq!['\n']);
    lemma_replace_absent(s, seq!['\x1B'], seq!['\\']);
    lemma_replace_absent(s, seq!['\x02'], seq!['[']);
    lemma_replace_absent(s, seq!['\x03'], seq![']']);
}

/// The steps of a walk through escaped text of length `len` with tag marks `marks`, from
/// `pos` to the end, each as [`geometry_step`] gives it.
pub open spec fn geometry_walk(len: int, marks: Seq<(int, char)>, pos: int) -> Seq<(bool, int, int, int)>
    decreases len - pos,
{
    match geometry_step(len, marks, pos) {
        Some(step) => if pos < step.3 <= len {
            seq![step] + geometry_walk(len, marks, step.3)
        } else {
            seq![step]
        },
        None => Seq::empty(),
    }
}

/// What a step passes over: a tag with its opening bracket, and its closing bracket where it
/// is closed; geometry as it is.
pub open spec fn step_text(text: Seq<char>, step: (bool, int, int, int)) -> Seq<char> {
    if step.0 {
        seq![TAG_START_CHAR] + text.subrange(step.1, step.2) + if step.3 > step.2 {
            seq![TAG_END_CHAR]
        } else {
            Seq::<char>::empty()
        }
    } else {
        text.subrange(step.1, step.2)
    }
}

/// The texts of `steps`, one after the other.
pub open spec fn walk_text(text: Seq<char>, steps: Seq<(bool, int, int, int)>) -> Seq<char>
    decreases steps.len(),
{
    if steps.len() == 0 {
        Seq::empty()
    } else {
        step_text(text, steps[0]) + walk_text(text, steps.skip(1))
    }
}

/// Whether the brackets among `marks[k..]` with positions in `[lo, hi)` are balanced, `depth`
/// of them being open at `k`: no closing bracket without an open one, none open at the end.
pub open spec fn balanced_from(marks: Seq<(int, char)>, k: int, lo: int, hi: int, depth: nat) -> bool
    decreases marks.len() - k,
{
    if k < 0 || k >= marks.len() {
        depth == 0
    } else if marks[k].0 < lo || marks[k].0 >= hi {
        balanced_from(marks, k + 1, lo, hi, depth)
    } else if marks[k].1 == TAG_START_CHAR {
        balanced_from(marks, k + 1, lo, hi, depth + 1)
    } else if marks[k].1 == TAG_END_CHAR {
        depth > 0 && balanced_from(marks, k + 1, lo, hi, (depth - 1) as nat)
    } else {
        balanced_from(marks, k + 1, lo, hi, depth)
    }
}

pub open spec fn marks_sorted(marks: Seq<(int, char)>) -> bool {
    forall|i: int, j: int| 0 <= i < j < marks.len() ==> #[trigger] marks[i].0 < #[trigger] marks[j].0
}

proof fn lemma_first_tag_start_least(marks: Seq<(int, char)>, k: int, pos: int)
    requires
        marks_sorted(marks),
        0 <= k,
    ensures
        match first_tag_start(marks, k, pos) {
            Some(t) => t >= pos && first_tag_start(marks, k, t) == Some(t) && forall|i: int|
                k <= i < marks.len() && #[trigger] marks[i].0 >= pos && marks[i].1 == TAG_START_CHAR ==> marks[i].0 >= t,
            None => forall|i: int|
                k <= i < marks.len() && #[trigger] marks[i].0 >= pos ==> marks[i].1 != TAG_START_CHAR,
        },
    decreases marks.len() - k,
{
    if k < marks.len() {
        lemma_first_tag_start_least(marks, k + 1, pos);
        if marks[k].0 >= pos && marks[k].1 == TAG_START_CHAR {
            let t = marks[k].0;
            assert forall|i: int| k <= i < marks.len() && #[trigger] marks[i].0 >= pos && marks[i].1 == TAG_START_CHAR implies marks[i].0 >= t by {
                if i > k {
                    assert(marks[k].0 < marks[i].0);
                }
            }
        } else if let Some(t) = first_tag_start(marks, k + 1, pos) {
            assert(!(marks[k].0 >= t && marks[k].1 == TAG_START_CHAR));
        }
    }
}

proof fn lemma_tag_end_index(marks: Seq<(int, char)>, k: int, open: int, depth: nat)
    requires
        marks_sorted(marks),
        0 <= k,
    ensures
        tag_end(marks, k, open, depth) matches Some(e) ==> exists|j: int|
            k <= j < marks.len() && #[trigger] marks[j] == (e, TAG_END_CHAR),
        tag_end(marks, k, open, depth) matches Some(e) ==> balanced_from(marks, k, open + 1, e, depth),
    decreases marks.len() - k,
{
    if k < marks.len() {
        if marks[k].0 < open + 1 {
            lemma_tag_end_index(marks, k + 1, open, depth);
        } else if marks[k].1 == TAG_START_CHAR {
            lemma_tag_end_index(marks, k + 1, open, depth + 1);
            if let Some(e) = tag_end(marks, k, open, depth) {
                let j = choose|j: int| k + 1 <= j < marks.len() && #[trigger] marks[j] == (e, TAG_END_CHAR);
                assert(marks[k].0 < marks[j].0);
            }
        } else if marks[k].1 == TAG_END_CHAR {
            if depth > 0 {
                lemma_tag_end_index(marks, k + 1, open, (depth - 1) as nat);
                if let Some(e) = tag_end(marks, k, open, depth) {
                    let j = choose|j: int| k + 1 <= j < marks.len() && #[trigger] marks[j] == (e, TAG_END_CHAR);
                    assert(marks[k].0 < marks[j].0);
                }
            } else {
                lemma_balanced_after(marks, k + 1, open + 1, marks[k].0);
            }
        } else {
            lemma_tag_end_index(marks, k + 1, open, depth);
        }
    }
}

proof fn lemma_balanced_after(marks: Seq<(int, char)>, k: int, lo: int, hi: int)
    requires
        marks_sorted(marks),
        0 < k <= marks.len(),
        marks[k - 1].0 >= hi,
    ensures
        balanced_from(marks, k, lo, hi, 0),
    decreases marks.len() - k,
{
    if k < marks.len() {
        assert(marks[k - 1].0 < marks[k].0);
        lemma_balanced_after(marks, k + 1, lo, hi);
    }
}

proof fn lemma_walk_from(text: Seq<char>, marks: Seq<(int, char)>, pos: int)
    requires
        marks_fit(text, marks),
        0 <= pos <= text.len(),
    ensures
        walk_text(text, geometry_walk(text.len() as int, marks, pos)) == text.subrange(pos, text.len() as int),
        forall|i: int| 0 <= i < geometry_walk(text.len() as int, marks, pos).len() ==> {
            let step = #[trigger] geometry_walk(text.len() as int, marks, pos)[i];
            &&& pos <= step.1 <= step.2 <= text.len()
            &&& !step.0 ==> step.1 < step.2 && forall|m: int| 0 <= m < marks.len() && #[trigger] marks[m].1 == TAG_START_CHAR
                ==> !(step.1 <= marks[m].0 < step.2)
            &&& step.0 && step.3 > step.2 ==> balanced_from(marks, 0, step.1, step.2, 0)
            &&& !step.0 && i + 1 < geometry_walk(text.len() as int, marks, pos).len()
                ==> geometry_walk(text.len() as int, marks, pos)[i + 1].0
        },
    decreases text.len() - pos,
{
    let len = text.len() as int;
    let walk = geometry_walk(len, marks, pos);
    if pos == len {
        assert(walk =~= Seq::<(bool, int, int, int)>::empty());
        assert(text.subrange(pos, len) =~= Seq::<char>::empty());
    } else {
        law_geometry_step_rejoins(text, marks, pos);
        lemma_first_tag_start_least(marks, 0, pos);
        lemma_tag_end_index(marks, 0, pos, 0);
        let step = geometry_step(len, marks, pos).unwrap();
        let next = step.3;
        lemma_walk_from(text, marks, next);
        let rest = geometry_walk(len, marks, next);
        assert(walk == seq![step] + rest);
        assert(walk.skip(1) =~= rest);
        assert(walk_text(text, walk) == step_text(text, step) + walk_text(text, rest));
        assert(text.subrange(pos, len) =~= text.subrange(pos, next) + text.subrange(next, len));
        if !step.0 {
            if let Some(t) = first_tag_start(marks, 0, pos) {
                assert(t != pos);
                if rest.len() > 0 {
                    assert(first_tag_start(marks, 0, t) == Some(t));
                    assert(rest[0] == geometry_step(len, marks, t).unwrap());
                }
            } else {
                assert(rest.len() == 0);
            }
        }
        assert forall|i: int| 0 <= i < walk.len() implies {
            let st = #[trigger] walk[i];
            &&& pos <= st.1 <= st.2 <= text.len()
            &&& !st.0 ==> st.1 < st.2 && forall|m: int| 0 <= m < marks.len() && #[trigger] marks[m].1 == TAG_START_CHAR
                ==> !(st.1 <= marks[m].0 < st.2)
            &&& st.0 && st.3 > st.2 ==> balanced_from(marks, 0, st.1, st.2, 0)
            &&& !st.0 && i + 1 < walk.len() ==> walk[i + 1].0
        } by {
            if i > 0 {
                assert(walk[i] == rest[i - 1]);
                if i + 1 < walk.len() {
                    assert(walk[i + 1] == rest[i]);
                }
            } else {
                if !step.0 {
                    assert forall|m: int| 0 <= m < marks.len() && #[trigger] marks[m].1 == TAG_START_CHAR
                        implies !(step.1 <= marks[m].0 < step.2) by {
                        if step.1 <= marks[m].0 && marks[m].0 < step.2 {
                            assert(marks[m].0 >= pos);
                        }
                    }
                }
            }
        }
    }
}

/// Law: a walk through escaped text gives the text back when each tag is put back with its
/// opening bracket, and its closing bracket where it is closed; no geometry is empty or holds
/// a tag start, and geometry is always followed by a tag; the tag brackets inside a closed
/// tag are balanced, so tags nested in it stay whole.
pub proof fn law_geometry_walk(text: Seq<char>, marks: Seq<(int, char)>)
    requires
        marks_fit(text, marks),
    ensures
        walk_text(text, geometry_walk(text.len() as int, marks, 0)) == text,
        forall|i: int| 0 <= i < geometry_walk(text.len() as int, marks, 0).len() ==> {
            let step = #[trigger] geometry_walk(text.len() as int, marks, 0)[i];
            &&& 0 <= step.1 <= step.2 <= text.len()
            &&& !step.0 ==> step.1 < step.2 && forall|m: int| 0 <= m < marks.len() && #[trigger] marks[m].1 == TAG_START_CHAR
                ==> !(step.1 <= marks[m].0 < step.2)
            &&& step.0 && step.3 > step.2 ==> balanced_from(marks, 0, step.1, step.2, 0)
            &&& !step.0 && i + 1 < geometry_walk(text.len() as int, marks, 0).len()
                ==> geometry_walk(text.len() as int, marks, 0)[i + 1].0
        },
{
    lemma_walk_from(text, marks, 0);
    assert(text.subrange(0, text.len() as int) =~= text);
}

/// The escapes of `s` read from left to right in one pass: `\\` is a backslash, `\[` and `\]`
/// are the marks `\x02` and `\x03` of brackets that open or close no tag, `\n` is a line
/// break, and any other character stands for itself.
pub open spec fn read_escapes_marked(s: Seq<char>) -> Seq<char>
    decreases s.len(),
{
    if s.len() == 0 {
        Seq::empty()
    } else if s.len() >= 2 && s[0] == '\\' && s[1] == '\\' {
        seq!['\\'] + read_escapes_marked(s.skip(2))
    } else if s.len() >= 2 && s[0] == '\\' && s[1] == '[' {
        seq!['\x02'] + read_escapes_marked(s.skip(2))
    } else if s.len() >= 2 && s[0] == '\\' && s[1] == ']' {
        seq!['\x03'] + read_escapes_marked(s.skip(2))
    } else if s.len() >= 2 && s[0] == '\\' && s[1] == 'n' {
        seq!['\n'] + read_escapes_marked(s.skip(2))
    } else {
        seq![s[0]] + read_escapes_marked(s.skip(1))
    }
}

/// The escapes of `s` read from left to right in one pass: `\\` is a backslash, `\[` and `\]`
/// are brackets, `\n` is a line break, and any other character stands for itself.
pub open spec fn read_escapes(s: Seq<char>) -> Seq<char>
    decreases s.len(),
{
    if s.len() == 0 {
        Seq::empty()
    } else if s.len() >= 2 && s[0] == '\\' && s[1] == '\\' {
        seq!['\\'] + read_escapes(s.skip(2))
    } else if s.len() >= 2 && s[0] == '\\' && s[1] == '[' {
        seq!['['] + read_escapes(s.skip(2))
    } else if s.len() >= 2 && s[0] == '\\' && s[1] == ']' {
        seq![']'] + read_escapes(s.skip(2))
    } else if s.len() >= 2 && s[0] == '\\' && s[1] == 'n' {
        seq!['\n'] + read_escapes(s.skip(2))
    } else {
        seq![s[0]] + read_escapes(s.skip(1))
    }
}

proof fn lemma_replace_other_first(c: char, x: Seq<char>, p: Seq<char>, b: Seq<char>)
    requires
        p.len() > 0,
        c != p[0],
    ensures
        replace_all(seq![c] + x, p, b) == seq![c] + replace_all(x, p, b),
{
    let s = seq![c] + x;
    if p.len() <= s.len() && s.take(p.len() as int) == p {
        assert(s.take(p.len() as int)[0] == c);
    }
    assert(s.skip(1) =~= x);
}

proof fn lemma_replace_pattern_first(p: Seq<char>, x: Seq<char>, b: Seq<char>)
    requires
        p.len() > 0,
    ensures
        replace_all(p + x, p, b) == b + replace_all(x, p, b),
{
    let s = p + x;
    assert(s.take(p.len() as int) =~= p);
    assert(s.skip(p.len() as int) =~= x);
}

proof fn lemma_replace_partial_first(c: char, x: Seq<char>, p: Seq<char>, b: Seq<char>)
    requires
        p.len() == 2,
        x.len() == 0 || x[0] != p[1],
    ensures
        replace_all(seq![c] + x, p, b) == seq![c] + replace_all(x, p, b),
{
    let s = seq![c] + x;
    if p.len() <= s.len() && s.take(p.len() as int) == p {
        assert(s.take(p.len() as int)[1] == x[0]);
    }
    assert(s.skip(1) =~= x);
}

/// `replace_all(y, p, b)` starts as `y` does where `y` does not start with `p[0]`.
proof fn lemma_replace_keeps_first(y: Seq<char>, p: Seq<char>, b: Seq<char>)
    requires
        p.len() > 0,
        y.len() > 0,
        y[0] != p[0],
    ensures
        replace_all(y, p, b).len() > 0,
        replace_all(y, p, b)[0] == y[0],
{
    assert(y =~= seq![y[0]] + y.skip(1));
    lemma_replace_other_first(y[0], y.skip(1), p, b);
}

proof fn lemma_unescaped_one_pass(s: Seq<char>)
    requires
        forall|i: int| 0 <= i < s.len() ==> s[i] != '\x1B',
    ensures
        unescaped(s) == read_escapes_marked(s),
    decreases s.len(),
{
    let p1 = seq!['\\', '\\'];
    let p2 = seq!['\\', '['];
    let p3 = seq!['\\', ']'];
    let p4 = seq!['\\', 'n'];
    let p5 = seq!['\x1B'];
    let b1 = seq!['\x1B'];
    let b2 = seq!['\x02'];
    let b3 = seq!['\x03'];
    let b4 = seq!['\n'];
    let b5 = seq!['\\'];
    if s.len() == 0 {
        assert(replace_all(s, p1, b1) =~= s);
    } else if s.len() >= 2 && s[0] == '\\' && (s[1] == '\\' || s[1] == '[' || s[1] == ']' || s[1] == 'n') {
        let x = s.skip(2);
        lemma_unescaped_one_pass(x);
        let y1 = replace_all(x, p1, b1);
        let y2 = replace_all(y1, p2, b2);
        let y3 = replace_all(y2, p3, b3);
        let y4 = replace_all(y3, p4, b4);
        assert(s =~= seq![s[0], s[1]] + x);
        if s[1] == '\\' {
            assert(s =~= p1 + x);
            lemma_replace_pattern_first(p1, x, b1);
            lemma_replace_other_first('\x1B', y1, p2, b2);
            lemma_replace_other_first('\x1B', y2, p3, b3);
            lemma_replace_other_first('\x1B', y3, p4, b4);
            lemma_replace_pattern_first(p5, y4, b5);
        } else {
            lemma_replace_other_first(s[1], x, p1, b1);
            lemma_replace_partial_first('\\', seq![s[1]] + x, p1, b1);
            assert(seq!['\\'] + (seq![s[1]] + x) =~= s);
            assert(seq!['\\'] + (seq![s[1]] + y1) =~= seq!['\\', s[1]] + y1);
            if s[1] == '[' {
                lemma_replace_pattern_first(p2, y1, b2);
                lemma_replace_other_first('\x02', y2, p3, b3);
                lemma_replace_other_first('\x02', y3, p4, b4);
                lemma_replace_other_first('\x02', y4, p5, b5);
            } else {
                lemma_replace_other_first(s[1], y1, p2, b2);
                lemma_replace_partial_first('\\', seq![s[1]] + y1, p2, b2);
                assert(seq!['\\'] + (seq![s[1]] + y2) =~= seq!['\\', s[1]] + y2);
                if s[1] == ']' {
                    lemma_replace_pattern_first(p3, y2, b3);
                    lemma_replace_other_first('\x03', y3, p4, b4);
                    lemma_replace_other_first('\x03', y4, p5, b5);
                } else {
                    lemma_replace_other_first(s[1], y2, p3, b3);
                    lemma_replace_partial_first('\\', seq![s[1]] + y2, p3, b3);
                    assert(seq!['\\'] + (seq![s[1]] + y3) =~= seq!['\\', s[1]] + y3);
                    lemma_replace_pattern_first(p4, y3, b4);
                    lemma_replace_other_first('\n', y4, p5, b5);
                }
            }
        }
    } else {
        let x = s.skip(1);
        lemma_unescaped_one_pass(x);
        let c = s[0];
        assert(s =~= seq![c] + x);
        let y1 = replace_all(x, p1, b1);
        let y2 = replace_all(y1, p2, b2);
        let y3 = replace_all(y2, p3, b3);
        let y4 = replace_all(y3, p4, b4);
        if c == '\\' {
            if x.len() > 0 {
                lemma_replace_keeps_first(x, p1, b1);
                lemma_replace_keeps_first(y1, p2, b2);
                lemma_replace_keeps_first(y2, p3, b3);
            } else {
                assert(y1 =~= Seq::<char>::empty());
                assert(y2 =~= Seq::<char>::empty());
                assert(y3 =~= Seq::<char>::empty());
            }
            lemma_replace_partial_first(c, x, p1, b1);
            lemma_replace_partial_first(c, y1, p2, b2);
            lemma_replace_partial_first(c, y2, p3, b3);
            lemma_replace_partial_first(c, y3, p4, b4);
            lemma_replace_other_first(c, y4, p5, b5);
        } else {
            lemma_replace_other_first(c, x, p1, b1);
            lemma_replace_other_first(c, y1, p2, b2);
            lemma_replace_other_first(c, y2, p3, b3);
            lemma_replace_other_first(c, y3, p4, b4);
            lemma_replace_other_first(c, y4, p5, b5);
        }
    }
}

proof fn lemma_marked_to_plain(s: Seq<char>)
    requires
        forall|i: int| 0 <= i < s.len() ==> s[i] != '\x02' && s[i] != '\x03',
    ensures
        replace_all(replace_all(read_escapes_marked(s), seq!['\x02'], seq!['[']), seq!['\x03'], seq![']'])
            == read_escapes(s),
    decreases s.len(),
{
    let q2 = seq!['\x02'];
    let q3 = seq!['\x03'];
    let m = read_escapes_marked(s);
    if s.len() == 0 {
        assert(replace_all(m, q2, seq!['[']) =~= m);
    } else {
        let two = s.len() >= 2 && s[0] == '\\' && (s[1] == '\\' || s[1] == '[' || s[1] == ']' || s[1] == 'n');
        let x = if two { s.skip(2) } else { s.skip(1) };
        lemma_marked_to_plain(x);
        let mx = read_escapes_marked(x);
        let z = replace_all(mx, q2, seq!['[']);
        let c = m[0];
        assert(m == seq![c] + mx);
        if c == '\x02' {
            lemma_replace_pattern_first(q2, mx, seq!['[']);
            lemma_replace_other_first('[', z, q3, seq![']']);
        } else if c == '\x03' {
            lemma_replace_other_first(c, mx, q2, seq!['[']);
            lemma_replace_pattern_first(q3, z, seq![']']);
        } else {
            lemma_replace_other_first(c, mx, q2, seq!['[']);
            lemma_replace_other_first(c, z, q3, seq![']']);
        }
    }
}

/// Law: where the source holds none of the control characters `\x02`, `\x03` and `\x1B`,
/// reading its escapes comes to one pass from left to right: [`unescaped`] is
/// [`read_escapes_marked`], in which escaped brackets are marks and not brackets (so they
/// never open or close a tag), and [`escaped_text`] is [`read_escapes`].
pub proof fn law_escapes_read_left_to_right(s: Seq<char>)
    requires
        forall|i: int| 0 <= i < s.len() ==> s[i] != '\x1B' && s[i] != '\x02' && s[i] != '\x03',
    ensures
        unescaped(s) == read_escapes_marked(s),
        escaped_text(s) == read_escapes(s),
{
    lemma_unescaped_one_pass(s);
    lemma_marked_to_plain(s);
}

/// Whether, among `marks[k..]` with positions in `[lo, hi)`, no closing bracket comes
/// without an open one, `depth` of them being open at `k`.
pub open spec fn never_below(marks: Seq<(int, char)>, k: int, lo: int, hi: int, depth: nat) -> bool
    decreases marks.len() - k,
{
    if k < 0 || k >= marks.len() {
        true
    } else if marks[k].0 < lo || marks[k].0 >= hi {
        never_below(marks, k + 1, lo, hi, depth)
    } else if marks[k].1 == TAG_START_CHAR {
        never_below(marks, k + 1, lo, hi, depth + 1)
    } else if marks[k].1 == TAG_END_CHAR {
        depth > 0 && never_below(marks, k + 1, lo, hi, (depth - 1) as nat)
    } else {
        never_below(marks, k + 1, lo, hi, depth)
    }
}

proof fn lemma_balanced_never_below(marks: Seq<(int, char)>, k: int, lo: int, hi: int, depth: nat)
    requires
        balanced_from(marks, k, lo, hi, depth),
    ensures
        never_below(marks, k, lo, hi, depth),
    decreases marks.len() - k,
{
    if 0 <= k < marks.len() {
        if marks[k].0 < lo || marks[k].0 >= hi {
            lemma_balanced_never_below(marks, k + 1, lo, hi, depth);
        } else if marks[k].1 == TAG_START_CHAR {
            lemma_balanced_never_below(marks, k + 1, lo, hi, depth + 1);
        } else if marks[k].1 == TAG_END_CHAR {
            lemma_balanced_never_below(marks, k + 1, lo, hi, (depth - 1) as nat);
        } else {
            lemma_balanced_never_below(marks, k + 1, lo, hi, depth);
        }
    }
}

proof fn lemma_never_below_beyond(marks: Seq<(int, char)>, k: int, lo: int, hi: int, depth: nat)
    requires
        marks_sorted(marks),
        0 <= k < marks.len(),
        marks[k].0 >= hi,
    ensures
        never_below(marks, k, lo, hi, depth),
    decreases marks.len() - k,
{
    if k + 1 < marks.len() {
        assert(marks[k].0 < marks[k + 1].0);
        lemma_never_below_beyond(marks, k + 1, lo, hi, depth);
    } else {
        assert(never_below(marks, k + 1, lo, hi, depth));
    }
}

proof fn lemma_unclosed_never_below(marks: Seq<(int, char)>, k: int, open: int, hi: int, depth: nat)
    requires
        marks_sorted(marks),
        0 <= k,
        tag_end(marks, k, open, depth) is None,
    ensures
        never_below(marks, k, open + 1, hi, depth),
    decreases marks.len() - k,
{
    if 0 <= k < marks.len() {
        if marks[k].0 < open + 1 {
            lemma_unclosed_never_below(marks, k + 1, open, hi, depth);
        } else if marks[k].0 >= hi {
            lemma_never_below_beyond(marks, k, open + 1, hi, depth);
        } else if marks[k].1 == TAG_START_CHAR {
            lemma_unclosed_never_below(marks, k + 1, open, hi, depth + 1);
        } else if marks[k].1 == TAG_END_CHAR {
            lemma_unclosed_never_below(marks, k + 1, open, hi, (depth - 1) as nat);
        } else {
            lemma_unclosed_never_below(marks, k + 1, open, hi, depth);
        }
    }
}

/// Law: a tag never holds the bracket that closes it. Among the tag brackets inside a tag,
/// no closing one comes without an open one; a tag given as closed ends at a closing bracket
/// that balances its start, the next step starting right after it (also where that bracket is
/// the last character of the text); a tag given as unclosed runs to the end of the text, and
/// then no bracket in the rest of the text closes it.
pub proof fn law_tag_step_closes(text: Seq<char>, marks: Seq<(int, char)>, pos: int)
    requires
        marks_fit(text, marks),
        0 <= pos < text.len(),
    ensures
        geometry_step(text.len() as int, marks, pos) matches Some(step) && (step.0 ==> {
            &&& step.1 == pos + 1
            &&& never_below(marks, 0, step.1, step.2, 0)
            &&& step.3 > step.2 ==> step.3 == step.2 + 1 && step.2 < text.len() && text[step.2] == TAG_END_CHAR
                && balanced_from(marks, 0, step.1, step.2, 0)
            &&& step.3 <= step.2 ==> step.2 == step.3 == text.len() && never_below(marks, 0, step.1, text.len() as int + 1, 0)
        }),
{
    let len = text.len() as int;
    if first_tag_start(marks, 0, pos) == Some(pos) {
        lemma_tag_end_index(marks, 0, pos, 0);
        match tag_end(marks, 0, pos, 0) {
            Some(e) => {
                let j = choose|j: int| 0 <= j < marks.len() && #[trigger] marks[j] == (e, TAG_END_CHAR);
                assert(marks[j].0 < len && text[marks[j].0] == marks[j].1);
                lemma_balanced_never_below(marks, 0, pos + 1, e, 0);
            },
            None => {
                lemma_unclosed_never_below(marks, 0, pos, len, 0);
                lemma_unclosed_never_below(marks, 0, pos, len + 1, 0);
            },
        }
    }
}

/// The items that walking through the tag list `s` from `pos` gives, in order.
pub open spec fn tags_items(s: Seq<char>, pos: int) -> Seq<(Seq<char>, Option<Seq<char>>)>
    decreases s.len() - pos,
{
    match tags_step(s, pos) {
        Some((name, value, next)) => if pos < next <= s.len() {
            seq![(name, value)] + tags_items(s, next)
        } else {
            seq![(name, value)]
        },
        None => Seq::empty(),
    }
}

/// How a tag reads: its name, then `=` and its value where it has one.
pub open spec fn tag_text(item: (Seq<char>, Option<Seq<char>>)) -> Seq<char> {
    item.0 + match item.1 {
        Some(v) => seq![TAG_ASSIGN] + v,
        None => Seq::<char>::empty(),
    }
}

/// `parts` joined with tag separators between them.
pub open spec fn join_tags(parts: Seq<Seq<char>>) -> Seq<char>
    decreases parts.len(),
{
    if parts.len() == 0 {
        Seq::empty()
    } else if parts.len() == 1 {
        parts[0]
    } else {
        parts[0] + seq![TAG_SEPARATOR] + join_tags(parts.skip(1))
    }
}

proof fn lemma_tags_rejoin_from(s: Seq<char>, pos: int)
    requires
        0 <= pos < s.len(),
        s.last() != TAG_SEPARATOR,
    ensures
        join_tags(tags_items(s, pos).map_values(|item: (Seq<char>, Option<Seq<char>>)| tag_text(item)))
            == s.subrange(pos, s.len() as int),
    decreases s.len() - pos,
{
    law_tags_step_rejoins(s, pos);
    let f = |item: (Seq<char>, Option<Seq<char>>)| tag_text(item);
    let (name, value, next) = tags_step(s, pos).unwrap();
    let end = tag_token_bounds(s, pos).0;
    let items = tags_items(s, pos);
    let rest = tags_items(s, next);
    assert(items == seq![(name, value)] + rest);
    let texts = items.map_values(f);
    assert(texts =~= seq![tag_text((name, value))] + rest.map_values(f));
    if end == s.len() {
        assert(tags_step(s, next) is None);
        assert(rest =~= Seq::<(Seq<char>, Option<Seq<char>>)>::empty());
        assert(texts =~= seq![tag_text((name, value))]);
    } else {
        assert(end < s.len() - 1);
        lemma_tags_rejoin_from(s, next);
        assert(tags_step(s, next) is Some);
        assert(rest.len() > 0);
        assert(texts.skip(1) =~= rest.map_values(f));
        assert(s.subrange(pos, s.len() as int) =~= s.subrange(pos, end) + seq![TAG_SEPARATOR] + s.subrange(next, s.len() as int));
    }
}

/// Law: a tag list that is not empty and does not end with a separator is given back by its
/// tags, each read as `name` or `name=value`, joined with separators.
pub proof fn law_tags_rejoin(s: Seq<char>)
    requires
        s.len() > 0,
        s.last() != TAG_SEPARATOR,
    ensures
        join_tags(tags_items(s, 0).map_values(|item: (Seq<char>, Option<Seq<char>>)| tag_text(item))) == s,
{
    lemma_tags_rejoin_from(s, 0);
    assert(s.subrange(0, s.len() as int) =~= s);
}

/// The bracket depth after `c` when it was `depth` before: `[` opens one, `]` closes one
/// (never going below 0).
pub open spec fn next_depth(depth: nat, c: char) -> nat {
    if c == TAG_START_CHAR {
        depth + 1
    } else if c == TAG_END_CHAR {
        if depth > 0 { (depth - 1) as nat } else { 0 }
    } else {
        depth
    }
}

/// The bracket depth of `s` before index `k`, counted from the start.
pub open spec fn depth_before(s: Seq<char>, k: int) -> nat
    decreases k,
{
    if k <= 0 || k > s.len() {
        0
    } else {
        next_depth(depth_before(s, k - 1), s[k - 1])
    }
}

/// A separator of `s` outside all brackets.
pub open spec fn is_top_separator(s: Seq<char>, k: int) -> bool {
    0 <= k < s.len() && s[k] == TAG_SEPARATOR && depth_before(s, k) == 0
}

/// The first separator outside all brackets at or after `k`.
pub open spec fn first_top_separator_from(s: Seq<char>, k: int) -> Option<int>
    decreases s.len() - k,
{
    if k < 0 || k >= s.len() {
        None
    } else if is_top_separator(s, k) {
        Some(k)
    } else {
        first_top_separator_from(s, k + 1)
    }
}

/// The pieces of `s[pos..]` between the separators outside all brackets.
pub open spec fn top_tokens_from(s: Seq<char>, pos: int) -> Seq<Seq<char>>
    decreases s.len() - pos,
{
    if pos < 0 || pos > s.len() {
        Seq::empty()
    } else {
        match first_top_separator_from(s, pos) {
            Some(k) => if pos <= k < s.len() {
                seq![s.subrange(pos, k)] + top_tokens_from(s, k + 1)
            } else {
                Seq::empty()
            },
            None => seq![s.subrange(pos, s.len() as int)],
        }
    }
}

/// `tokens` without its last token where that one is empty.
pub open spec fn without_empty_last(tokens: Seq<Seq<char>>) -> Seq<Seq<char>> {
    if tokens.len() > 0 && tokens.last().len() == 0 { tokens.drop_last() } else { tokens }
}

/// A tag token split at its first `=` into name and value.
pub open spec fn split_tag(token: Seq<char>) -> (Seq<char>, Option<Seq<char>>) {
    match index_of_from(token, TAG_ASSIGN, 0) {
        Some(a) => (token.take(a), Some(token.skip(a + 1))),
        None => (token, None),
    }
}

proof fn lemma_first_top_separator(s: Seq<char>, k: int)
    ensures
        first_top_separator_from(s, k) matches Some(j) ==> k <= j < s.len() && is_top_separator(s, j),
    decreases s.len() - k,
{
    if 0 <= k < s.len() && !is_top_separator(s, k) {
        lemma_first_top_separator(s, k + 1);
    }
}

proof fn lemma_separator_is_top(s: Seq<char>, k: int)
    requires
        0 <= k <= s.len(),
    ensures
        separator_from(s, k, depth_before(s, k)) == first_top_separator_from(s, k),
    decreases s.len() - k,
{
    if k < s.len() {
        lemma_separator_is_top(s, k + 1);
        assert(depth_before(s, k + 1) == next_depth(depth_before(s, k), s[k]));
    }
}

proof fn lemma_top_tokens_not_empty(s: Seq<char>, pos: int)
    requires
        0 <= pos <= s.len(),
    ensures
        top_tokens_from(s, pos).len() > 0,
        top_tokens_from(s, pos).last().len() == 0 ==> top_tokens_from(s, pos).len() > 1 || pos == s.len(),
    decreases s.len() - pos,
{
    lemma_first_top_separator(s, pos);
    if let Some(k) = first_top_separator_from(s, pos) {
        lemma_top_tokens_not_empty(s, k + 1);
    }
}

proof fn lemma_tags_split_from(s: Seq<char>, pos: int)
    requires
        0 <= pos <= s.len(),
        depth_before(s, pos) == 0,
        forall|i: int| 0 <= i < s.len() ==> (s[i] as u32) < 0x80,
    ensures
        tags_items(s, pos) == without_empty_last(top_tokens_from(s, pos)).map_values(
            |t: Seq<char>| split_tag(t),
        ),
    decreases s.len() - pos,
{
    let f = |t: Seq<char>| split_tag(t);
    lemma_first_top_separator(s, pos);
    lemma_top_tokens_not_empty(s, pos);
    if pos == s.len() {
        assert(s.subrange(pos, pos) =~= Seq::<char>::empty());
        assert(top_tokens_from(s, pos) =~= seq![Seq::<char>::empty()]);
        assert(without_empty_last(top_tokens_from(s, pos)) =~= Seq::<Seq<char>>::empty());
        assert(tags_items(s, pos) =~= Seq::<(Seq<char>, Option<Seq<char>>)>::empty());
    } else {
        law_ascii_offset(s, pos);
        lemma_separator_is_top(s, pos);
        let toks = top_tokens_from(s, pos);
        match first_top_separator_from(s, pos) {
            Some(k) => {
                assert(depth_before(s, k + 1) == 0);
                lemma_tags_split_from(s, k + 1);
                lemma_top_tokens_not_empty(s, k + 1);
                let rest = top_tokens_from(s, k + 1);
                assert(toks == seq![s.subrange(pos, k)] + rest);
                assert(without_empty_last(toks) =~= seq![s.subrange(pos, k)] + without_empty_last(rest));
                assert(without_empty_last(toks).map_values(f) =~= seq![split_tag(s.subrange(pos, k))]
                    + without_empty_last(rest).map_values(f));
                assert(tags_items(s, pos) == seq![split_tag(s.subrange(pos, k))] + tags_items(s, k + 1));
            },
            None => {
                assert(toks == seq![s.subrange(pos, s.len() as int)]);
                assert(without_empty_last(toks) == toks);
                assert(tags_step(s, s.len() as int) is None);
                assert(tags_items(s, s.len() as int) =~= Seq::<(Seq<char>, Option<Seq<char>>)>::empty());
                assert(tags_items(s, pos) =~= seq![split_tag(s.subrange(pos, s.len() as int))]);
                assert(toks.map_values(f) =~= seq![split_tag(s.subrange(pos, s.len() as int))]);
            },
        }
    }
}

/// Law: walking through an ASCII tag list gives one tag for each piece of the list between
/// separators outside all brackets (a last empty piece left out), in order, each split at its
/// first `=` into name and value.
pub proof fn law_ascii_tags_split(s: Seq<char>)
    requires
        forall|i: int| 0 <= i < s.len() ==> (s[i] as u32) < 0x80,
    ensures
        tags_items(s, 0) == without_empty_last(top_tokens_from(s, 0)).map_values(
            |t: Seq<char>| split_tag(t),
        ),
{
    lemma_tags_split_from(s, 0);
}

} // verus!

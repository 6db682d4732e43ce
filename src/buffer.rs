use vstd::prelude::*;
use vstd::string::StringExecFns;
use vstd::utf8::encode_utf8;

verus! {

/// The line-start index of `s`: a leading 0, then the offset of each `'\n'`.
pub open spec fn line_starts(s: Seq<char>) -> Seq<int>
    decreases s.len(),
{
    if s.len() == 0 {
        seq![0int]
    } else {
        let prev = line_starts(s.drop_last());
        if s.last() == '\n' {
            prev.push(s.len() - 1)
        } else {
            prev
        }
    }
}

/// Shape of the line-start index: it starts at 0, every later entry is the
/// offset of a newline, and the later entries strictly increase.
pub proof fn lemma_line_starts_shape(s: Seq<char>)
    ensures
        line_starts(s).len() >= 1,
        line_starts(s)[0] == 0,
        forall|i: int|
            0 < i < line_starts(s).len() ==> 0 <= #[trigger] line_starts(s)[i] < s.len() && s[line_starts(s)[i]]
                == '\n',
        forall|i: int, j: int|
            0 < i < j < line_starts(s).len() ==> #[trigger] line_starts(s)[i] < #[trigger] line_starts(
                s,
            )[j],
        line_starts(s).len() <= s.len() + 1,
    decreases s.len(),
{
    if s.len() > 0 {
        lemma_line_starts_shape(s.drop_last());
    }
}

/// Append-only character storage with the index of its line starts.
#[derive(PartialEq, Debug)]
pub struct Buffer {
    value: String,
    linebreaks: Vec<usize>,
}

/// A character of a buffer, as a line start and an offset from it.
#[derive(Copy, Clone, PartialEq, Eq, Debug, Structural)]
pub struct BufferPosition {
    /// Index in buffer's linebreaks vector
    pub linebreak_index: usize,
    /// Count of chars offset from above referenced line start
    pub char_offset: usize,
}

impl BufferPosition {
    pub fn new(linebreak_index: usize, char_offset: usize) -> (r: Self)
        ensures
            r.linebreak_index == linebreak_index,
            r.char_offset == char_offset,
    {
        BufferPosition { linebreak_index, char_offset }
    }
}

impl Buffer {
    /// The characters held.
    pub closed spec fn text(&self) -> Seq<char> {
        self.value@
    }

    /// The recorded line starts.
    pub closed spec fn starts(&self) -> Seq<int> {
        self.linebreaks@.map_values(|x: usize| x as int)
    }

    /// The line-start index is that of the text, and the text's length fits in `usize`.
    pub open spec fn wf(&self) -> bool {
        &&& self.starts() == line_starts(self.text())
        &&& self.text().len() <= usize::MAX
        &&& self.starts().len() <= usize::MAX
    }

    /// The character index that `p` names (unchecked).
    pub open spec fn index_of(&self, p: BufferPosition) -> int {
        self.starts()[p.linebreak_index as int] + p.char_offset
    }

    /// `p` names a line start that exists and an index inside the text.
    pub open spec fn in_bounds(&self, p: BufferPosition) -> bool {
        &&& p.linebreak_index < self.starts().len()
        &&& self.index_of(p) < self.text().len()
    }

    /// Where the line that starts at entry `li` ends (exclusive).
    pub open spec fn line_end(&self, li: int) -> int {
        if li + 1 < self.starts().len() {
            self.starts()[li + 1]
        } else {
            self.text().len() as int
        }
    }

    /// `p` names an existing line and an offset inside that line.
    pub open spec fn is_valid_position(&self, p: BufferPosition) -> bool {
        &&& p.linebreak_index < self.starts().len()
        &&& self.index_of(p) < self.line_end(p.linebreak_index as int)
    }

    /// `p` names a character by the last line start at or before it.
    pub open spec fn is_normal(&self, p: BufferPosition) -> bool {
        &&& self.in_bounds(p)
        &&& forall|j: int|
            p.linebreak_index < j < self.starts().len() ==> #[trigger] self.starts()[j]
                > self.index_of(p)
    }

    /// The position of the last character.
    pub open spec fn last_position(&self) -> BufferPosition {
        BufferPosition {
            linebreak_index: (self.starts().len() - 1) as usize,
            char_offset: (self.text().len() - self.starts().last() - 1) as usize,
        }
    }

    pub open spec fn range_chars(&self, start: BufferPosition, end: BufferPosition) -> int {
        if self.index_of(start) > self.index_of(end) {
            0
        } else {
            self.index_of(end) - self.index_of(start) + 1
        }
    }

    pub open spec fn range_lines(start: BufferPosition, end: BufferPosition) -> int {
        if start.linebreak_index > end.linebreak_index {
            0
        } else {
            end.linebreak_index - start.linebreak_index + if start.char_offset == 0 {
                1int
            } else {
                0int
            }
        }
    }

    proof fn lemma_starts_push(v: Seq<usize>, x: usize)
        ensures
            v.push(x).map_values(|y: usize| y as int) == v.map_values(|y: usize| y as int).push(
                x as int,
            ),
    {
        assert(v.push(x).map_values(|y: usize| y as int) =~= v.map_values(|y: usize| y as int).push(
            x as int,
        ));
    }

    pub fn new(value: &str) -> (r: Self)
        ensures
            r.wf(),
            r.text() == value@,
            r.starts() == line_starts(value@),
    {
        let n = value.unicode_len();
        let mut linebreaks: Vec<usize> = vec![0];
        proof {
            assert(linebreaks@.map_values(|y: usize| y as int) =~= seq![0int]);
            assert(value@.take(0) =~= Seq::<char>::empty());
        }
        let mut ind: usize = 0;
        for c in it: value.chars()
            invariant
                n == value@.len(),
                it.seq() == value@,
                ind == it.index(),
                linebreaks@.map_values(|y: usize| y as int) == line_starts(value@.take(ind as int)),
        {
            proof {
                assert(value@.take(ind + 1).drop_last() =~= value@.take(ind as int));
            }
            if c == '\n' {
                proof {
                    Self::lemma_starts_push(linebreaks@, ind);
                }
                linebreaks.push(ind);
            }
            ind += 1;
        }
        proof {
            assert(value@.take(ind as int) =~= value@);
        }
        // the vector's length bounds the count of line starts
        let count = linebreaks.len();
        proof {
            assert(count == linebreaks@.map_values(|y: usize| y as int).len());
        }
        Buffer { value: value.to_owned(), linebreaks }
    }

    /// Appends `value`; returns the positions of its first and last characters.
    pub fn append(&mut self, value: &str) -> (r: Option<(BufferPosition, BufferPosition)>)
        requires
            old(self).wf(),
        ensures
            final(self).wf(),
            final(self).text() == old(self).text() + value@,
            value@.len() == 0 ==> r is None && final(self).starts() == old(self).starts(),
            value@.len() > 0 ==> r == Some(
                (
                    Self::appended_start(old(self).starts(), old(self).text(), value@),
                    final(self).last_position(),
                ),
            ),
            final(self).starts().len() >= old(self).starts().len(),
            final(self).starts().len() <= old(self).starts().len() + value@.len(),
            forall|i: int|
                0 <= i < old(self).starts().len() ==> #[trigger] final(self).starts()[i]
                    == old(self).starts()[i],
            forall|i: int|
                old(self).starts().len() <= i < final(self).starts().len()
                    ==> #[trigger] final(self).starts()[i] >= old(self).text().len(),
            value@.len() > 0 ==> final(self).is_normal(final(self).last_position()),
            value@.len() > 0 ==> final(self).in_bounds(
                Self::appended_start(old(self).starts(), old(self).text(), value@),
            ) && final(self).index_of(
                Self::appended_start(old(self).starts(), old(self).text(), value@),
            ) == old(self).text().len(),
    {
        if value.is_empty() {
            proof {
                assert(old(self).text() + value@ =~= old(self).text());
            }
            return None;
        }
        proof {
            lemma_line_starts_shape(self.text());
        }
        let ghost old_text = self.text();
        let ghost old_starts = self.starts();
        let current_len = self.chars_count();
        let count = self.linebreaks.len();
        let last = self.linebreaks[count - 1];
        proof {
            assert(last as int == old_starts[count - 1]);
        }
        let mut result_start = BufferPosition::new(count - 1, current_len - last);
        self.value.append(value);
        let total = self.value.as_str().unicode_len();
        let mut linebreak_start: bool = false;
        let mut ind: usize = 0;
        proof {
            assert(old_text + value@.take(0) =~= old_text);
        }
        for c in it: value.chars()
            invariant
                it.seq() == value@,
                ind == it.index(),
                value@.len() > 0,
                current_len == old_text.len(),
                total == old_text.len() + value@.len(),
                old_starts == line_starts(old_text),
                old_starts.len() == count,
                self.value@ == old_text + value@,
                self.linebreaks@.map_values(|y: usize| y as int) == line_starts(
                    old_text + value@.take(ind as int),
                ),
                linebreak_start == (ind > 0 && value@[0] == '\n'),
        {
            proof {
                assert((old_text + value@.take(ind + 1)).drop_last() =~= old_text + value@.take(
                    ind as int,
                ));
                assert((old_text + value@.take(ind + 1)).last() == c);
            }
            if c == '\n' {
                if ind == 0 {
                    linebreak_start = true;
                }
                proof {
                    Self::lemma_starts_push(self.linebreaks@, (current_len + ind) as usize);
                }
                self.linebreaks.push(current_len + ind);
            }
            ind += 1;
        }
        // the vector's length bounds the count of line starts
        let new_count = self.linebreaks.len();
        proof {
            assert(new_count == self.starts().len());
            assert(value@.take(ind as int) =~= value@);
            lemma_line_starts_shape(self.text());
            assert(line_starts(old_text + value@.take(1)) == if value@[0] == '\n' {
                old_starts.push(old_text.len() as int)
            } else {
                old_starts
            }) by {
                assert((old_text + value@.take(1)).drop_last() =~= old_text);
            }
            Self::lemma_starts_prefix(old_text, value@, 1);
            Self::lemma_starts_prefix(old_text, value@, 0);
            assert(old_text + value@.take(0) =~= old_text);
            Self::lemma_starts_tail(old_text, value@);
            Self::lemma_starts_prefix(old_text + value@.take(1), value@.skip(1), value@.len() - 1);
            assert(old_text + value@.take(1) + value@.skip(1) =~= old_text + value@);
        }
        if linebreak_start {
            result_start.linebreak_index += 1;
            result_start.char_offset = 0;
        }
        Some((result_start, self.position_last()))
    }

    /// Where `append` places the first character of `v`, on a buffer holding `text`.
    pub open spec fn appended_start(starts: Seq<int>, text: Seq<char>, v: Seq<char>) -> BufferPosition {
        if v[0] == '\n' {
            BufferPosition { linebreak_index: starts.len() as usize, char_offset: 0 }
        } else {
            BufferPosition {
                linebreak_index: (starts.len() - 1) as usize,
                char_offset: (text.len() - starts.last()) as usize,
            }
        }
    }

    /// Appending text keeps the line starts recorded so far.
    proof fn lemma_starts_prefix(a: Seq<char>, b: Seq<char>, k: int)
        requires
            0 <= k <= b.len(),
        ensures
            line_starts(a + b).len() >= line_starts(a + b.take(k)).len(),
            forall|i: int|
                0 <= i < line_starts(a + b.take(k)).len() ==> line_starts(a + b)[i] == line_starts(
                    a + b.take(k),
                )[i],
        decreases b.len() - k,
    {
        if k < b.len() {
            Self::lemma_starts_prefix(a, b, k + 1);
            assert((a + b.take(k + 1)).drop_last() =~= a + b.take(k));
        } else {
            assert(b.take(k) =~= b);
        }
    }

    /// Line starts that text appended after `a` adds lie at or after its end.
    proof fn lemma_starts_tail(a: Seq<char>, b: Seq<char>)
        ensures
            line_starts(a + b).len() >= line_starts(a).len(),
            line_starts(a + b).len() <= line_starts(a).len() + b.len(),
            forall|i: int|
                line_starts(a).len() <= i < line_starts(a + b).len() ==> #[trigger] line_starts(
                    a + b,
                )[i] >= a.len(),
        decreases b.len(),
    {
        if b.len() == 0 {
            assert(a + b =~= a);
        } else {
            assert((a + b).drop_last() =~= a + b.drop_last());
            Self::lemma_starts_tail(a, b.drop_last());
        }
    }

    /// The position of char `index`, by the last line start at or before it.
    pub fn index_to_position(&self, index: usize) -> (r: BufferPosition)
        requires
            self.wf(),
            index < self.text().len(),
        ensures
            self.is_normal(r),
            self.index_of(r) == index,
    {
        proof {
            lemma_line_starts_shape(self.text());
        }
        let count = self.linebreaks.len();
        let mut line: usize = 0;
        while line + 1 < count && self.linebreaks[line + 1] <= index
            invariant
                self.wf(),
                count == self.starts().len(),
                line < count,
                self.starts()[line as int] <= index,
                index < self.text().len(),
                line_starts(self.text()) == self.starts(),
            decreases count - line,
        {
            proof {
                assert(self.linebreaks@[line + 1] as int == self.starts()[line + 1]);
            }
            line += 1;
        }
        proof {
            if line + 1 < count {
                assert(self.linebreaks@[line + 1] as int == self.starts()[line + 1]);
            }
            assert forall|j: int| line < j < self.starts().len() implies #[trigger] self.starts()[j]
                > index by {
                if j > line + 1 {
                    assert(self.starts()[line + 1] < self.starts()[j]);
                }
            }
        }
        let start = self.linebreaks[line];
        BufferPosition::new(line, index - start)
    }

    pub fn value(&self) -> (r: &String)
        ensures
            r@ == self.text(),
    {
        &self.value
    }

    pub fn linebreak(&self, index: usize) -> (r: usize)
        requires
            self.wf(),
            index < self.starts().len(),
        ensures
            r == self.starts()[index as int],
    {
        self.linebreaks[index]
    }

    pub fn linebreaks(&self) -> (r: &Vec<usize>)
        ensures
            r@.map_values(|x: usize| x as int) == self.starts(),
    {
        &self.linebreaks
    }

    pub fn linebreaks_count(&self) -> (r: usize)
        ensures
            r == self.starts().len(),
    {
        self.linebreaks.len()
    }

    pub fn chars_count(&self) -> (r: usize)
        ensures
            r == self.text().len(),
    {
        self.value.as_str().unicode_len()
    }

    pub fn bytes_count(&self) -> (r: usize)
        ensures
            r == encode_utf8(self.text()).len() as usize,
    {
        self.value.as_str().len()
    }

    pub fn position_first(&self) -> (r: BufferPosition)
        ensures
            r == (BufferPosition { linebreak_index: 0, char_offset: 0 }),
    {
        BufferPosition::new(0, 0)
    }

    pub fn position_last(&self) -> (r: BufferPosition)
        requires
            self.wf(),
            self.text().len() > 0,
        ensures
            r == self.last_position(),
            self.in_bounds(r),
            self.is_normal(r),
            self.index_of(r) == self.text().len() - 1,
    {
        proof {
            lemma_line_starts_shape(self.text());
        }
        let count = self.linebreaks.len();
        let last = self.linebreaks[count - 1];
        proof {
            assert(last as int == self.starts()[count - 1]);
        }
        BufferPosition::new(count - 1, self.chars_count() - last - 1)
    }

    /// Convert position to char index in buffer value
    pub fn position_to_index(&self, position: BufferPosition) -> (r: usize)
        requires
            self.wf(),
            self.in_bounds(position),
        ensures
            r == self.index_of(position),
            r < self.text().len(),
    {
        self.linebreaks[position.linebreak_index] + position.char_offset
    }

    pub fn position_range_chars_count(&self, start: BufferPosition, end: BufferPosition) -> (r:
        usize)
        requires
            self.wf(),
            self.in_bounds(start),
            self.in_bounds(end),
        ensures
            r == self.range_chars(start, end),
    {
        let start_ind = self.position_to_index(start);
        let end_ind = self.position_to_index(end);
        if start_ind > end_ind {
            0
        } else {
            end_ind - start_ind + 1
        }
    }

    pub fn position_range_lines_count(&self, start: BufferPosition, end: BufferPosition) -> (r:
        usize)
        requires
            self.wf(),
            start.linebreak_index < self.starts().len(),
            end.linebreak_index < self.starts().len(),
        ensures
            r == Self::range_lines(start, end),
    {
        if start.linebreak_index > end.linebreak_index {
            return 0;
        }
        let mut linebreaks = end.linebreak_index - start.linebreak_index;
        if start.char_offset == 0 {
            linebreaks += 1;
        }
        linebreaks
    }
}

/// A position that names an existing line and an offset inside that line
/// names a character of the buffer.
pub proof fn lemma_valid_position_index(b: &Buffer, p: BufferPosition)
    requires
        b.wf(),
        b.is_valid_position(p),
    ensures
        b.in_bounds(p),
        b.index_of(p) < b.text().len(),
{
    lemma_line_starts_shape(b.text());
}

/// Splitting a range between the chars `p` and `m` that follow each other:
/// the chars and the line starts of the two parts add up to those of the whole.
pub proof fn lemma_split_range(
    b: &Buffer,
    s: BufferPosition,
    e: BufferPosition,
    p: BufferPosition,
    m: BufferPosition,
)
    requires
        b.wf(),
        b.in_bounds(s),
        b.is_normal(e),
        b.is_normal(p),
        b.is_normal(m),
        b.index_of(s) <= b.index_of(p),
        b.index_of(p) + 1 == b.index_of(m),
        b.index_of(m) <= b.index_of(e),
    ensures
        b.range_chars(s, p) + b.range_chars(m, e) == b.range_chars(s, e),
        Buffer::range_lines(s, p) + Buffer::range_lines(m, e) == Buffer::range_lines(s, e),
{
    lemma_line_starts_shape(b.text());
    let st = b.starts();
    assert(s.linebreak_index <= p.linebreak_index) by {
        if s.linebreak_index > p.linebreak_index {
            assert(st[s.linebreak_index as int] > b.index_of(p));
        }
    }
    assert(m.linebreak_index <= e.linebreak_index) by {
        if m.linebreak_index > e.linebreak_index {
            assert(st[m.linebreak_index as int] > b.index_of(e));
        }
    }
    if m.char_offset == 0 {
        assert(m.linebreak_index > 0) by {
            if m.linebreak_index == 0 {
                assert(st[0] == 0);
            }
        }
        assert(p.linebreak_index < m.linebreak_index) by {
            if p.linebreak_index > m.linebreak_index {
                assert(st[p.linebreak_index as int] > b.index_of(m));
            }
        }
        assert(p.linebreak_index + 1 >= m.linebreak_index) by {
            if p.linebreak_index + 1 < m.linebreak_index {
                let j = p.linebreak_index + 1;
                assert(st[j] > b.index_of(p));
                assert(st[j] < st[m.linebreak_index as int]);
            }
        }
    } else {
        assert(p.linebreak_index >= m.linebreak_index) by {
            if p.linebreak_index < m.linebreak_index {
                assert(st[m.linebreak_index as int] > b.index_of(p));
            }
        }
        assert(p.linebreak_index <= m.linebreak_index) by {
            if p.linebreak_index > m.linebreak_index {
                assert(st[p.linebreak_index as int] > b.index_of(m));
            }
        }
    }
}

/// Every buffer's line-start index begins with 0, the empty buffer's included.
pub proof fn lemma_first_line_start(s: Seq<char>)
    ensures
        line_starts(s)[0] == 0,
        s.len() == 0 ==> line_starts(s) == seq![0int],
{
    lemma_line_starts_shape(s);
}

/// On a non-empty buffer, the range from the first to the last position
/// covers every character and every line start.
pub proof fn lemma_full_range_counts(b: &Buffer)
    requires
        b.wf(),
        b.text().len() > 0,
    ensures
        b.in_bounds(BufferPosition { linebreak_index: 0, char_offset: 0 }),
        b.in_bounds(b.last_position()),
        b.range_chars(BufferPosition { linebreak_index: 0, char_offset: 0 }, b.last_position())
            == b.text().len(),
        Buffer::range_lines(BufferPosition { linebreak_index: 0, char_offset: 0 }, b.last_position())
            == b.starts().len(),
{
    lemma_line_starts_shape(b.text());
}

} // verus!

use vstd::prelude::*;

verus! {

/// The pieces of `s` between newlines; the last one may be empty.
pub open spec fn segments(s: Seq<char>) -> Seq<Seq<char>>
    decreases s.len(),
{
    if s.len() == 0 {
        seq![Seq::<char>::empty()]
    } else {
        let prev = segments(s.drop_last());
        if s.last() == '\n' {
            prev.push(Seq::<char>::empty())
        } else {
            prev.update(prev.len() - 1, prev.last().push(s.last()))
        }
    }
}

/// A line ended by `"\r\n"` loses its `'\r'`.
pub open spec fn strip_cr(l: Seq<char>) -> Seq<char> {
    if l.len() > 0 && l.last() == '\r' {
        l.drop_last()
    } else {
        l
    }
}

/// The lines ended by a newline, without their line ending.
pub open spec fn ended_lines(s: Seq<char>) -> Seq<Seq<char>> {
    segments(s).drop_last().map_values(|l: Seq<char>| strip_cr(l))
}

/// The lines of `s`: split at `'\n'` or `"\r\n"`, with no empty line after
/// a final line ending.
pub open spec fn lines_of(s: Seq<char>) -> Seq<Seq<char>> {
    if segments(s).last().len() == 0 {
        ended_lines(s)
    } else {
        ended_lines(s).push(segments(s).last())
    }
}

pub open spec fn min_int(a: int, b: int) -> int {
    if a < b {
        a
    } else {
        b
    }
}

proof fn lemma_segments_nonempty(s: Seq<char>)
    ensures
        segments(s).len() >= 1,
        segments(s).len() <= s.len() + 1,
    decreases s.len(),
{
    if s.len() > 0 {
        lemma_segments_nonempty(s.drop_last());
    }
}

/// A window of rows over a text.
pub struct TextView {
    buffer: String,
    rows: u16,
    cols: u16,
    row_offset: u16,
    col_offset: u16,
}

impl TextView {
    pub closed spec fn text(&self) -> Seq<char> {
        self.buffer@
    }

    pub closed spec fn row_count(&self) -> u16 {
        self.rows
    }

    pub closed spec fn first_row(&self) -> u16 {
        self.row_offset
    }

    /// The lines in the window: from the first row on, at most `rows` of them.
    pub open spec fn visible_lines(&self) -> Seq<Seq<char>> {
        let ls = lines_of(self.text());
        ls.subrange(
            min_int(self.first_row() as int, ls.len() as int),
            min_int(self.first_row() + self.row_count(), ls.len() as int),
        )
    }

    pub fn new(buffer: String, rows: u16) -> (r: Self)
        ensures
            r.text() == buffer@,
            r.row_count() == rows,
            r.first_row() == 0,
    {
        TextView { buffer, rows, cols: 999, row_offset: 0, col_offset: 0 }
    }

    pub fn row_offset(&self) -> (r: u16)
        ensures
            r == self.first_row(),
    {
        self.row_offset
    }

    pub fn scroll_down(&mut self, rows: u16)
        requires
            old(self).first_row() + rows <= u16::MAX,
        ensures
            final(self).first_row() == old(self).first_row() + rows,
            final(self).text() == old(self).text(),
            final(self).row_count() == old(self).row_count(),
    {
        self.row_offset += rows;
    }

    pub fn scroll_up(&mut self, rows: u16)
        ensures
            final(self).first_row() == if old(self).first_row() >= rows {
                old(self).first_row() - rows
            } else {
                0
            },
            final(self).text() == old(self).text(),
            final(self).row_count() == old(self).row_count(),
    {
        if self.row_offset >= rows {
            self.row_offset -= rows;
        } else {
            self.row_offset = 0;
        }
    }

    pub fn render_lines(&self) -> (r: Vec<String>)
        requires
            self.first_row() + self.row_count() <= u16::MAX,
        ensures
            r@.map_values(|l: String| l@) == self.visible_lines(),
    {
        let text = self.buffer.as_str();
        let ghost s = text@;
        let limit: u16 = self.rows + self.row_offset;
        let mut result: Vec<String> = Vec::new();
        let mut counter: u16 = 0;
        let mut start: usize = 0;
        let mut prev: char = '\n';
        let mut ind: usize = 0;
        let n = text.unicode_len();
        proof {
            assert(s.take(0) =~= Seq::<char>::empty());
            assert(result@.map_values(|l: String| l@) =~= ended_lines(s.take(0)).subrange(0, 0));
        }
        for c in it: text.chars()
            invariant
                it.seq() == s,
                s == self.buffer@,
                s == text@,
                n == s.len(),
                ind == it.index(),
                limit == self.rows + self.row_offset,
                start <= ind,
                segments(s.take(ind as int)).last() == s.subrange(start as int, ind as int),
                ind > start ==> prev == s[ind - 1],
                counter as int == min_int(
                    segments(s.take(ind as int)).len() - 1,
                    limit as int,
                ),
                result@.map_values(|l: String| l@) == ended_lines(s.take(ind as int)).subrange(
                    min_int(self.row_offset as int, segments(s.take(ind as int)).len() - 1),
                    min_int(limit as int, segments(s.take(ind as int)).len() - 1),
                ),
        {
            let ghost pre = s.take(ind as int);
            let ghost post = s.take(ind + 1);
            proof {
                assert(post.drop_last() =~= pre);
                assert(post.last() == c);
                lemma_segments_nonempty(pre);
            }
            if c == '\n' {
                let end = if ind > start && prev == '\r' {
                    ind - 1
                } else {
                    ind
                };
                let ghost k = segments(pre).len() - 1;
                proof {
                    assert(ended_lines(post) =~= ended_lines(pre).push(
                        strip_cr(s.subrange(start as int, ind as int)),
                    ));
                    assert(strip_cr(s.subrange(start as int, ind as int)) =~= s.subrange(
                        start as int,
                        end as int,
                    ));
                }
                if counter < self.row_offset {
                    counter += 1;
                    proof {
                        assert(result@.map_values(|l: String| l@) =~= ended_lines(post).subrange(
                            min_int(self.row_offset as int, k + 1),
                            min_int(limit as int, k + 1),
                        ));
                    }
                } else if counter < limit {
                    proof {
                        assert(ind < s.len());
                        assert(start <= end && end <= ind);
                    }
                    let ghost before = result@;
                    let line = text.substring_char(start, end).to_owned();
                    result.push(line);
                    counter += 1;
                    proof {
                        assert(line@ == s.subrange(start as int, end as int));
                        assert(result@ == before.push(line));
                        assert(before.map_values(|l: String| l@) == ended_lines(pre).subrange(
                            self.row_offset as int,
                            k,
                        ));
                        assert(result@.map_values(|l: String| l@) =~= before.map_values(
                            |l: String| l@,
                        ).push(line@));
                        assert(ended_lines(post).subrange(self.row_offset as int, k + 1)
                            =~= ended_lines(pre).subrange(self.row_offset as int, k).push(line@));
                        assert(result@.map_values(|l: String| l@) =~= ended_lines(post).subrange(
                            min_int(self.row_offset as int, k + 1),
                            min_int(limit as int, k + 1),
                        ));
                    }
                } else {
                    proof {
                        assert(result@.map_values(|l: String| l@) =~= ended_lines(post).subrange(
                            min_int(self.row_offset as int, k + 1),
                            min_int(limit as int, k + 1),
                        ));
                    }
                }
                start = ind + 1;
                proof {
                    assert(s.subrange(start as int, start as int) =~= Seq::<char>::empty());
                }
            } else {
                proof {
                    assert(s.subrange(start as int, ind + 1) =~= s.subrange(
                        start as int,
                        ind as int,
                    ).push(c));
                    assert(segments(post).drop_last() =~= segments(pre).drop_last());
                    assert(ended_lines(post) =~= ended_lines(pre));
                }
            }
            prev = c;
            ind += 1;
        }
        proof {
            assert(s.take(ind as int) =~= s);
            lemma_segments_nonempty(s);
        }
        if start < ind {
            let ghost k = segments(s).len() - 1;
            let ghost before = result@;
            if self.row_offset <= counter && counter < limit {
                let line = text.substring_char(start, ind).to_owned();
                result.push(line);
                proof {
                    assert(result@ == before.push(line));
                    assert(line@ == segments(s).last());
                    assert(result@.map_values(|l: String| l@) =~= before.map_values(
                        |l: String| l@,
                    ).push(line@));
                    assert(lines_of(s).subrange(self.row_offset as int, k + 1) =~= ended_lines(
                        s,
                    ).subrange(self.row_offset as int, k).push(line@));
                }
            }
            proof {
                assert(lines_of(s) == ended_lines(s).push(segments(s).last()));
                assert(ended_lines(s).len() == k);
                assert(result@.map_values(|l: String| l@) =~= lines_of(s).subrange(
                    min_int(self.row_offset as int, k + 1),
                    min_int(limit as int, k + 1),
                ));
            }
        } else {
            proof {
                assert(segments(s).last() =~= Seq::<char>::empty());
            }
        }
        result
    }
}

} // verus!

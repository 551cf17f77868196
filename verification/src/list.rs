use crate::annotation::{described, Annotation, AnnotationText, AnnotationView, Severity};
use crate::error::Error;
use crate::line::{AnnotatedLine, LineView};
use std::ops::Range;
use vstd::prelude::*;
use vstd::string::{StringExecFns, StringSliceAdditionalSpecFns};
use vstd::utf8::*;

verus! {

/// The mathematical content of an [`AnnotationList`].
pub struct ListView {
    /// The label under which the source text is shown.
    pub filename: Seq<char>,
    /// The lines of the source text, first to last.
    pub lines: Seq<LineView>,
}

impl ListView {
    /// There is a first line, it starts at offset 0, each further line starts
    /// one byte (the terminator) after the end of the line before it, and
    /// every line is well-formed.
    pub open spec fn wf(self) -> bool {
        &&& self.lines.len() >= 1
        &&& self.lines[0].start == 0
        &&& forall|i: int, j: int|
            0 <= i && j == i + 1 && j < self.lines.len() ==> (#[trigger] self.lines[j]).start == (
            #[trigger] self.lines[i]).end() + 1
        &&& forall|i: int| 0 <= i < self.lines.len() ==> (#[trigger] self.lines[i]).wf()
    }

    /// The lines are exactly those of `source`: each line's content is the
    /// stretch of `source` at its offsets, a line terminator follows every
    /// line but the last, and the last line ends where `source` ends.
    pub open spec fn splits(self, source: Seq<u8>) -> bool {
        &&& self.wf()
        &&& forall|i: int|
            0 <= i < self.lines.len() ==> {
                let line = #[trigger] self.lines[i];
                &&& line.end() <= source.len()
                &&& source.subrange(line.start as int, line.end() as int) == line.content
                &&& i < self.lines.len() - 1 ==> line.end() < source.len() && source[line.end() as int]
                    == 0x0a
            }
        &&& self.lines.last().end() == source.len()
    }

    /// Whether line `i` is the last line that starts at or before `offset`.
    pub open spec fn owns(self, i: int, offset: nat) -> bool {
        &&& 0 <= i < self.lines.len()
        &&& self.lines[i].start <= offset
        &&& i + 1 < self.lines.len() ==> offset < self.lines[i + 1].start
    }

    /// The index of the line that owns `offset`.
    pub open spec fn line_of(self, offset: nat) -> int {
        choose|i: int| self.owns(i, offset)
    }

    /// The list with `a` attached behind the annotations of line `i`.
    pub open spec fn attach(self, i: int, a: AnnotationView) -> ListView {
        ListView { lines: self.lines.update(i, self.lines[i].with(a)), ..self }
    }

    /// Why `a` cannot be added, if it cannot: its start lies on no content
    /// byte of the line that owns it, or else it is longer than that line.
    pub open spec fn rejection(self, a: AnnotationView) -> Option<Error> {
        let line = self.lines[self.line_of(a.start)];
        if a.start >= line.end() {
            Some(Error::AfterStringEnd(a.start as usize, a.end as usize))
        } else if a.end - a.start > line.content.len() {
            Some(Error::MultilineRange(a.start as usize, a.end as usize))
        } else {
            None
        }
    }

    /// The list after `a` was added to the line that owns its start.
    pub open spec fn added(self, a: AnnotationView) -> ListView {
        self.attach(self.line_of(a.start), a)
    }

    /// What comes of adding `a`: the error for a range that ends before it
    /// starts, else the reason for which the list rejects it, else the list
    /// with `a` attached.
    pub open spec fn outcome(self, a: AnnotationView) -> Result<ListView, Error> {
        if a.start > a.end {
            Err(Error::InvalidRange(a.start as usize, a.end as usize))
        } else {
            match self.rejection(a) {
                Some(e) => Err(e),
                None => Ok(self.added(a)),
            }
        }
    }

    /// No line carries an annotation.
    pub open spec fn bare(self) -> bool {
        forall|i: int|
            0 <= i < self.lines.len() ==> (#[trigger] self.lines[i]).annotations.len() == 0
    }
}

/// In well-formed UTF-8 that begins with an ASCII byte, a character ends
/// after that byte.
proof fn lemma_boundary_after_ascii(bytes: Seq<u8>)
    requires
        valid_utf8(bytes),
        bytes.len() >= 1,
        bytes[0] < 0x80,
    ensures
        is_char_boundary(bytes, 1),
{
    reveal_with_fuel(is_char_boundary, 2);
    reveal_with_fuel(valid_utf8, 2);
    assert(length_of_first_scalar(bytes) == 1);
    assert(valid_utf8(pop_first_scalar(bytes)));
    assert(is_char_boundary(pop_first_scalar(bytes), 0));
}

/// Lines come in the order of their offsets and do not overlap.
pub proof fn lemma_lines_ordered(list: ListView, i: int, j: int)
    requires
        list.wf(),
        0 <= i < j < list.lines.len(),
    ensures
        list.lines[i].end() < list.lines[j].start,
    decreases j - i,
{
    if i + 1 < j {
        lemma_lines_ordered(list, i, j - 1);
        assert(list.lines[j].start == list.lines[j - 1].end() + 1);
    } else {
        assert(list.lines[j].start == list.lines[i].end() + 1);
    }
}

/// Every offset is owned by exactly one line.
pub proof fn lemma_owner_unique(list: ListView, offset: nat, i: int, j: int)
    requires
        list.wf(),
        list.owns(i, offset),
        list.owns(j, offset),
    ensures
        i == j,
        list.line_of(offset) == i,
{
    if i < j {
        if i + 1 < j {
            lemma_lines_ordered(list, i + 1, j);
        }
        assert(false);
    }
    if j < i {
        if j + 1 < i {
            lemma_lines_ordered(list, j + 1, i);
        }
        assert(false);
    }
    let k = list.line_of(offset);
    assert(list.owns(k, offset));
    if k < i {
        if k + 1 < i {
            lemma_lines_ordered(list, k + 1, i);
        }
        assert(false);
    }
    if i < k {
        if i + 1 < k {
            lemma_lines_ordered(list, i + 1, k);
        }
        assert(false);
    }
}

/// Every offset has a line that owns it: the first line starts at 0, so the
/// search for the last line that starts at or before an offset never comes
/// up empty.
pub proof fn lemma_owner_exists(list: ListView, offset: nat)
    requires
        list.wf(),
    ensures
        list.owns(list.line_of(offset), offset),
{
    lemma_owner_below(list, offset, list.lines.len() as int);
}

/// Among the first `n` lines some line starts at or before `offset` and is
/// followed, if by a line at all, by one that starts after it or by line `n`.
proof fn lemma_owner_below(list: ListView, offset: nat, n: int)
    requires
        list.wf(),
        1 <= n <= list.lines.len(),
        n < list.lines.len() ==> offset < list.lines[n].start,
    ensures
        exists|i: int| list.owns(i, offset),
    decreases n,
{
    if list.lines[n - 1].start <= offset {
        assert(list.owns(n - 1, offset));
    } else {
        lemma_owner_below(list, offset, n - 1);
    }
}

/// An offset inside a text lies on the content of the line that owns it or
/// on the terminator right behind it; so every offset of the text, the one
/// just past a trailing terminator included, belongs to exactly one line.
pub proof fn lemma_offset_in_owner(list: ListView, source: Seq<u8>, offset: nat)
    requires
        list.splits(source),
        offset <= source.len(),
    ensures
        ({
            let line = list.lines[list.line_of(offset)];
            line.start <= offset <= line.end()
        }),
{
    lemma_owner_exists(list, offset);
    let i = list.line_of(offset);
    if i + 1 < list.lines.len() {
        assert(list.lines[i + 1].start == list.lines[i].end() + 1);
    }
}

/// A text has one sequence of lines only: two lists that split the same
/// text agree on how many lines there are and on the offset and the content
/// of each.
pub proof fn lemma_split_unique(a: ListView, b: ListView, source: Seq<u8>, i: int)
    requires
        a.splits(source),
        b.splits(source),
        0 <= i < a.lines.len(),
    ensures
        a.lines.len() == b.lines.len(),
        a.lines[i].start == b.lines[i].start,
        a.lines[i].content == b.lines[i].content,
    decreases i,
{
    lemma_split_prefix(a, b, source, i);
    lemma_split_prefix(a, b, source, a.lines.len() - 1);
    let last = a.lines.len() - 1;
    if last + 1 < b.lines.len() {
        lemma_lines_ordered(b, last, b.lines.len() - 1);
        assert(false);
    }
}

/// Two lists that split the same text agree on their `i`-th line, and the
/// second has no fewer lines than the first.
proof fn lemma_split_prefix(a: ListView, b: ListView, source: Seq<u8>, i: int)
    requires
        a.splits(source),
        b.splits(source),
        0 <= i < a.lines.len(),
    ensures
        i < b.lines.len(),
        a.lines[i].start == b.lines[i].start,
        a.lines[i].content == b.lines[i].content,
        i + 1 < a.lines.len() ==> i + 1 < b.lines.len(),
    decreases i,
{
    if i > 0 {
        lemma_split_prefix(a, b, source, i - 1);
        assert(a.lines[i].start == a.lines[i - 1].end() + 1);
        assert(b.lines[i].start == b.lines[i - 1].end() + 1);
    }
    let x = a.lines[i];
    let y = b.lines[i];
    assert(x.wf() && y.wf());
    assert(x.start == y.start);
    // Whichever line were shorter would end at a terminator, or at the end
    // of the text, inside the content of the other.
    if x.end() < y.end() {
        let k = x.end() - y.start;
        assert(y.content[k] == source[x.end() as int]);
        if i < a.lines.len() - 1 {
        } else {
            assert(x.end() == source.len());
        }
        assert(false);
    }
    if y.end() < x.end() {
        let k = y.end() - x.start;
        assert(x.content[k] == source[y.end() as int]);
        if i < b.lines.len() - 1 {
        } else {
            assert(y.end() == source.len());
        }
        assert(false);
    }
    assert(x.content =~= y.content);
    if i + 1 < a.lines.len() {
        if i == b.lines.len() - 1 {
            assert(y.end() == source.len());
            assert(source[x.end() as int] == 0x0a);
            assert(false);
        }
    }
}

/// A range that starts at or behind the end of the last line's content is
/// rejected as starting after the end of the text.
pub proof fn lemma_start_past_end_rejected(list: ListView, a: AnnotationView)
    requires
        list.wf(),
        a.start <= a.end,
        a.start >= list.lines.last().end(),
    ensures
        list.outcome(a) == Err::<ListView, Error>(
            Error::AfterStringEnd(a.start as usize, a.end as usize),
        ),
{
    let last = list.lines.len() - 1;
    assert(list.owns(last, a.start));
    lemma_owner_unique(list, a.start, last, last);
}

/// A range that starts on the content of a line and is longer than that
/// content is rejected as reaching over a line boundary.
pub proof fn lemma_too_long_rejected(list: ListView, a: AnnotationView, i: int)
    requires
        list.wf(),
        0 <= i < list.lines.len(),
        list.lines[i].start <= a.start < list.lines[i].end(),
        a.start <= a.end,
        a.end - a.start > list.lines[i].content.len(),
    ensures
        list.outcome(a) == Err::<ListView, Error>(
            Error::MultilineRange(a.start as usize, a.end as usize),
        ),
{
    lemma_starts_on_owner(list, a.start, i);
}

/// A line owns the offsets of its content.
pub proof fn lemma_starts_on_owner(list: ListView, offset: nat, i: int)
    requires
        list.wf(),
        0 <= i < list.lines.len(),
        list.lines[i].start <= offset <= list.lines[i].end(),
    ensures
        list.line_of(offset) == i,
{
    if i + 1 < list.lines.len() {
        assert(list.lines[i + 1].start == list.lines[i].end() + 1);
    }
    assert(list.owns(i, offset));
    lemma_owner_unique(list, offset, i, i);
}

/// A range is accepted exactly when it does not end before it starts, starts
/// on a content byte of some line, and is no longer than that line's
/// content. The list then differs in that line alone, which has the
/// annotation behind those it had; no line is split, merged or moved.
pub proof fn lemma_accepted_iff_admitted(list: ListView, a: AnnotationView)
    requires
        list.wf(),
    ensures
        list.outcome(a) is Ok <==> exists|i: int|
            0 <= i < list.lines.len() && (#[trigger] list.lines[i]).admits(a),
        list.outcome(a) matches Ok(after) ==> {
            let i = list.line_of(a.start);
            &&& after.wf()
            &&& after.filename == list.filename
            &&& after.lines.len() == list.lines.len()
            &&& after.lines[i] == list.lines[i].with(a)
            &&& forall|j: int|
                0 <= j < list.lines.len() && j != i ==> #[trigger] after.lines[j] == list.lines[j]
        },
{
    lemma_owner_exists(list, a.start);
    let owner = list.line_of(a.start);
    if list.outcome(a) is Ok {
        assert(list.lines[owner].admits(a));
        let after = list.added(a);
        assert(after.wf()) by {
            assert forall|j: int| 0 <= j < after.lines.len() implies (
            #[trigger] after.lines[j]).wf() by {
                assert(list.lines[j].wf());
            }
            assert forall|x: int, y: int|
                0 <= x && y == x + 1 && y < after.lines.len() implies (
            #[trigger] after.lines[y]).start == (#[trigger] after.lines[x]).end() + 1 by {
                assert(list.lines[y].start == list.lines[x].end() + 1);
            }
        }
    }
    if exists|i: int| 0 <= i < list.lines.len() && (#[trigger] list.lines[i]).admits(a) {
        let i = choose|i: int| 0 <= i < list.lines.len() && (#[trigger] list.lines[i]).admits(a);
        lemma_starts_on_owner(list, a.start, i);
    }
}

/// The views of a sequence of lines, in the same order.
pub open spec fn line_views(s: Seq<AnnotatedLine>) -> Seq<LineView> {
    s.map_values(|l: AnnotatedLine| l@)
}

/// List of annotations applied to some source text, which it borrows.
#[derive(Debug, PartialEq, Eq)]
pub struct AnnotationList<'a> {
    lines: Vec<AnnotatedLine<'a>>,
    filename: String,
}

impl<'a> View for AnnotationList<'a> {
    type V = ListView;

    closed spec fn view(&self) -> ListView {
        ListView { filename: self.filename@, lines: line_views(self.lines@) }
    }
}

impl<'a> AnnotationList<'a> {
    /// The list's view is well-formed and the text that its lines cover has a
    /// length that fits the machine.
    pub open spec fn wf(&self) -> bool {
        &&& self@.wf()
        &&& self@.lines.last().end() <= usize::MAX
    }

    /// Create an annotation list over `string`. `filename` is used only to
    /// format messages, so the corresponding file doesn't need to exist.
    pub fn new(filename: &str, string: &'a str) -> (r: Self)
        ensures
            r.wf(),
            r@.filename == filename@,
            r@.splits(string.spec_bytes()),
            r@.bare(),
    {
        broadcast use {encode_utf8_valid_utf8, is_char_boundary_iff_not_is_continuation_byte};

        let bytes = string.as_bytes();
        let n = bytes.len();
        let mut lines: Vec<AnnotatedLine<'a>> = Vec::new();
        let mut rest: &'a str = string;
        let mut start: usize = 0;
        let mut i: usize = 0;
        assert(bytes@.subrange(0, n as int) =~= bytes@);
        while i < n
            invariant
                n == bytes@.len(),
                start <= i <= n,
                rest.spec_bytes() == bytes@.subrange(start as int, n as int),
                forall|k: int| start <= k < i ==> #[trigger] bytes@[k] != 0x0a,
                lines@.len() == 0 ==> start == 0,
                lines@.len() > 0 ==> start == line_views(lines@).last().end() + 1
                    && line_views(lines@)[0].start == 0,
                forall|a: int, b: int|
                    0 <= a && b == a + 1 && b < lines@.len() ==> (#[trigger] line_views(
                        lines@,
                    )[b]).start == (#[trigger] line_views(lines@)[a]).end() + 1,
                forall|j: int|
                    0 <= j < lines@.len() ==> {
                        let line = #[trigger] line_views(lines@)[j];
                        &&& line.wf()
                        &&& line.annotations.len() == 0
                        &&& line.end() < n
                        &&& bytes@.subrange(line.start as int, line.end() as int) == line.content
                        &&& bytes@[line.end() as int] == 0x0a
                    },
            decreases n - i,
        {
            if bytes[i] == 0x0au8 {
                let ghost before = line_views(lines@);
                let ghost rest_bytes = rest.spec_bytes();
                proof {
                    assert(rest_bytes[i - start] == bytes@[i as int]);
                    encode_utf8_valid_utf8(rest@);
                    is_char_boundary_iff_not_is_continuation_byte(rest_bytes, i - start);
                }
                let (content, tail) = rest.split_at(i - start);
                let ghost tail_bytes = tail.spec_bytes();
                proof {
                    assert(tail_bytes[0] == 0x0a);
                    encode_utf8_valid_utf8(tail@);
                    lemma_boundary_after_ascii(tail_bytes);
                }
                let (_, after) = tail.split_at(1);
                let line = AnnotatedLine::new(start, content);
                proof {
                    encode_utf8_valid_utf8(content@);
                    assert(line@.content =~= bytes@.subrange(start as int, i as int));
                    assert(after.spec_bytes() =~= bytes@.subrange(i + 1, n as int));
                    assert forall|k: int| 0 <= k < line@.content.len() implies #[trigger] line@.content[k]
                        != 0x0a by {
                        assert(line@.content[k] == bytes@[start + k]);
                    }
                    assert(line@.wf());
                }
                lines.push(line);
                assert(line_views(lines@) =~= before.push(line@));
                rest = after;
                start = i + 1;
            }
            i = i + 1;
        }
        let ghost before = line_views(lines@);
        let line = AnnotatedLine::new(start, rest);
        proof {
            encode_utf8_valid_utf8(rest@);
            assert forall|k: int| 0 <= k < line@.content.len() implies #[trigger] line@.content[k]
                != 0x0a by {
                assert(line@.content[k] == bytes@[start + k]);
            }
            assert(line@.wf());
        }
        lines.push(line);
        assert(line_views(lines@) =~= before.push(line@));
        let r = AnnotationList { lines, filename: String::from_str(filename) };
        assert(r@.lines == line_views(lines@));
        r
    }

    /// Index of the last line that starts at or before `offset`.
    fn find_line(&self, offset: usize) -> (idx: usize)
        requires
            self.wf(),
        ensures
            self@.owns(idx as int, offset as nat),
            idx == self@.line_of(offset as nat),
    {
        let mut lo: usize = 0;
        let mut hi: usize = self.lines.len();
        while hi - lo > 1
            invariant
                lo < hi <= self.lines@.len(),
                self@.lines[lo as int].start <= offset,
                hi < self.lines@.len() ==> offset < self@.lines[hi as int].start,
            decreases hi - lo,
        {
            let mid = lo + (hi - lo) / 2;
            if self.lines[mid].start() <= offset {
                lo = mid;
            } else {
                hi = mid;
            }
        }
        proof {
            lemma_owner_unique(self@, offset as nat, lo as int, lo as int);
        }
        lo
    }

    /// Add an [`Annotation`] to the line that owns the start of its range.
    pub fn add(&mut self, annotation: Annotation) -> (r: Result<&mut Self, Error>)
        requires
            old(self).wf(),
            annotation.wf(),
        ensures
            match r {
                Ok(list) => {
                    &&& old(self)@.outcome(annotation@) == Ok::<ListView, Error>(list@)
                    &&& list.wf()
                    &&& *final(self) == *final(list)
                },
                Err(e) => {
                    &&& old(self)@.outcome(annotation@) == Err::<ListView, Error>(e)
                    &&& final(self)@ == old(self)@
                },
            },
    {
        let start = annotation.range().start;
        let end = annotation.range().end;
        let line_idx = self.find_line(start);
        let ghost before = self@;
        proof {
            if line_idx + 1 < self.lines@.len() {
                lemma_lines_ordered(before, line_idx as int, self.lines@.len() - 1);
            }
        }
        let line = &self.lines[line_idx];
        if start >= line.start() + line.content().as_bytes().len() {
            Err(Error::AfterStringEnd(start, end))
        } else {
            match self.lines[line_idx].add(annotation) {
                Ok(_) => {
                    proof {
                        assert(self@.lines =~= before.lines.update(
                            line_idx as int,
                            before.lines[line_idx as int].with(annotation@),
                        ));
                        assert(self@.wf());
                    }
                    Ok(self)
                },
                Err(e) => {
                    proof {
                        assert(self@.lines =~= before.lines);
                    }
                    Err(e)
                },
            }
        }
    }

    /// Add a [`Severity::Info`] annotation to the list.
    pub fn info(
        &mut self,
        range: Range<usize>,
        header: impl AnnotationText,
        text: impl AnnotationText,
    ) -> (r: Result<&mut Self, Error>)
        requires
            old(self).wf(),
        ensures
            match r {
                Ok(list) => {
                    &&& old(self)@.outcome(
                        described(range, Severity::Info, header.option_text(), text.option_text()),
                    ) == Ok::<ListView, Error>(list@)
                    &&& list.wf()
                    &&& *final(self) == *final(list)
                },
                Err(e) => {
                    &&& old(self)@.outcome(
                        described(range, Severity::Info, header.option_text(), text.option_text()),
                    ) == Err::<ListView, Error>(e)
                    &&& final(self)@ == old(self)@
                },
            },
    {
        self.add(Annotation::info(range, header, text)?)
    }

    /// Add a [`Severity::Warning`] annotation to the list.
    pub fn warning(
        &mut self,
        range: Range<usize>,
        header: impl AnnotationText,
        text: impl AnnotationText,
    ) -> (r: Result<&mut Self, Error>)
        requires
            old(self).wf(),
        ensures
            match r {
                Ok(list) => {
                    &&& old(self)@.outcome(
                        described(
                            range,
                            Severity::Warning,
                            header.option_text(),
                            text.option_text(),
                        ),
                    ) == Ok::<ListView, Error>(list@)
                    &&& list.wf()
                    &&& *final(self) == *final(list)
                },
                Err(e) => {
                    &&& old(self)@.outcome(
                        described(
                            range,
                            Severity::Warning,
                            header.option_text(),
                            text.option_text(),
                        ),
                    ) == Err::<ListView, Error>(e)
                    &&& final(self)@ == old(self)@
                },
            },
    {
        self.add(Annotation::warning(range, header, text)?)
    }

    /// Add a [`Severity::Error`] annotation to the list.
    pub fn error(
        &mut self,
        range: Range<usize>,
        header: impl AnnotationText,
        text: impl AnnotationText,
    ) -> (r: Result<&mut Self, Error>)
        requires
            old(self).wf(),
        ensures
            match r {
                Ok(list) => {
                    &&& old(self)@.outcome(
                        described(range, Severity::Error, header.option_text(), text.option_text()),
                    ) == Ok::<ListView, Error>(list@)
                    &&& list.wf()
                    &&& *final(self) == *final(list)
                },
                Err(e) => {
                    &&& old(self)@.outcome(
                        described(range, Severity::Error, header.option_text(), text.option_text()),
                    ) == Err::<ListView, Error>(e)
                    &&& final(self)@ == old(self)@
                },
            },
    {
        self.add(Annotation::error(range, header, text)?)
    }

    /// The label under which the source text is shown.
    pub(crate) fn filename(&self) -> (r: &str)
        ensures
            r@ == self@.filename,
    {
        self.filename.as_str()
    }

    /// The lines of the source text with what is attached to them.
    pub fn annotated_lines(&self) -> (r: &[AnnotatedLine<'a>])
        ensures
            line_views(r@) == self@.lines,
    {
        self.lines.as_slice()
    }
}

} // verus!

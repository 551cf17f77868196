//! What a list of annotations looks like in print, and the functions that
//! print it.

use crate::annotation::{Annotation, AnnotationView};
use crate::decimal::{decimal, decimal_digits, lemma_decimal_is_utf8, lemma_decimal_len};
use crate::line::{annotation_views, LineView};
use crate::list::{line_views, AnnotationList, ListView};
use crate::sink::{
    ansi_fg, buffer_bytes, buffer_is_ansi, reset_code, reset_style, set_style, string_from_utf8,
    style_code, write_bytes,
};
use crate::stylesheet::{Style, Stylesheet};
use termcolor::Buffer;
use vstd::prelude::*;
use vstd::string::StringSliceAdditionalSpecFns;
use vstd::utf8::*;

verus! {

/// `piece` written `n` times in a row.
pub open spec fn repeated(piece: Seq<u8>, n: nat) -> Seq<u8>
    decreases n,
{
    if n == 0 {
        Seq::<u8>::empty()
    } else {
        repeated(piece, (n - 1) as nat) + piece
    }
}

/// An optional text with a space before it, or nothing.
pub open spec fn spaced(text: Option<Seq<char>>) -> Seq<u8> {
    match text {
        Some(t) => " ".spec_bytes() + encode_utf8(t),
        None => Seq::<u8>::empty(),
    }
}

/// The blank column as wide as the line number and a space on either side.
pub open spec fn gutter(line_no: nat) -> Seq<u8> {
    repeated(" ".spec_bytes(), decimal(line_no).len() + 2)
}

/// First row of a block: the severity and, if there is one, the header.
pub open spec fn heading(a: AnnotationView, styles: Stylesheet, ansi: bool) -> Seq<u8> {
    style_code(ansi, styles.severity_style(a.severity)) + encode_utf8(a.severity.text())
        + ":".spec_bytes() + spaced(a.header) + "\n".spec_bytes()
}

/// Second row of a block: an arrow, then file name, line number and column,
/// both counted from 1.
pub open spec fn location(
    filename: Seq<char>,
    line_no: nat,
    column: nat,
    styles: Stylesheet,
    ansi: bool,
) -> Seq<u8> {
    style_code(ansi, styles.linenr) + repeated(
        " ".spec_bytes(),
        decimal(line_no).len() + 1,
    ) + "--> ".spec_bytes() + style_code(ansi, styles.filename) + encode_utf8(filename)
        + ":".spec_bytes() + decimal(line_no) + ":".spec_bytes() + decimal(column)
        + "\n".spec_bytes()
}

/// Third and fourth row of a block: an empty row of the line number column,
/// then the line number and the content of the line.
pub open spec fn source_row(line_no: nat, content: Seq<u8>, styles: Stylesheet, ansi: bool) -> Seq<
    u8,
> {
    style_code(ansi, styles.linenr) + gutter(line_no) + "|\n ".spec_bytes() + decimal(line_no)
        + " | ".spec_bytes() + style_code(ansi, styles.content) + content + "\n".spec_bytes()
}

/// The caret underline of a non-empty range with the annotation's text, if
/// any, behind it; nothing for an empty range.
pub open spec fn marks(column: nat, a: AnnotationView, styles: Stylesheet, ansi: bool) -> Seq<u8> {
    if a.end == a.start {
        Seq::<u8>::empty()
    } else {
        style_code(ansi, styles.severity_style(a.severity)) + repeated(" ".spec_bytes(), column)
            + repeated("^".spec_bytes(), (a.end - a.start) as nat) + spaced(a.text)
    }
}

/// Last row of a block: the line number column, then the marks under the
/// annotated range; all styling ends with it.
pub open spec fn underline_row(
    line_no: nat,
    column: nat,
    a: AnnotationView,
    styles: Stylesheet,
    ansi: bool,
) -> Seq<u8> {
    style_code(ansi, styles.linenr) + gutter(line_no) + "|".spec_bytes() + marks(
        column,
        a,
        styles,
        ansi,
    ) + "\n".spec_bytes() + reset_code(ansi)
}

/// The block printed for annotation `a` on `line`, the `line_no`-th line
/// counted from 1. The column is the offset of the range's start in the
/// line, counted in bytes from 1.
pub open spec fn block(
    filename: Seq<char>,
    line_no: nat,
    line: LineView,
    a: AnnotationView,
    styles: Stylesheet,
    ansi: bool,
) -> Seq<u8> {
    let column = (a.start - line.start + 1) as nat;
    heading(a, styles, ansi) + location(filename, line_no, column, styles, ansi) + source_row(
        line_no,
        line.content,
        styles,
        ansi,
    ) + underline_row(line_no, column, a, styles, ansi)
}

/// Blocks one after the other with an empty row between each two.
pub open spec fn joined(blocks: Seq<Seq<u8>>) -> Seq<u8>
    decreases blocks.len(),
{
    if blocks.len() == 0 {
        Seq::<u8>::empty()
    } else if blocks.len() == 1 {
        blocks[0]
    } else {
        joined(blocks.drop_last()) + "\n".spec_bytes() + blocks.last()
    }
}

impl ListView {
    /// The blocks of the annotations of line `i`, in the order in which the
    /// annotations were attached.
    pub open spec fn line_blocks(self, i: int, styles: Stylesheet, ansi: bool) -> Seq<Seq<u8>> {
        Seq::new(
            self.lines[i].annotations.len(),
            |k: int|
                block(
                    self.filename,
                    (i + 1) as nat,
                    self.lines[i],
                    self.lines[i].annotations[k],
                    styles,
                    ansi,
                ),
        )
    }

    /// The blocks of the first `n` lines, line by line.
    pub open spec fn blocks(self, n: nat, styles: Stylesheet, ansi: bool) -> Seq<Seq<u8>>
        decreases n,
    {
        if n == 0 {
            Seq::<Seq<u8>>::empty()
        } else {
            self.blocks((n - 1) as nat, styles, ansi) + self.line_blocks(n - 1, styles, ansi)
        }
    }

    /// Everything that is printed for the list.
    pub open spec fn rendered(self, styles: Stylesheet, ansi: bool) -> Seq<u8> {
        joined(self.blocks(self.lines.len(), styles, ansi))
    }
}

/// Writes `buf` to the stream `count` times.
pub fn print_n(stream: &mut Buffer, buf: &[u8], count: usize) -> (r: Result<(), std::io::Error>)
    ensures
        r is Ok,
        buffer_bytes(*final(stream)) == buffer_bytes(*old(stream)) + repeated(buf@, count as nat),
        buffer_is_ansi(*final(stream)) == buffer_is_ansi(*old(stream)),
{
    let ghost base = buffer_bytes(*stream);
    let mut i: usize = 0;
    assert(base + repeated(buf@, 0) =~= base);
    while i < count
        invariant
            i <= count,
            buffer_bytes(*stream) == base + repeated(buf@, i as nat),
            buffer_is_ansi(*stream) == buffer_is_ansi(*old(stream)),
        decreases count - i,
    {
        write_bytes(stream, buf)?;
        assert((base + repeated(buf@, i as nat)) + buf@ =~= base + repeated(buf@, (i + 1) as nat));
        i = i + 1;
    }
    Ok(())
}

/// Moves one more piece from behind what was written before into what
/// was written since.
proof fn grow(base: Seq<u8>, acc: Seq<u8>, piece: Seq<u8>) -> (r: Seq<u8>)
    ensures
        r == acc + piece,
        (base + acc) + piece == base + r,
{
    vstd::seq_lib::lemma_concat_associative(base, acc, piece);
    acc + piece
}

/// Writes a space and the text, if there is a text.
fn write_spaced(stream: &mut Buffer, text: &Option<String>) -> (r: Result<(), std::io::Error>)
    ensures
        r is Ok,
        buffer_bytes(*final(stream)) == buffer_bytes(*old(stream)) + spaced(
            crate::annotation::text_of(*text),
        ),
        buffer_is_ansi(*final(stream)) == buffer_is_ansi(*old(stream)),
{
    let ghost base = buffer_bytes(*stream);
    if let Some(t) = text {
        write_bytes(stream, " ".as_bytes())?;
        write_bytes(stream, t.as_str().as_bytes())?;
        proof {
            grow(base, " ".spec_bytes(), encode_utf8(t@));
        }
    } else {
        assert(base + Seq::<u8>::empty() =~= base);
    }
    Ok(())
}

fn write_heading(stream: &mut Buffer, annotation: &Annotation, stylesheet: &Stylesheet) -> (r:
    Result<(), std::io::Error>)
    ensures
        r is Ok,
        buffer_bytes(*final(stream)) == buffer_bytes(*old(stream)) + heading(
            annotation@,
            *stylesheet,
            buffer_is_ansi(*old(stream)),
        ),
        buffer_is_ansi(*final(stream)) == buffer_is_ansi(*old(stream)),
{
    let ghost base = buffer_bytes(*stream);
    let ghost ansi = buffer_is_ansi(*stream);
    let ghost a = annotation@;
    set_style(stream, stylesheet.by_severity(&annotation.severity()))?;
    let ghost mut acc = style_code(ansi, stylesheet.severity_style(a.severity));
    write_bytes(stream, annotation.severity().as_str().as_bytes())?;
    proof {
        acc = grow(base, acc, encode_utf8(a.severity.text()));
    }
    write_bytes(stream, ":".as_bytes())?;
    proof {
        acc = grow(base, acc, ":".spec_bytes());
    }
    write_spaced(stream, annotation.header())?;
    proof {
        acc = grow(base, acc, spaced(a.header));
    }
    write_bytes(stream, "\n".as_bytes())?;
    proof {
        acc = grow(base, acc, "\n".spec_bytes());
    }
    Ok(())
}

fn write_location(
    stream: &mut Buffer,
    filename: &str,
    linenr: &[u8],
    column: usize,
    stylesheet: &Stylesheet,
    Ghost(line_no): Ghost<nat>,
) -> (r: Result<(), std::io::Error>)
    requires
        linenr@ == decimal(line_no),
        linenr@.len() <= 20,
    ensures
        r is Ok,
        buffer_bytes(*final(stream)) == buffer_bytes(*old(stream)) + location(
            filename@,
            line_no,
            column as nat,
            *stylesheet,
            buffer_is_ansi(*old(stream)),
        ),
        buffer_is_ansi(*final(stream)) == buffer_is_ansi(*old(stream)),
{
    let ghost base = buffer_bytes(*stream);
    let ghost ansi = buffer_is_ansi(*stream);
    set_style(stream, &stylesheet.linenr)?;
    let ghost mut acc = style_code(ansi, stylesheet.linenr);
    print_n(stream, " ".as_bytes(), linenr.len() + 1)?;
    proof {
        acc = grow(base, acc, repeated(" ".spec_bytes(), decimal(line_no).len() + 1));
    }
    write_bytes(stream, "--> ".as_bytes())?;
    proof {
        acc = grow(base, acc, "--> ".spec_bytes());
    }
    set_style(stream, &stylesheet.filename)?;
    proof {
        acc = grow(base, acc, style_code(ansi, stylesheet.filename));
    }
    write_bytes(stream, filename.as_bytes())?;
    proof {
        acc = grow(base, acc, encode_utf8(filename@));
    }
    write_bytes(stream, ":".as_bytes())?;
    proof {
        acc = grow(base, acc, ":".spec_bytes());
    }
    write_bytes(stream, linenr)?;
    proof {
        acc = grow(base, acc, decimal(line_no));
    }
    write_bytes(stream, ":".as_bytes())?;
    proof {
        acc = grow(base, acc, ":".spec_bytes());
    }
    let column_digits = decimal_digits(column);
    write_bytes(stream, column_digits.as_slice())?;
    proof {
        acc = grow(base, acc, decimal(column as nat));
    }
    write_bytes(stream, "\n".as_bytes())?;
    proof {
        acc = grow(base, acc, "\n".spec_bytes());
    }
    Ok(())
}

fn write_source_row(
    stream: &mut Buffer,
    linenr: &[u8],
    content: &str,
    stylesheet: &Stylesheet,
    Ghost(line_no): Ghost<nat>,
) -> (r: Result<(), std::io::Error>)
    requires
        linenr@ == decimal(line_no),
        linenr@.len() <= 20,
    ensures
        r is Ok,
        buffer_bytes(*final(stream)) == buffer_bytes(*old(stream)) + source_row(
            line_no,
            content.spec_bytes(),
            *stylesheet,
            buffer_is_ansi(*old(stream)),
        ),
        buffer_is_ansi(*final(stream)) == buffer_is_ansi(*old(stream)),
{
    let ghost base = buffer_bytes(*stream);
    let ghost ansi = buffer_is_ansi(*stream);
    set_style(stream, &stylesheet.linenr)?;
    let ghost mut acc = style_code(ansi, stylesheet.linenr);
    print_n(stream, " ".as_bytes(), linenr.len() + 2)?;
    proof {
        acc = grow(base, acc, gutter(line_no));
    }
    write_bytes(stream, "|\n ".as_bytes())?;
    proof {
        acc = grow(base, acc, "|\n ".spec_bytes());
    }
    write_bytes(stream, linenr)?;
    proof {
        acc = grow(base, acc, decimal(line_no));
    }
    write_bytes(stream, " | ".as_bytes())?;
    proof {
        acc = grow(base, acc, " | ".spec_bytes());
    }
    set_style(stream, &stylesheet.content)?;
    proof {
        acc = grow(base, acc, style_code(ansi, stylesheet.content));
    }
    write_bytes(stream, content.as_bytes())?;
    proof {
        acc = grow(base, acc, content.spec_bytes());
    }
    write_bytes(stream, "\n".as_bytes())?;
    proof {
        acc = grow(base, acc, "\n".spec_bytes());
    }
    Ok(())
}

fn write_marks(
    stream: &mut Buffer,
    column: usize,
    annotation: &Annotation,
    stylesheet: &Stylesheet,
) -> (r: Result<(), std::io::Error>)
    requires
        annotation.wf(),
    ensures
        r is Ok,
        buffer_bytes(*final(stream)) == buffer_bytes(*old(stream)) + marks(
            column as nat,
            annotation@,
            *stylesheet,
            buffer_is_ansi(*old(stream)),
        ),
        buffer_is_ansi(*final(stream)) == buffer_is_ansi(*old(stream)),
{
    let ghost base = buffer_bytes(*stream);
    let ghost ansi = buffer_is_ansi(*stream);
    let ghost a = annotation@;
    let range = annotation.range();
    if range.end - range.start != 0 {
        set_style(stream, stylesheet.by_severity(&annotation.severity()))?;
        let ghost mut acc = style_code(ansi, stylesheet.severity_style(a.severity));
        print_n(stream, " ".as_bytes(), column)?;
        proof {
            acc = grow(base, acc, repeated(" ".spec_bytes(), column as nat));
        }
        print_n(stream, "^".as_bytes(), range.end - range.start)?;
        proof {
            acc = grow(base, acc, repeated("^".spec_bytes(), (a.end - a.start) as nat));
        }
        write_spaced(stream, annotation.text())?;
        proof {
            acc = grow(base, acc, spaced(a.text));
        }
    } else {
        assert(base + Seq::<u8>::empty() =~= base);
    }
    Ok(())
}

fn write_underline_row(
    stream: &mut Buffer,
    linenr: &[u8],
    column: usize,
    annotation: &Annotation,
    stylesheet: &Stylesheet,
    Ghost(line_no): Ghost<nat>,
) -> (r: Result<(), std::io::Error>)
    requires
        annotation.wf(),
        linenr@ == decimal(line_no),
        linenr@.len() <= 20,
    ensures
        r is Ok,
        buffer_bytes(*final(stream)) == buffer_bytes(*old(stream)) + underline_row(
            line_no,
            column as nat,
            annotation@,
            *stylesheet,
            buffer_is_ansi(*old(stream)),
        ),
        buffer_is_ansi(*final(stream)) == buffer_is_ansi(*old(stream)),
{
    let ghost base = buffer_bytes(*stream);
    let ghost ansi = buffer_is_ansi(*stream);
    set_style(stream, &stylesheet.linenr)?;
    let ghost mut acc = style_code(ansi, stylesheet.linenr);
    print_n(stream, " ".as_bytes(), linenr.len() + 2)?;
    proof {
        acc = grow(base, acc, gutter(line_no));
    }
    write_bytes(stream, "|".as_bytes())?;
    proof {
        acc = grow(base, acc, "|".spec_bytes());
    }
    write_marks(stream, column, annotation, stylesheet)?;
    proof {
        acc = grow(base, acc, marks(column as nat, annotation@, *stylesheet, ansi));
    }
    write_bytes(stream, "\n".as_bytes())?;
    proof {
        acc = grow(base, acc, "\n".spec_bytes());
    }
    reset_style(stream)?;
    proof {
        acc = grow(base, acc, reset_code(ansi));
    }
    Ok(())
}

/// The bytes of a text are well-formed UTF-8.
proof fn text_bytes(s: &str) -> (r: Seq<u8>)
    ensures
        r == s.spec_bytes(),
        valid_utf8(r),
{
    encode_utf8_valid_utf8(s@);
    s.spec_bytes()
}

/// Two pieces of well-formed UTF-8 in a row are well-formed UTF-8.
proof fn both(a: Seq<u8>, b: Seq<u8>) -> (r: Seq<u8>)
    requires
        valid_utf8(a),
        valid_utf8(b),
    ensures
        r == a + b,
        valid_utf8(r),
{
    valid_utf8_concat(a, b);
    a + b
}

proof fn lemma_repeated_is_utf8(piece: Seq<u8>, n: nat)
    requires
        valid_utf8(piece),
    ensures
        valid_utf8(repeated(piece, n)),
    decreases n,
{
    if n > 0 {
        lemma_repeated_is_utf8(piece, (n - 1) as nat);
        valid_utf8_concat(repeated(piece, (n - 1) as nat), piece);
    }
}

proof fn lemma_style_code_is_utf8(ansi: bool, style: Style)
    ensures
        valid_utf8(style_code(ansi, style)),
        valid_utf8(reset_code(ansi)),
{
    let none = Seq::<u8>::empty();
    assert(valid_utf8(none));
    let reset = text_bytes("\x1B[0m");
    let bold = text_bytes("\x1B[1m");
    text_bytes("\x1B[30m");
    text_bytes("\x1B[31m");
    text_bytes("\x1B[32m");
    text_bytes("\x1B[33m");
    text_bytes("\x1B[34m");
    text_bytes("\x1B[35m");
    text_bytes("\x1B[36m");
    text_bytes("\x1B[37m");
    if ansi {
        let weight = if style.bold {
            bold
        } else {
            none
        };
        let colour = match style.fg {
            Some(c) => ansi_fg(c),
            None => none,
        };
        let r = both(reset, weight);
        let r = both(r, colour);
    }
}

proof fn lemma_spaced_is_utf8(text: Option<Seq<char>>)
    ensures
        valid_utf8(spaced(text)),
{
    match text {
        Some(t) => {
            encode_utf8_valid_utf8(t);
            let space = text_bytes(" ");
            let r = both(space, encode_utf8(t));
        },
        None => {},
    }
}

proof fn lemma_gutter_is_utf8(line_no: nat)
    ensures
        valid_utf8(gutter(line_no)),
{
    let space = text_bytes(" ");
    lemma_repeated_is_utf8(space, decimal(line_no).len() + 2);
}

proof fn lemma_heading_is_utf8(a: AnnotationView, styles: Stylesheet, ansi: bool)
    ensures
        valid_utf8(heading(a, styles, ansi)),
{
    lemma_style_code_is_utf8(ansi, styles.severity_style(a.severity));
    encode_utf8_valid_utf8(a.severity.text());
    lemma_spaced_is_utf8(a.header);
    let r = both(style_code(ansi, styles.severity_style(a.severity)), encode_utf8(a.severity.text()));
    let piece = text_bytes(":");
    let r = both(r, piece);
    let r = both(r, spaced(a.header));
    let piece = text_bytes("\n");
    let r = both(r, piece);
}

proof fn lemma_location_is_utf8(
    filename: Seq<char>,
    line_no: nat,
    column: nat,
    styles: Stylesheet,
    ansi: bool,
)
    ensures
        valid_utf8(location(filename, line_no, column, styles, ansi)),
{
    lemma_style_code_is_utf8(ansi, styles.linenr);
    lemma_style_code_is_utf8(ansi, styles.filename);
    let space = text_bytes(" ");
    lemma_repeated_is_utf8(space, decimal(line_no).len() + 1);
    encode_utf8_valid_utf8(filename);
    lemma_decimal_is_utf8(line_no);
    lemma_decimal_is_utf8(column);
    let r = both(
        style_code(ansi, styles.linenr),
        repeated(" ".spec_bytes(), decimal(line_no).len() + 1),
    );
    let piece = text_bytes("--> ");
    let r = both(r, piece);
    let r = both(r, style_code(ansi, styles.filename));
    let r = both(r, encode_utf8(filename));
    let piece = text_bytes(":");
    let r = both(r, piece);
    let r = both(r, decimal(line_no));
    let piece = text_bytes(":");
    let r = both(r, piece);
    let r = both(r, decimal(column));
    let piece = text_bytes("\n");
    let r = both(r, piece);
}

proof fn lemma_source_row_is_utf8(line_no: nat, content: Seq<u8>, styles: Stylesheet, ansi: bool)
    requires
        valid_utf8(content),
    ensures
        valid_utf8(source_row(line_no, content, styles, ansi)),
{
    lemma_style_code_is_utf8(ansi, styles.linenr);
    lemma_style_code_is_utf8(ansi, styles.content);
    lemma_gutter_is_utf8(line_no);
    lemma_decimal_is_utf8(line_no);
    let r = both(style_code(ansi, styles.linenr), gutter(line_no));
    let piece = text_bytes("|\n ");
    let r = both(r, piece);
    let r = both(r, decimal(line_no));
    let piece = text_bytes(" | ");
    let r = both(r, piece);
    let r = both(r, style_code(ansi, styles.content));
    let r = both(r, content);
    let piece = text_bytes("\n");
    let r = both(r, piece);
}

proof fn lemma_marks_is_utf8(column: nat, a: AnnotationView, styles: Stylesheet, ansi: bool)
    ensures
        valid_utf8(marks(column, a, styles, ansi)),
{
    if a.end != a.start {
        lemma_style_code_is_utf8(ansi, styles.severity_style(a.severity));
        let space = text_bytes(" ");
        let caret = text_bytes("^");
        lemma_repeated_is_utf8(space, column);
        lemma_repeated_is_utf8(caret, (a.end - a.start) as nat);
        lemma_spaced_is_utf8(a.text);
        let r = both(
            style_code(ansi, styles.severity_style(a.severity)),
            repeated(" ".spec_bytes(), column),
        );
        let r = both(r, repeated("^".spec_bytes(), (a.end - a.start) as nat));
        let r = both(r, spaced(a.text));
    }
}

proof fn lemma_underline_row_is_utf8(
    line_no: nat,
    column: nat,
    a: AnnotationView,
    styles: Stylesheet,
    ansi: bool,
)
    ensures
        valid_utf8(underline_row(line_no, column, a, styles, ansi)),
{
    lemma_style_code_is_utf8(ansi, styles.linenr);
    lemma_gutter_is_utf8(line_no);
    lemma_marks_is_utf8(column, a, styles, ansi);
    let r = both(style_code(ansi, styles.linenr), gutter(line_no));
    let piece = text_bytes("|");
    let r = both(r, piece);
    let r = both(r, marks(column, a, styles, ansi));
    let piece = text_bytes("\n");
    let r = both(r, piece);
    let r = both(r, reset_code(ansi));
}

/// A block over well-formed UTF-8 content is well-formed UTF-8.
pub proof fn lemma_block_is_utf8(
    filename: Seq<char>,
    line_no: nat,
    line: LineView,
    a: AnnotationView,
    styles: Stylesheet,
    ansi: bool,
)
    requires
        valid_utf8(line.content),
    ensures
        valid_utf8(block(filename, line_no, line, a, styles, ansi)),
{
    let column = (a.start - line.start + 1) as nat;
    lemma_heading_is_utf8(a, styles, ansi);
    lemma_location_is_utf8(filename, line_no, column, styles, ansi);
    lemma_source_row_is_utf8(line_no, line.content, styles, ansi);
    lemma_underline_row_is_utf8(line_no, column, a, styles, ansi);
    let r = both(
        heading(a, styles, ansi),
        location(filename, line_no, column, styles, ansi),
    );
    let r = both(r, source_row(line_no, line.content, styles, ansi));
    let r = both(r, underline_row(line_no, column, a, styles, ansi));
}

proof fn lemma_joined_is_utf8(blocks: Seq<Seq<u8>>)
    requires
        forall|i: int| 0 <= i < blocks.len() ==> valid_utf8(#[trigger] blocks[i]),
    ensures
        valid_utf8(joined(blocks)),
    decreases blocks.len(),
{
    if blocks.len() >= 2 {
        lemma_joined_is_utf8(blocks.drop_last());
        let gap = text_bytes("\n");
        let r = both(joined(blocks.drop_last()), gap);
        let r = both(r, blocks.last());
    }
}

proof fn lemma_blocks_are_utf8(list: ListView, n: nat, styles: Stylesheet, ansi: bool)
    requires
        list.wf(),
        n <= list.lines.len(),
    ensures
        forall|i: int|
            0 <= i < list.blocks(n, styles, ansi).len() ==> valid_utf8(
                #[trigger] list.blocks(n, styles, ansi)[i],
            ),
    decreases n,
{
    if n > 0 {
        lemma_blocks_are_utf8(list, (n - 1) as nat, styles, ansi);
        let line = list.lines[n - 1];
        assert(line.wf());
        let here = list.line_blocks(n - 1, styles, ansi);
        assert forall|k: int| 0 <= k < here.len() implies valid_utf8(#[trigger] here[k]) by {
            lemma_block_is_utf8(list.filename, n, line, line.annotations[k], styles, ansi);
        }
        let earlier = list.blocks((n - 1) as nat, styles, ansi);
        let all = list.blocks(n, styles, ansi);
        assert(all == earlier + here);
        assert forall|i: int| 0 <= i < all.len() implies valid_utf8(#[trigger] all[i]) by {
            if i < earlier.len() {
                assert(all[i] == earlier[i]);
            } else {
                assert(all[i] == here[i - earlier.len()]);
            }
        }
    }
}

/// What is printed for a well-formed list is well-formed UTF-8.
pub proof fn lemma_rendered_is_utf8(list: ListView, styles: Stylesheet, ansi: bool)
    requires
        list.wf(),
    ensures
        valid_utf8(list.rendered(styles, ansi)),
{
    lemma_blocks_are_utf8(list, list.lines.len(), styles, ansi);
    lemma_joined_is_utf8(list.blocks(list.lines.len(), styles, ansi));
}

/// How many annotations the first `n` lines carry together.
pub open spec fn annotations_before(list: ListView, n: nat) -> nat
    decreases n,
{
    if n == 0 {
        0
    } else {
        annotations_before(list, (n - 1) as nat) + list.lines[n - 1].annotations.len()
    }
}

/// An annotation with an empty range has no marks: the last row of its block
/// is the line number column and the bare bar.
pub proof fn lemma_empty_range_unmarked(
    line_no: nat,
    column: nat,
    a: AnnotationView,
    styles: Stylesheet,
    ansi: bool,
)
    requires
        a.start == a.end,
    ensures
        marks(column, a, styles, ansi) == Seq::<u8>::empty(),
        underline_row(line_no, column, a, styles, ansi) == style_code(ansi, styles.linenr) + gutter(
            line_no,
        ) + "|".spec_bytes() + "\n".spec_bytes() + reset_code(ansi),
{
    let bar = style_code(ansi, styles.linenr) + gutter(line_no) + "|".spec_bytes();
    assert(bar + Seq::<u8>::empty() =~= bar);
}

/// Every annotation has a block of its own, and the blocks stand in the
/// order of the lines and, within a line, in the order in which the
/// annotations were attached: the `k`-th annotation of line `i` is printed
/// as the block behind those of all annotations of earlier lines and of the
/// `k` annotations before it on its line.
pub proof fn lemma_blocks_in_order(
    list: ListView,
    n: nat,
    i: int,
    k: int,
    styles: Stylesheet,
    ansi: bool,
)
    requires
        n <= list.lines.len(),
        0 <= i < n,
        0 <= k < list.lines[i].annotations.len(),
    ensures
        list.blocks(n, styles, ansi).len() == annotations_before(list, n),
        annotations_before(list, i as nat) + k < annotations_before(list, n),
        list.blocks(n, styles, ansi)[annotations_before(list, i as nat) + k] == block(
            list.filename,
            (i + 1) as nat,
            list.lines[i],
            list.lines[i].annotations[k],
            styles,
            ansi,
        ),
    decreases n,
{
    lemma_blocks_len(list, n, styles, ansi);
    lemma_blocks_len(list, (n - 1) as nat, styles, ansi);
    if i < n - 1 {
        lemma_blocks_in_order(list, (n - 1) as nat, i, k, styles, ansi);
    }
}

/// There are as many blocks as annotations.
pub proof fn lemma_blocks_len(list: ListView, n: nat, styles: Stylesheet, ansi: bool)
    requires
        n <= list.lines.len(),
    ensures
        list.blocks(n, styles, ansi).len() == annotations_before(list, n),
    decreases n,
{
    if n > 0 {
        lemma_blocks_len(list, (n - 1) as nat, styles, ansi);
    }
}

/// Between the blocks of two annotations that follow each other stands one
/// empty row, and nothing stands before the first block or behind the last:
/// what is printed for `m + 1` blocks is what is printed for the first `m`,
/// a line break, and the last block.
pub proof fn lemma_rendered_by_blocks(blocks: Seq<Seq<u8>>)
    ensures
        blocks.len() == 0 ==> joined(blocks) == Seq::<u8>::empty(),
        blocks.len() == 1 ==> joined(blocks) == blocks[0],
        blocks.len() >= 2 ==> joined(blocks) == joined(blocks.drop_last()) + "\n".spec_bytes()
            + blocks.last(),
{
}

/// Attaching an annotation changes what is printed for its line by one more
/// block behind the others, and nothing of what is printed for other lines.
pub proof fn lemma_attach_appends_block(
    list: ListView,
    i: int,
    a: AnnotationView,
    j: int,
    styles: Stylesheet,
    ansi: bool,
)
    requires
        0 <= i < list.lines.len(),
        0 <= j < list.lines.len(),
    ensures
        j != i ==> list.attach(i, a).line_blocks(j, styles, ansi) == list.line_blocks(
            j,
            styles,
            ansi,
        ),
        list.attach(i, a).line_blocks(i, styles, ansi) == list.line_blocks(i, styles, ansi).push(
            block(list.filename, (i + 1) as nat, list.lines[i], a, styles, ansi),
        ),
{
    let after = list.attach(i, a);
    if j != i {
        assert(after.line_blocks(j, styles, ansi) =~= list.line_blocks(j, styles, ansi));
    }
    assert(after.line_blocks(i, styles, ansi) =~= list.line_blocks(i, styles, ansi).push(
        block(list.filename, (i + 1) as nat, list.lines[i], a, styles, ansi),
    ));
}

/// Joining one more block to some blocks puts an empty row before it,
/// unless it is the first.
pub proof fn lemma_joined_push(blocks: Seq<Seq<u8>>, next: Seq<u8>)
    ensures
        joined(blocks.push(next)) == if blocks.len() == 0 {
            next
        } else {
            joined(blocks) + "\n".spec_bytes() + next
        },
{
    assert(blocks.push(next).drop_last() =~= blocks);
}

impl<'a> AnnotationList<'a> {
    /// Print the message for every annotation into `stream`, styled by
    /// `stylesheet` as far as the stream takes styling.
    pub fn show(&self, stream: &mut Buffer, stylesheet: &Stylesheet) -> (r: Result<
        (),
        std::io::Error,
    >)
        requires
            self.wf(),
        ensures
            r is Ok,
            buffer_bytes(*final(stream)) == buffer_bytes(*old(stream)) + self@.rendered(
                *stylesheet,
                buffer_is_ansi(*old(stream)),
            ),
            buffer_is_ansi(*final(stream)) == buffer_is_ansi(*old(stream)),
    {
        let ghost base = buffer_bytes(*stream);
        let ghost ansi = buffer_is_ansi(*stream);
        let ghost list = self@;
        let lines = self.annotated_lines();
        let filename = self.filename();
        let mut first_output = true;
        let ghost mut done: Seq<Seq<u8>> = Seq::empty();
        let mut idx: usize = 0;
        assert(base + joined(done) =~= base);
        while idx < lines.len()
            invariant
                idx <= lines@.len(),
                line_views(lines@) == list.lines,
                list.wf(),
                list.lines.last().end() <= usize::MAX,
                filename@ == list.filename,
                done == list.blocks(idx as nat, *stylesheet, ansi),
                first_output == (done.len() == 0),
                buffer_bytes(*stream) == base + joined(done),
                buffer_is_ansi(*stream) == ansi,
            decreases lines@.len() - idx,
        {
            let line = &lines[idx];
            let annotations = line.annotations();
            let linenr = decimal_digits(idx + 1);
            let ghost line_no = (idx + 1) as nat;
            let ghost here = list.line_blocks(idx as int, *stylesheet, ansi);
            let ghost earlier = done;
            let mut k: usize = 0;
            proof {
                lemma_decimal_len((idx + 1) as usize);
                assert(line@ == list.lines[idx as int]);
                assert(line@.wf());
                if idx + 1 < lines@.len() {
                    crate::list::lemma_lines_ordered(list, idx as int, lines@.len() - 1);
                }
                assert(earlier + here.take(0) =~= earlier);
            }
            while k < annotations.len()
                invariant
                    k <= annotations@.len(),
                    idx < lines@.len(),
                    line_no == idx + 1,
                    line@ == list.lines[idx as int],
                    line@.wf(),
                    line@.end() <= usize::MAX,
                    annotation_views(annotations@) == line@.annotations,
                    linenr@ == decimal(line_no),
                    linenr@.len() <= 20,
                    filename@ == list.filename,
                    here == list.line_blocks(idx as int, *stylesheet, ansi),
                    done == earlier + here.take(k as int),
                    first_output == (done.len() == 0),
                    buffer_bytes(*stream) == base + joined(done),
                    buffer_is_ansi(*stream) == ansi,
                decreases annotations@.len() - k,
            {
                let annotation = &annotations[k];
                let ghost a = annotation@;
                let ghost before = buffer_bytes(*stream);
                proof {
                    assert(a == line@.annotations[k as int]);
                    assert(line@.admits(a));
                }
                let range = annotation.range();
                if first_output {
                    first_output = false;
                } else {
                    write_bytes(stream, "\n".as_bytes())?;
                }
                let ghost after_gap = buffer_bytes(*stream);
                let column = range.start - line.start() + 1;
                write_heading(stream, annotation, stylesheet)?;
                let ghost mut acc = heading(a, *stylesheet, ansi);
                write_location(
                    stream,
                    filename,
                    linenr.as_slice(),
                    column,
                    stylesheet,
                    Ghost(line_no),
                )?;
                proof {
                    acc = grow(
                        after_gap,
                        acc,
                        location(list.filename, line_no, column as nat, *stylesheet, ansi),
                    );
                }
                write_source_row(
                    stream,
                    linenr.as_slice(),
                    line.content(),
                    stylesheet,
                    Ghost(line_no),
                )?;
                proof {
                    acc = grow(
                        after_gap,
                        acc,
                        source_row(line_no, line@.content, *stylesheet, ansi),
                    );
                }
                write_underline_row(
                    stream,
                    linenr.as_slice(),
                    column,
                    annotation,
                    stylesheet,
                    Ghost(line_no),
                )?;
                proof {
                    acc = grow(
                        after_gap,
                        acc,
                        underline_row(line_no, column as nat, a, *stylesheet, ansi),
                    );
                    assert(acc == block(list.filename, line_no, line@, a, *stylesheet, ansi));
                    assert(acc == here[k as int]);
                    lemma_joined_push(done, acc);
                    if done.len() > 0 {
                        vstd::seq_lib::lemma_concat_associative(
                            base,
                            joined(done),
                            "\n".spec_bytes(),
                        );
                        vstd::seq_lib::lemma_concat_associative(
                            base,
                            joined(done) + "\n".spec_bytes(),
                            acc,
                        );
                    }
                    assert(earlier + here.take(k + 1) =~= done.push(acc));
                    done = done.push(acc);
                }
                k = k + 1;
            }
            proof {
                assert(here.take(k as int) =~= here);
            }
            idx = idx + 1;
        }
        Ok(())
    }

    /// "Print" the monochrome message to a `Vec<u8>`.
    pub fn to_bytes(&self) -> (r: Result<Vec<u8>, std::io::Error>)
        requires
            self.wf(),
        ensures
            r matches Ok(bytes) && bytes@ == self@.rendered(Stylesheet::spec_monochrome(), false),
    {
        let mut buf = Buffer::no_color();
        let ghost empty = buffer_bytes(buf);
        let stylesheet = Stylesheet::monochrome();
        self.show(&mut buf, &stylesheet)?;
        assert(empty + self@.rendered(stylesheet, false) =~= self@.rendered(stylesheet, false));
        Ok(buf.into_inner())
    }

    /// "Print" the message to a `Vec<u8>`, colorizing it with ANSI escape
    /// sequences.
    pub fn to_ansi_bytes(&self, stylesheet: &Stylesheet) -> (r: Result<Vec<u8>, std::io::Error>)
        requires
            self.wf(),
        ensures
            r matches Ok(bytes) && bytes@ == self@.rendered(*stylesheet, true),
    {
        let mut buf = Buffer::ansi();
        let ghost empty = buffer_bytes(buf);
        self.show(&mut buf, stylesheet)?;
        assert(empty + self@.rendered(*stylesheet, true) =~= self@.rendered(*stylesheet, true));
        Ok(buf.into_inner())
    }

    /// "Print" the monochrome message to a `String`.
    pub fn to_string(&self) -> (r: Result<String, std::io::Error>)
        requires
            self.wf(),
        ensures
            r matches Ok(s) && encode_utf8(s@) == self@.rendered(
                Stylesheet::spec_monochrome(),
                false,
            ),
    {
        let bytes = self.to_bytes()?;
        proof {
            lemma_rendered_is_utf8(self@, Stylesheet::spec_monochrome(), false);
        }
        match string_from_utf8(bytes) {
            Ok(s) => Ok(s),
            Err(_) => vstd::pervasive::unreached(),
        }
    }

    /// "Print" the message to a `String`, colorizing it with ANSI escape
    /// sequences.
    pub fn to_ansi_string(&self, stylesheet: &Stylesheet) -> (r: Result<String, std::io::Error>)
        requires
            self.wf(),
        ensures
            r matches Ok(s) && encode_utf8(s@) == self@.rendered(*stylesheet, true),
    {
        let bytes = self.to_ansi_bytes(stylesheet)?;
        proof {
            lemma_rendered_is_utf8(self@, *stylesheet, true);
        }
        match string_from_utf8(bytes) {
            Ok(s) => Ok(s),
            Err(_) => vstd::pervasive::unreached(),
        }
    }
}

} // verus!

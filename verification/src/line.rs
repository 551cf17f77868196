use crate::annotation::{Annotation, AnnotationView};
use crate::error::Error;
use vstd::prelude::*;
use vstd::string::StringSliceAdditionalSpecFns;
use vstd::utf8::valid_utf8;

verus! {

/// The mathematical content of an [`AnnotatedLine`].
pub struct LineView {
    /// Offset of the line's first content byte in the source text.
    pub start: nat,
    /// The bytes of the line, without its terminator.
    pub content: Seq<u8>,
    /// The annotations attached to the line, oldest first.
    pub annotations: Seq<AnnotationView>,
}

impl LineView {
    /// Offset just past the last content byte.
    pub open spec fn end(self) -> nat {
        self.start + self.content.len()
    }

    /// Whether an annotation may sit on this line: its range is well-formed,
    /// starts on a content byte of the line and is no longer than the line.
    pub open spec fn admits(self, a: AnnotationView) -> bool {
        &&& a.start <= a.end
        &&& self.start <= a.start < self.end()
        &&& a.end - a.start <= self.content.len()
    }

    /// The content is text without a line terminator, and the line admits
    /// each of its annotations.
    pub open spec fn wf(self) -> bool {
        &&& valid_utf8(self.content)
        &&& forall|k: int| 0 <= k < self.content.len() ==> #[trigger] self.content[k] != 0x0a
        &&& forall|j: int|
            0 <= j < self.annotations.len() ==> self.admits(#[trigger] self.annotations[j])
    }

    /// The line with one more annotation behind those it already has.
    pub open spec fn with(self, a: AnnotationView) -> LineView {
        LineView { annotations: self.annotations.push(a), ..self }
    }
}

/// The views of a sequence of annotations, in the same order.
pub open spec fn annotation_views(s: Seq<Annotation>) -> Seq<AnnotationView> {
    s.map_values(|a: Annotation| a@)
}

/// One line of the source text together with the annotations attached to it.
#[derive(Debug, PartialEq, Eq)]
pub struct AnnotatedLine<'a> {
    start: usize,
    content: &'a str,
    annotations: Vec<Annotation>,
}

impl<'a> View for AnnotatedLine<'a> {
    type V = LineView;

    closed spec fn view(&self) -> LineView {
        LineView {
            start: self.start as nat,
            content: self.content.spec_bytes(),
            annotations: annotation_views(self.annotations@),
        }
    }
}

impl<'a> AnnotatedLine<'a> {
    /// A line without annotations.
    pub(crate) fn new(start: usize, content: &'a str) -> (r: Self)
        ensures
            r@ == (LineView {
                start: start as nat,
                content: content.spec_bytes(),
                annotations: Seq::<AnnotationView>::empty(),
            }),
    {
        let r = AnnotatedLine { start, content, annotations: Vec::new() };
        assert(annotation_views(r.annotations@) =~= Seq::<AnnotationView>::empty());
        r
    }

    pub fn start(&self) -> (r: usize)
        ensures
            r == self@.start,
    {
        self.start
    }

    pub fn annotations(&self) -> (r: &[Annotation])
        ensures
            annotation_views(r@) == self@.annotations,
    {
        self.annotations.as_slice()
    }

    pub fn content(&self) -> (r: &str)
        ensures
            r.spec_bytes() == self@.content,
    {
        self.content
    }

    pub fn add(&mut self, annotation: Annotation) -> (r: Result<&mut Self, Error>)
        requires
            annotation.wf(),
        ensures
            match r {
                Ok(line) => {
                    &&& annotation@.end - annotation@.start <= old(self)@.content.len()
                    &&& line@ == old(self)@.with(annotation@)
                    &&& *final(self) == *final(line)
                },
                Err(e) => {
                    &&& annotation@.end - annotation@.start > old(self)@.content.len()
                    &&& e == Error::MultilineRange(
                        annotation@.start as usize,
                        annotation@.end as usize,
                    )
                    &&& *final(self) == *old(self)
                },
            },
    {
        let range = annotation.range();
        if range.end - range.start > self.content.as_bytes().len() {
            Err(Error::MultilineRange(range.start, range.end))
        } else {
            self.annotations.push(annotation);
            assert(annotation_views(self.annotations@) =~= annotation_views(
                old(self).annotations@,
            ).push(annotation@));
            Ok(self)
        }
    }
}

} // verus!

use crate::error::Error;
use std::ops::Range;
use vstd::prelude::*;
use vstd::string::StringExecFns;

verus! {

/// How serious an annotation is.
#[derive(Debug, Clone, Copy, PartialEq, Eq, Structural)]
pub enum Severity {
    Info,
    Warning,
    Error,
}

impl Severity {
    /// The word that stands for the severity in the output.
    pub open spec fn text(self) -> Seq<char> {
        match self {
            Severity::Info => "info"@,
            Severity::Warning => "warning"@,
            Severity::Error => "error"@,
        }
    }

    /// The word that stands for the severity in the output.
    pub fn as_str(&self) -> (r: &'static str)
        ensures
            r@ == self.text(),
    {
        match self {
            Severity::Info => "info",
            Severity::Warning => "warning",
            Severity::Error => "error",
        }
    }
}

/// The mathematical content of an [`Annotation`].
pub struct AnnotationView {
    pub start: nat,
    pub end: nat,
    pub severity: Severity,
    pub header: Option<Seq<char>>,
    pub text: Option<Seq<char>>,
}

/// A diagnostic marker bound to a half-open byte range of the source text.
#[derive(Debug, PartialEq, Eq)]
pub struct Annotation {
    range: Range<usize>,
    /// Shown after the severity, above the source line.
    pub header: Option<String>,
    /// Shown next to the caret underline.
    pub text: Option<String>,
    pub severity: Severity,
}

/// Anything that can stand for an optional piece of annotation text.
pub trait AnnotationText: Sized {
    /// The text this value stands for, if any.
    spec fn option_text(self) -> Option<Seq<char>>;

    fn into_option_string(self) -> (r: Option<String>)
        ensures
            text_of(r) == self.option_text(),
    ;
}

/// The annotation that a range, a severity and two optional texts describe.
pub open spec fn described(
    range: Range<usize>,
    severity: Severity,
    header: Option<Seq<char>>,
    text: Option<Seq<char>>,
) -> AnnotationView {
    AnnotationView { start: range.start as nat, end: range.end as nat, severity, header, text }
}

/// The characters held by an optional string.
pub open spec fn text_of(s: Option<String>) -> Option<Seq<char>> {
    match s {
        Some(s) => Some(s@),
        None => None,
    }
}

impl AnnotationText for String {
    open spec fn option_text(self) -> Option<Seq<char>> {
        Some(self@)
    }

    fn into_option_string(self) -> (r: Option<String>) {
        Some(self)
    }
}

impl AnnotationText for &str {
    open spec fn option_text(self) -> Option<Seq<char>> {
        Some(self@)
    }

    fn into_option_string(self) -> (r: Option<String>) {
        Some(String::from_str(self))
    }
}

impl AnnotationText for Option<String> {
    open spec fn option_text(self) -> Option<Seq<char>> {
        text_of(self)
    }

    fn into_option_string(self) -> (r: Option<String>) {
        self
    }
}

impl View for Annotation {
    type V = AnnotationView;

    closed spec fn view(&self) -> AnnotationView {
        AnnotationView {
            start: self.range.start as nat,
            end: self.range.end as nat,
            severity: self.severity,
            header: text_of(self.header),
            text: text_of(self.text),
        }
    }
}

impl Clone for Annotation {
    fn clone(&self) -> (r: Self)
        ensures
            r@ == self@,
    {
        let header = match &self.header {
            Some(s) => Some(s.clone()),
            None => None,
        };
        let text = match &self.text {
            Some(s) => Some(s.clone()),
            None => None,
        };
        Annotation {
            range: self.range.start..self.range.end,
            header,
            text,
            severity: self.severity,
        }
    }
}

impl Annotation {
    /// The range does not end before it starts.
    pub open spec fn wf(&self) -> bool {
        self@.start <= self@.end
    }

    pub(crate) fn severity(&self) -> (r: Severity)
        ensures
            r == self@.severity,
    {
        self.severity
    }

    pub(crate) fn header(&self) -> (r: &Option<String>)
        ensures
            text_of(*r) == self@.header,
    {
        &self.header
    }

    pub(crate) fn text(&self) -> (r: &Option<String>)
        ensures
            text_of(*r) == self@.text,
    {
        &self.text
    }

    /// Create a new annotation. Fails with [`Error::InvalidRange`] if the
    /// range ends before it starts. Header and text may each be a `&str`, a
    /// `String` or an `Option<String>`.
    pub fn new(
        range: Range<usize>,
        severity: Severity,
        header: impl AnnotationText,
        text: impl AnnotationText,
    ) -> (r: Result<Self, Error>)
        ensures
            range.start <= range.end ==> r is Ok,
            range.start > range.end ==> r == Err::<Self, Error>(Error::InvalidRange(range.start, range.end)),
            r matches Ok(a) ==> a.wf() && a@ == described(
                range,
                severity,
                header.option_text(),
                text.option_text(),
            ),
    {
        if range.end < range.start {
            Err(Error::InvalidRange(range.start, range.end))
        } else {
            Ok(Self {
                range,
                severity,
                header: header.into_option_string(),
                text: text.into_option_string(),
            })
        }
    }

    /// Create a new [`Severity::Info`] annotation.
    pub fn info(range: Range<usize>, header: impl AnnotationText, text: impl AnnotationText) -> (r:
        Result<Self, Error>)
        ensures
            range.start <= range.end ==> r is Ok,
            range.start > range.end ==> r == Err::<Self, Error>(
                Error::InvalidRange(range.start, range.end),
            ),
            r matches Ok(a) ==> a.wf() && a@ == described(
                range,
                Severity::Info,
                header.option_text(),
                text.option_text(),
            ),
    {
        Self::new(range, Severity::Info, header, text)
    }

    /// Create a new [`Severity::Warning`] annotation.
    pub fn warning(
        range: Range<usize>,
        header: impl AnnotationText,
        text: impl AnnotationText,
    ) -> (r: Result<Self, Error>)
        ensures
            range.start <= range.end ==> r is Ok,
            range.start > range.end ==> r == Err::<Self, Error>(
                Error::InvalidRange(range.start, range.end),
            ),
            r matches Ok(a) ==> a.wf() && a@ == described(
                range,
                Severity::Warning,
                header.option_text(),
                text.option_text(),
            ),
    {
        Self::new(range, Severity::Warning, header, text)
    }

    /// Create a new [`Severity::Error`] annotation.
    pub fn error(range: Range<usize>, header: impl AnnotationText, text: impl AnnotationText) -> (r:
        Result<Self, Error>)
        ensures
            range.start <= range.end ==> r is Ok,
            range.start > range.end ==> r == Err::<Self, Error>(
                Error::InvalidRange(range.start, range.end),
            ),
            r matches Ok(a) ==> a.wf() && a@ == described(
                range,
                Severity::Error,
                header.option_text(),
                text.option_text(),
            ),
    {
        Self::new(range, Severity::Error, header, text)
    }

    /// Get the annotation's range.
    pub fn range(&self) -> (r: &Range<usize>)
        ensures
            r.start == self@.start,
            r.end == self@.end,
    {
        &self.range
    }
}

} // verus!

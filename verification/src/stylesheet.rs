use crate::annotation::Severity;
use vstd::prelude::*;

verus! {

/// The eight basic terminal colours.
#[derive(Debug, Clone, Copy, PartialEq, Eq, Structural)]
pub enum Color {
    Black,
    Blue,
    Green,
    Red,
    Cyan,
    Magenta,
    Yellow,
    White,
}

/// Display attributes of one role of the output.
#[derive(Debug, Clone, Copy, PartialEq, Eq, Structural)]
pub struct Style {
    /// Foreground colour, or the terminal's own when `None`.
    pub fg: Option<Color>,
    pub bold: bool,
}

impl Style {
    /// No colour, regular weight.
    pub open spec fn spec_plain() -> Style {
        Style { fg: None, bold: false }
    }

    #[verifier::when_used_as_spec(spec_plain)]
    pub fn plain() -> (r: Style)
        ensures
            r == Style::spec_plain(),
    {
        Style { fg: None, bold: false }
    }
}

/// Set of styles to colorize the output.
#[derive(Debug, Clone, Copy, PartialEq, Eq, Structural)]
pub struct Stylesheet {
    /// Style of [`Severity::Info`] annotations.
    pub info: Style,
    /// Style of [`Severity::Warning`] annotations.
    pub warning: Style,
    /// Style of [`Severity::Error`] annotations.
    pub error: Style,
    /// Style of the line numbers column.
    pub linenr: Style,
    /// Style of the file name.
    pub filename: Style,
    /// Style of the annotated line's content.
    pub content: Style,
}

impl Stylesheet {
    /// The style a severity is shown in.
    pub open spec fn severity_style(self, severity: Severity) -> Style {
        match severity {
            Severity::Info => self.info,
            Severity::Warning => self.warning,
            Severity::Error => self.error,
        }
    }

    /// The stylesheet whose every role is plain.
    pub open spec fn spec_monochrome() -> Stylesheet {
        Stylesheet {
            info: Style::spec_plain(),
            warning: Style::spec_plain(),
            error: Style::spec_plain(),
            linenr: Style::spec_plain(),
            filename: Style::spec_plain(),
            content: Style::spec_plain(),
        }
    }

    /// A stylesheet without any colors set.
    #[verifier::when_used_as_spec(spec_monochrome)]
    pub fn monochrome() -> (r: Self)
        ensures
            r == Stylesheet::spec_monochrome(),
    {
        Stylesheet {
            info: Style::plain(),
            warning: Style::plain(),
            error: Style::plain(),
            linenr: Style::plain(),
            filename: Style::plain(),
            content: Style::plain(),
        }
    }

    /// The default colored stylesheet: bold severities, yellow warnings, red
    /// errors, blue line numbers, a bold file name and plain content.
    pub fn colored() -> (r: Self)
        ensures
            r == (Stylesheet {
                info: Style { fg: None, bold: true },
                warning: Style { fg: Some(Color::Yellow), bold: true },
                error: Style { fg: Some(Color::Red), bold: true },
                linenr: Style { fg: Some(Color::Blue), bold: true },
                filename: Style { fg: None, bold: true },
                content: Style { fg: None, bold: false },
            }),
    {
        let info = Style { fg: None, bold: true };
        let warning = Style { fg: Some(Color::Yellow), bold: true };
        let error = Style { fg: Some(Color::Red), bold: true };
        let linenr = Style { fg: Some(Color::Blue), bold: true };
        let filename = Style { fg: None, bold: true };
        let content = Style::plain();
        Self { info, warning, error, linenr, filename, content }
    }

    /// Get the style of a message by its [`Severity`].
    pub fn by_severity(&self, severity: &Severity) -> (r: &Style)
        ensures
            *r == self.severity_style(*severity),
    {
        match severity {
            Severity::Info => &self.info,
            Severity::Warning => &self.warning,
            Severity::Error => &self.error,
        }
    }
}

impl Default for Stylesheet {
    fn default() -> (r: Self)
        ensures
            r == Stylesheet::spec_monochrome(),
    {
        Stylesheet::monochrome()
    }
}

} // verus!

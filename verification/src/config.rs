//! What the renderer is configured with.
//!
//! Lengths are whole output units (see [`crate::units`]); the tolerance of
//! the optimizer is in millionths of a user unit.

use vstd::prelude::*;
use vstd::string::StringExecFns;
use crate::region::Tolerances;
use crate::units::{COORD_LIMIT, UNITS_PER_BP};

verus! {

/// Templates that wrap a fragment before it is typeset.
#[derive(Debug, PartialEq, Eq)]
pub struct TemplateConfig {
    /// The text that stands for the fragment in every template below.
    pub placeholder: String,
    /// Template for inline maths.
    pub inline_math: String,
    pub inline_math_inner: String,
    pub strong: String,
    pub emph: String,
    pub quote: String,
    pub header: Vec<String>,
    /// Template for display maths.
    pub display_math: String,
}

/// Configuration of the path optimizer.
#[derive(Clone, Copy, Debug, PartialEq, Eq, Structural)]
pub struct OptimizerConfig {
    /// Whether rendered pages are optimized at all.
    pub enabled: bool,
    /// How far two coordinates may lie apart and still count as the same.
    pub eps: i64,
}

/// The configuration of one render.
#[derive(Debug, PartialEq, Eq)]
pub struct Config {
    pub preamble: String,
    pub postamble: String,
    /// The typesetting program.
    pub latex: String,
    /// The program that renders typeset pages as vector graphics.
    pub dvisvgm: String,
    /// What the typesetter produces: `pdf`, `dvi` or `xdv`.
    pub mode: String,
    /// How far a drawing node may lie outside the typeset vertical range of
    /// a fragment and still count as part of it.
    pub y_range_tol: i64,
    /// Blank space left and right of a fragment.
    pub x_range_margin: i64,
    /// Blank space above and below a display fragment.
    pub y_range_margin: i64,
    /// How far inline fragments are raised above where they would sit.
    pub baseline_rise: i64,
    pub lzma_js_path: String,
    pub script_extra_attributes: String,
    pub extra_style_inline: String,
    pub extra_style_display: String,
    pub template: TemplateConfig,
    pub optimizer: OptimizerConfig,
    /// Where intermediate files are kept; a temporary folder if `None`.
    pub output_folder: Option<String>,
}

/// What is wrong with a configuration.
#[derive(Clone, Copy, Debug, PartialEq, Eq, Structural)]
pub enum ConfigurationError {
    /// The mode is none of `pdf`, `dvi` and `xdv`.
    UnknownMode,
    /// The optimizer is switched on in a mode other than `pdf`.
    OptimizerNeedsPdf,
    /// The intersection tolerance is negative or beyond the coordinate
    /// domain.
    InvalidTolerance,
    /// A margin is negative or beyond the coordinate domain.
    InvalidMargin,
    /// The tolerance of the optimizer is negative or beyond the coordinate
    /// domain.
    InvalidEps,
}

/// A length that is not negative and lies in the coordinate domain.
pub open spec fn is_length(v: i64) -> bool {
    0 <= v <= COORD_LIMIT
}

impl Config {
    /// The mode is one of the three known ones.
    pub open spec fn mode_known(&self) -> bool {
        self.mode@ == "pdf"@ || self.mode@ == "dvi"@ || self.mode@ == "xdv"@
    }

    /// What [`Config::sanity_check`] finds wrong first, if anything.
    pub open spec fn first_fault(&self) -> Option<ConfigurationError> {
        if !self.mode_known() {
            Some(ConfigurationError::UnknownMode)
        } else if self.mode@ != "pdf"@ && self.optimizer.enabled {
            Some(ConfigurationError::OptimizerNeedsPdf)
        } else if !is_length(self.y_range_tol) {
            Some(ConfigurationError::InvalidTolerance)
        } else if !is_length(self.x_range_margin) || !is_length(self.y_range_margin) {
            Some(ConfigurationError::InvalidMargin)
        } else if !is_length(self.optimizer.eps) {
            Some(ConfigurationError::InvalidEps)
        } else {
            None
        }
    }

    /// The configuration can be rendered with.
    pub open spec fn wf(&self) -> bool {
        self.first_fault() is None
    }

    /// Checks the configuration before anything is rendered.
    pub fn sanity_check(&self) -> (result: Result<(), ConfigurationError>)
        ensures
            match result {
                Ok(()) => self.first_fault() is None,
                Err(e) => self.first_fault() == Some(e),
            },
    {
        let pdf = String::from_str("pdf");
        let dvi = String::from_str("dvi");
        let xdv = String::from_str("xdv");
        let is_pdf = self.mode == pdf;
        if !is_pdf && !(self.mode == dvi) && !(self.mode == xdv) {
            return Err(ConfigurationError::UnknownMode);
        }
        if !is_pdf && self.optimizer.enabled {
            return Err(ConfigurationError::OptimizerNeedsPdf);
        }
        if self.y_range_tol < 0 || self.y_range_tol > COORD_LIMIT {
            return Err(ConfigurationError::InvalidTolerance);
        }
        if self.x_range_margin < 0 || self.x_range_margin > COORD_LIMIT || self.y_range_margin < 0
            || self.y_range_margin > COORD_LIMIT {
            return Err(ConfigurationError::InvalidMargin);
        }
        if self.optimizer.eps < 0 || self.optimizer.eps > COORD_LIMIT {
            return Err(ConfigurationError::InvalidEps);
        }
        Ok(())
    }

    /// The tolerance and the margins that the region resolver works with.
    pub fn tolerances(&self) -> (tol: Tolerances)
        ensures
            tol.y_range_tol == self.y_range_tol,
            tol.x_range_margin == self.x_range_margin,
            tol.y_range_margin == self.y_range_margin,
            self.wf() ==> tol.wf(),
    {
        Tolerances {
            y_range_tol: self.y_range_tol,
            x_range_margin: self.x_range_margin,
            y_range_margin: self.y_range_margin,
        }
    }
}

/// The template of a header of the size `points`, given in points as
/// text.
pub open spec fn header_template_spec(points: Seq<char>) -> Seq<char> {
    "\\text{\\fontsize{"@ + points + "pt}{0}\\selectfont${{fragment}}$}"@
}

/// The template of a header of the size `points`.
fn header_template(points: &str) -> (template: String)
    ensures
        template@ == header_template_spec(points@),
{
    let mut template = String::from_str("\\text{\\fontsize{");
    template.append(points);
    template.append("pt}{0}\\selectfont${{fragment}}$}");
    assert(template@ =~= header_template_spec(points@));
    template
}

impl Default for TemplateConfig {
    /// The templates that are used where the configuration names none: the
    /// fragment as it is, but for inline and display maths, which are put
    /// between the marks of the typesetter, and for headers of six sizes.
    fn default() -> (template: TemplateConfig)
        ensures
            template.placeholder@ == "{{fragment}}"@,
            template.inline_math@ == "\\({{fragment}}\\)"@,
            template.inline_math_inner@ == "{{fragment}}"@,
            template.strong@ == "{{fragment}}"@,
            template.emph@ == "{{fragment}}"@,
            template.quote@ == "{{fragment}}"@,
            template.display_math@ == "\\[\n    {{fragment}}\n\\]"@,
            template.header@.len() == 6,
            template.header@[0]@ == header_template_spec("24"@),
            template.header@[1]@ == header_template_spec("18"@),
            template.header@[2]@ == header_template_spec("14.04"@),
            template.header@[3]@ == header_template_spec("12"@),
            template.header@[4]@ == header_template_spec("9.96"@),
            template.header@[5]@ == header_template_spec("8.04"@),
    {
        let mut header: Vec<String> = Vec::new();
        header.push(header_template("24"));
        header.push(header_template("18"));
        header.push(header_template("14.04"));
        header.push(header_template("12"));
        header.push(header_template("9.96"));
        header.push(header_template("8.04"));
        TemplateConfig {
            placeholder: String::from_str("{{fragment}}"),
            inline_math: String::from_str("\\({{fragment}}\\)"),
            inline_math_inner: String::from_str("{{fragment}}"),
            strong: String::from_str("{{fragment}}"),
            emph: String::from_str("{{fragment}}"),
            quote: String::from_str("{{fragment}}"),
            header,
            display_math: String::from_str("\\[\n    {{fragment}}\n\\]"),
        }
    }
}

impl Default for Config {
    /// The configuration that is used where nothing else is said: a page
    /// without margins that is as long as a document, typeset to `pdf`; no
    /// tolerance, a margin of one point around every fragment, no rise; the
    /// optimizer switched off, with a tolerance of a thousandth.
    fn default() -> (config: Config)
        ensures
            config.wf(),
            config.mode@ == "pdf"@,
            config.latex@ == "pdflatex"@,
            config.dvisvgm@ == "dvisvgm"@,
            config.postamble@ == "\\end{document}"@,
            config.y_range_tol == 0,
            config.x_range_margin == UNITS_PER_BP,
            config.y_range_margin == UNITS_PER_BP,
            config.baseline_rise == 0,
            !config.optimizer.enabled,
            config.optimizer.eps == 1000,
            config.output_folder is None,
            config.template.placeholder@ == "{{fragment}}"@,
    {
        Config {
            preamble: String::from_str(
                "\\documentclass[12pt, fleqn]{article}\n\\usepackage[top=0cm, bottom=0cm, left=0cm, right=0cm, paperheight=16000pt]{geometry}\n\\usepackage{amsmath, amssymb, amsthm, bm}\n\\setlength{\\parindent}{0pt}\n\\begin{document}",
            ),
            postamble: String::from_str("\\end{document}"),
            latex: String::from_str("pdflatex"),
            dvisvgm: String::from_str("dvisvgm"),
            mode: String::from_str("pdf"),
            y_range_tol: 0,
            x_range_margin: UNITS_PER_BP,
            y_range_margin: UNITS_PER_BP,
            baseline_rise: 0,
            lzma_js_path: String::from_str("https://cdn.jsdelivr.net/npm/lzma@2/src/lzma-d-min.js"),
            script_extra_attributes: String::new(),
            extra_style_inline: String::new(),
            extra_style_display: String::new(),
            template: TemplateConfig::default(),
            optimizer: OptimizerConfig { enabled: false, eps: 1000 },
            output_folder: None,
        }
    }
}

impl ConfigurationError {
    /// What is wrong, in words.
    pub open spec fn message_spec(self) -> Seq<char> {
        match self {
            ConfigurationError::UnknownMode => "unknown mode: must be one of 'pdf', 'dvi', or 'xdv'"@,
            ConfigurationError::OptimizerNeedsPdf => "DVI/XDV mode is incompatible with JustLaTeX's SVG optimizer"@,
            ConfigurationError::InvalidTolerance => "y_range_tol must not be negative, nor beyond what can be computed with"@,
            ConfigurationError::InvalidMargin => "margins must not be negative, nor beyond what can be computed with"@,
            ConfigurationError::InvalidEps => "optimizer.eps must not be negative, nor beyond what can be computed with"@,
        }
    }

    /// What is wrong, in words.
    pub fn message(&self) -> (text: String)
        ensures
            text@ == self.message_spec(),
    {
        match self {
            ConfigurationError::UnknownMode => String::from_str(
                "unknown mode: must be one of 'pdf', 'dvi', or 'xdv'",
            ),
            ConfigurationError::OptimizerNeedsPdf => String::from_str(
                "DVI/XDV mode is incompatible with JustLaTeX's SVG optimizer",
            ),
            ConfigurationError::InvalidTolerance => String::from_str(
                "y_range_tol must not be negative, nor beyond what can be computed with",
            ),
            ConfigurationError::InvalidMargin => String::from_str(
                "margins must not be negative, nor beyond what can be computed with",
            ),
            ConfigurationError::InvalidEps => String::from_str(
                "optimizer.eps must not be negative, nor beyond what can be computed with",
            ),
        }
    }
}

} // verus!

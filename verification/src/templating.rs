//! Templating engines and the abstractions shared between them.

pub mod laws;
pub mod model;
pub mod mustache;
pub mod tmplpp;

pub use self::mustache::Mustache;
pub use self::tmplpp::Tmplpp;

use crate::blueprint::Values;
use crate::templating::tmplpp::TemplateParseError;
use vstd::prelude::*;

verus! {

/// Renders a mustache template against `values`; a convenience front door
/// to the mustache engine.  As with `Mustache::render_template`, the
/// engine's behaviour is outside this crate's model, so no contract relates
/// the result to the inputs.
pub fn render_template(template: &str, values: &Values) -> Result<String, RenderError> {
    match crate::templating::mustache::mustache_render(template, values.map()) {
        Some(s) => Ok(s),
        None => Err(RenderError::new("mustache rendering failed".to_owned())),
    }
}

/// An error produced when a template cannot be rendered, either because its
/// source does not parse or because the engine rejected it.  When the cause
/// is a rejected `tmplpp` source, the parse failure — position, line and
/// reason — is carried along.
#[derive(Debug)]
pub struct RenderError {
    msg: String,
    parse_error: Option<TemplateParseError>,
}

impl View for RenderError {
    type V = Seq<char>;

    closed spec fn view(&self) -> Seq<char> {
        self.msg@
    }
}

impl RenderError {
    /// The parse failure behind this error, if that is what it reports.
    pub closed spec fn spec_parse_error(&self) -> Option<TemplateParseError> {
        self.parse_error
    }

    pub fn new(msg: String) -> (r: RenderError)
        ensures
            r@ == msg@,
            r.spec_parse_error() is None,
    {
        RenderError { msg, parse_error: None }
    }

    /// An error reporting a rejected template source.
    pub fn from_parse(msg: String, e: TemplateParseError) -> (r: RenderError)
        ensures
            r@ == msg@,
            r.spec_parse_error() == Some(e),
    {
        RenderError { msg, parse_error: Some(e) }
    }

    /// A human-readable description of the failure.
    pub fn message(&self) -> (r: &str)
        ensures
            r@ == self@,
    {
        self.msg.as_str()
    }

    /// The parse failure behind this error, when there is one.
    pub fn parse_error(&self) -> (r: Option<TemplateParseError>)
        ensures
            r == self.spec_parse_error(),
    {
        self.parse_error
    }
}

/// The interface every templating engine of this crate offers: render a raw
/// template source against a set of values.
pub trait TemplatingEngine {
    fn render_template(&self, template: &str, values: crate::blueprint::Values) -> Result<
        String,
        RenderError,
    >;
}

} // verus!

//! [{{ mustache }}](https://mustache.github.io/) is a simple, logic-less
//! templating engine, offered beside `tmplpp` for plain rendering without
//! editable regions.  The rendering itself is done by the `mustache` crate,
//! and nothing is promised of its result: besides the template text and the
//! values, the engine's output can depend on the filesystem, because a
//! `{{> name}}` partial makes compilation read `name.mustache` from the
//! process's working directory.

use vstd::prelude::*;

use crate::blueprint::Values;
use crate::templating::RenderError;

verus! {

/// Relies on `mustache::compile_str` and
/// `mustache::Template::render_to_string`: compiles the template and
/// renders it against the pairs as a string-to-string map, returning the
/// rendered text or nothing when the engine rejects the template.  No
/// contract ties the result to the arguments: compiling a template that
/// holds a `{{> name}}` partial reads `name.mustache` from the current
/// directory, so the outcome can differ between processes and directories.
#[verifier::external_body]
pub(crate) fn mustache_render(template: &str, pairs: &Vec<(String, String)>) -> Option<String> {
    let data: std::collections::HashMap<String, String> = pairs.iter().cloned().collect();
    match mustache::compile_str(template) {
        Ok(t) => t.render_to_string(&data).ok(),
        Err(_) => None,
    }
}

/// The mustache templating engine.
#[derive(Debug)]
pub struct Mustache {}

impl Mustache {
    pub fn new() -> (r: Mustache) {
        Mustache {  }
    }

    /// Renders a mustache template against `values`, returning whatever the
    /// engine produces, or an error when it rejects the template.  The
    /// engine's behaviour is outside this crate's model — a `{{> name}}`
    /// partial even makes it read from the filesystem — so no contract
    /// relates the result to the inputs.
    pub fn render_template(&self, template: &str, values: Values) -> Result<String, RenderError> {
        match mustache_render(template, values.map()) {
            Some(s) => Ok(s),
            None => Err(RenderError::new("mustache rendering failed".to_owned())),
        }
    }
}

impl crate::templating::TemplatingEngine for Mustache {
    fn render_template(&self, template: &str, values: Values) -> Result<String, RenderError> {
        Mustache::render_template(self, template, values)
    }
}

} // verus!

//! A project-scaffolding library built around the `tmplpp` template
//! micro-language: templates mix fixed scaffold text, variable references
//! and named user-editable regions.  The library parses template source,
//! renders it against a set of values, validates that a generated file still
//! matches its originating template, and upgrades a generated file to a new
//! template version while carrying the user's edits forward.

pub mod blueprint;
pub mod templating;

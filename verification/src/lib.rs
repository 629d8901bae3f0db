//! A document-layout engine in the Wadler/Hughes pretty-printing style.
//!
//! A caller builds a [`Doc`] tree describing structured text with optional
//! line-wrap points, then renders it at a target width.  The engine keeps
//! content on one line wherever it fits and otherwise falls back to indented
//! line breaks, deciding group by group.  Rendering streams its output to a
//! [`Render`] sink; the mathematical value of that output is given by the
//! spec functions in [`model`].

mod doc;
mod laws;
mod model;
mod sink;

pub use doc::{Doc, Mode, Pretty};
pub use laws::{
    balanced, flat_text, has_newline, lemma_annotations_balanced, lemma_deterministic, lemma_hard_break_breaks, lemma_nest_compose,
    lemma_flat_no_break, lemma_nest_compose_at, lemma_no_breaks_rendered,
    lemma_stack_flat_text_push, newline_free, no_breaks, stack_flat_text,
};
pub use sink::{BufWrite, Render, RenderAnnotated, SinkEvent};
pub use model::{
    best_events, blanks, doc_events, doc_size, drain, drain_count, fits, flat_suffix_start,
    line_text, refit, rendered, resume, stack_size, texts, Ev,
};

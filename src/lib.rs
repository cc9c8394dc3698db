//! A streaming re-indenter for nu source text and data.
//!
//! Layout (newlines and indentation) is regenerated around brackets,
//! braces, separators and key/value colons, while string literals and
//! line comments pass through byte for byte.

mod engine;
mod indentation;
mod laws;
mod text;

pub use engine::{
    closed_level, formatted, initial_state, is_closer, is_layout_space, is_opener, line_break,
    format_nu_buffered, next_state, owed_break, run, step_out, FormatState, Mode, Pending,
};
pub use indentation::{indent_buffered, repeat_unit, Indentation};
pub use laws::{
    bracket_depth, echo_of, is_blank_unit, is_string_body, lemma_break_depth, lemma_comment_line,
    lemma_format_idempotent, lemma_run_blank, lemma_run_concat, lemma_run_idempotent,
    lemma_run_one, lemma_step_fixpoint, lemma_string_span, pending_escape, writes_break,
};
pub use text::{format_nu, formatted_text, lemma_format_text_idempotent, lemma_formatted_valid};

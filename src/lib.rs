//! Resolution of the message of the day: which primary file is shown, and
//! which named snippets follow it, in which order.
//!
//! The filesystem is not touched here. Callers probe each candidate path and
//! hand the outcome in as a [`Probe`]; the library decides what is shown.

mod args;
mod names;
mod primary;
mod snippets;

pub use args::{
    configured, default_dirs, default_files, first_eq, lemma_ignored_token, parse_args, texts,
    token_key, token_value, values_for, DIR_KEY, FILE_KEY,
};
pub use names::{
    compare_names, lemma_name_lt_irreflexive, lemma_name_lt_total, lemma_name_lt_transitive,
    name_lt, name_lt_from,
};
pub use primary::{
    file_step, is_mask_target, lemma_first_opened_selected, lemma_mask_vetoes, locate_file,
    primary, FileStep, Probe, MASK_TARGET,
};
pub use snippets::{
    last_decisive, leading, lemma_entry_decides, lemma_highest_priority_wins,
    lemma_no_entry_undecided, lemma_order_by_names, lemma_undecided_absent, locate_snippets,
    lookup, merged, names_sorted, output_order, overlaid, prevailing, Entry, Snippet, SnippetMap,
};

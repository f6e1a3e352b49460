//! Per-author line attribution for a version-controlled source tree.
//!
//! The library holds the logic of the tool: deciding which tracked files
//! to process (extension filtering), parsing line-level blame output into
//! attribution events, accumulating a per-author tally, and turning the
//! tally into a sorted, formatted report.  Subprocess invocation and
//! printing live outside the library.

mod ext;
mod parse;
mod render;
mod report;
mod tally;

pub use render::dec_digits;
pub use render::digit_char;
pub use render::format_count;
pub use render::grouped;
pub use render::render_entry_line;
pub use render::render_report;
pub use render::spec_entry_line;
pub use render::to_decimal;

pub use report::Report;
pub use report::ReportEntry;
pub use report::build_report;
pub use report::entry_wf;
pub use report::lemma_round_trip;
pub use report::lemma_sum_from_counts;
pub use report::report_counts;
pub use report::report_distinct;
pub use report::report_sum;
pub use report::sorted_desc;
pub use report::tenths_percent;
pub use report::whole_percent;

pub use parse::author_of_line_fn;
pub use parse::authors_in;
pub use parse::is_author_line_fn;
pub use parse::lemma_one_event_per_line;
pub use parse::run_counts;
pub use parse::first_nl;
pub use parse::has_author_prefix;
pub use parse::line_author;
pub use parse::line_author_fn;
pub use parse::parse_blame_output;
pub use parse::spec_lines;
pub use parse::strip_cr;

pub use ext::extension_of;
pub use ext::ext_after_last_dot;
pub use ext::file_name_of;
pub use ext::lower_code;
pub use ext::matches_extension;
pub use ext::seq_eqi;
pub use ext::spec_ext_of;
pub use ext::spec_matches;
pub use ext::str_eqi;
pub use tally::AuthorCount;
pub use tally::Tally;
pub use tally::bump;
pub use tally::bump_all;
pub use tally::counts_of;
pub use tally::distinct_authors;
pub use tally::sum_lines;

//! A word-frequency library: tokenize a text into whitespace-delimited
//! words, tally how often each word occurs, and rank or query the tally.

pub mod counter;
pub mod ranker;
pub mod report;
pub mod tokenize;

pub use counter::get_search_count;
pub use counter::get_word_count;
pub use counter::FrequencyMap;
pub use ranker::get_max_word;
pub use ranker::get_search_word;
pub use ranker::sort_hashmap;
pub use ranker::top_n;
pub use report::build_report;
pub use report::Opt;
pub use report::Report;
pub use tokenize::is_whitespace_char;

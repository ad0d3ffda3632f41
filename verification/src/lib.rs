//! A verified core for a word-count utility: counting lines, words and
//! characters in text, tallying word frequencies, and selecting the most
//! frequent words.

pub mod freq;
pub mod modes;
pub mod text;

pub use freq::accumulate;
pub use freq::calculate_frequency;
pub use freq::calculate_top_words;
pub use freq::calculate_top_words_mut;
pub use freq::process_content;
pub use freq::FrequencyMap;
pub use freq::TOP_WORDS_LIMIT;
pub use modes::resolve_modes;
pub use modes::CountModes;
pub use text::count_characters_in_content;
pub use text::count_lines_in_content;
pub use text::count_words_in_content;
pub use text::tokenize;

//! A character-stream tokenizer that splits text into separator-delimited
//! words, and a sentence splitter that regroups those words into sentences
//! by terminator and quotation rules.

mod splitter;
mod text;
mod tokenizer;

pub use splitter::{
    ends_with_any, first_opener, gather, join, lemma_quote_closes_on_its_delimiter,
    lemma_trailing_stops_go_on, next_sentence, quote_after, stops, trailing_stops,
    SentenceSplitter,
};
pub use text::{is_prefix, is_suffix};
pub use tokenizer::{
    content_of, fault_free, is_token, lemma_end_is_final, lemma_tokens_are_tokens,
    lemma_tokens_keep_content, next_token, scan, token_view, tokens_of, CharRead, ReadError,
    Tokenizer,
};

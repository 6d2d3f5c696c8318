use token::{ReadError, SentenceSplitter, Tokenizer};

fn ws() -> Vec<char> {
    vec![' ', '\n', '\t', '\r']
}

fn all_tokens(t: &mut Tokenizer) -> Vec<String> {
    let mut out = Vec::new();
    while let Some(s) = t.next().unwrap() {
        out.push(s);
    }
    out
}

fn all_sentences(s: &mut SentenceSplitter) -> Vec<String> {
    let mut out = Vec::new();
    while let Some(x) = s.next().unwrap() {
        out.push(x);
    }
    out
}

fn splitter(text: &str, quotes: Vec<&str>) -> SentenceSplitter {
    SentenceSplitter::new(Tokenizer::from_str(text, ws()), vec![".", "!", "?"], quotes)
}

#[test]
fn hello_world_tokens() {
    let mut t = Tokenizer::from_str("Hello world", vec![' ']);
    assert_eq!(Some("Hello"), t.next().unwrap().as_deref());
    assert_eq!(Some("world"), t.next().unwrap().as_deref());
    assert_eq!(None, t.next().unwrap());
}

#[test]
fn tokens_skip_runs_of_separators() {
    let source = "    Hello world \n  How do you do\t-Finely I hope";
    let mut t = Tokenizer::from_str(source, ws());
    assert_eq!(
        all_tokens(&mut t),
        vec!["Hello", "world", "How", "do", "you", "do", "-Finely", "I", "hope"]
    );
}

#[test]
fn one_plain_sentence() {
    let mut s = splitter("I walked down the road.", vec![]);
    assert_eq!(Some("I walked down the road."), s.next().unwrap().as_deref());
    assert_eq!(None, s.next().unwrap());
}

#[test]
fn quoted_opening_runs_to_the_end() {
    let text = "\"What did he say\", she asked me.";
    let mut s = splitter(text, vec!["\""]);
    assert_eq!(Some(text), s.next().unwrap().as_deref());
    assert_eq!(None, s.next().unwrap());
}

#[test]
fn ellipsis_does_not_split() {
    let mut s = splitter("Wait... what?", vec![]);
    assert_eq!(Some("Wait... what?"), s.next().unwrap().as_deref());
    assert_eq!(None, s.next().unwrap());
}

#[test]
fn empty_source_ends_at_once() {
    let mut t = Tokenizer::from_str("", ws());
    assert_eq!(None, t.next().unwrap());
    let mut s = splitter("", vec!["\""]);
    assert_eq!(None, s.next().unwrap());
}

#[test]
fn only_separators_give_no_token() {
    let mut t = Tokenizer::from_str(" \n\t\r  ", ws());
    assert_eq!(None, t.next().unwrap());
    let mut s = splitter("   ", vec![]);
    assert_eq!(None, s.next().unwrap());
}

#[test]
fn several_sentences_without_quotes() {
    let text = "I walked down the road.\n\"What did he say\", she asked me.\n\"Nothing\", I replied, and continued walking...\nit wasn't any of my business.\nOr was it?";
    let mut s = splitter(text, vec![]);
    assert_eq!(
        all_sentences(&mut s),
        vec![
            "I walked down the road.",
            "\"What did he say\", she asked me.",
            "\"Nothing\", I replied, and continued walking... it wasn't any of my business.",
            "Or was it?",
        ]
    );
    assert_eq!(None, s.next().unwrap());
}

#[test]
fn tokens_keep_every_other_character() {
    let source = "  a bb\t\tccc\n d.e!  ";
    let seps = ws();
    let mut t = Tokenizer::from_str(source, seps.clone());
    let joined: String = all_tokens(&mut t).concat();
    let content: String = source.chars().filter(|c| !seps.contains(c)).collect();
    assert_eq!(joined, content);
    assert_eq!(joined, "abbcccd.e!");
}

#[test]
fn tokens_are_non_empty_and_separator_free() {
    let source = "x  y,z\n\n\tw ";
    let seps = vec![' ', '\n', '\t', ','];
    let mut t = Tokenizer::from_str(source, seps.clone());
    let tokens = all_tokens(&mut t);
    assert_eq!(tokens, vec!["x", "y", "z", "w"]);
    for tok in &tokens {
        assert!(!tok.is_empty());
        assert!(!tok.chars().any(|c| seps.contains(&c)));
    }
}

#[test]
fn end_of_tokens_repeats() {
    let mut t = Tokenizer::from_str("one", ws());
    assert_eq!(Some("one"), t.next().unwrap().as_deref());
    for _ in 0..3 {
        assert_eq!(None, t.next().unwrap());
    }
    let mut s = splitter("Done.", vec![]);
    assert_eq!(Some("Done."), s.next().unwrap().as_deref());
    for _ in 0..3 {
        assert_eq!(None, s.next().unwrap());
    }
}

#[test]
fn two_stops_never_end_a_sentence() {
    let mut s = splitter("Hmm.. fine. Next..", vec!["\""]);
    assert_eq!(Some("Hmm.. fine."), s.next().unwrap().as_deref());
    assert_eq!(Some("Next.."), s.next().unwrap().as_deref());
    assert_eq!(None, s.next().unwrap());
}

#[test]
fn quote_closes_only_on_its_delimiter() {
    let mut s = splitter("\"Stop. Go!\" he said. Then left.", vec!["\""]);
    assert_eq!(Some("\"Stop. Go!\""), s.next().unwrap().as_deref());
    assert_eq!(Some("he said."), s.next().unwrap().as_deref());
    assert_eq!(Some("Then left."), s.next().unwrap().as_deref());
    assert_eq!(None, s.next().unwrap());
}

#[test]
fn first_matching_delimiter_opens_the_quote() {
    let mut s = splitter("<<Hi. a< b.", vec!["<", "<<"]);
    assert_eq!(Some("<<Hi. a<"), s.next().unwrap().as_deref());
    assert_eq!(Some("b."), s.next().unwrap().as_deref());
    assert_eq!(None, s.next().unwrap());
}

#[test]
fn self_contained_quote_ends_a_sentence() {
    let mut s = splitter("\"Hi\" there.", vec!["\""]);
    assert_eq!(Some("\"Hi\""), s.next().unwrap().as_deref());
    assert_eq!(Some("there."), s.next().unwrap().as_deref());
    assert_eq!(None, s.next().unwrap());
}

#[test]
fn trailing_text_is_a_sentence_without_trailing_space() {
    let mut s = splitter("Hello  world", vec![]);
    assert_eq!(Some("Hello world"), s.next().unwrap().as_deref());
    assert_eq!(None, s.next().unwrap());
}

#[test]
fn each_terminator_ends_a_sentence() {
    let mut s = splitter("Yes! No? Maybe. End", vec![]);
    assert_eq!(all_sentences(&mut s), vec!["Yes!", "No?", "Maybe.", "End"]);
}

#[test]
fn longer_terminator_strings_match_as_suffixes() {
    let t = Tokenizer::from_str("go on END stop", ws());
    let mut s = SentenceSplitter::new(t, vec!["END"], vec![]);
    assert_eq!(all_sentences(&mut s), vec!["go on END", "stop"]);
}

#[test]
fn no_separators_make_one_token() {
    let mut t = Tokenizer::from_str("a b\tc", vec![]);
    assert_eq!(Some("a b\tc"), t.next().unwrap().as_deref());
    assert_eq!(None, t.next().unwrap());
}

#[test]
fn unicode_characters_are_kept() {
    let mut t = Tokenizer::from_str("안녕 하세요. ünï", ws());
    assert_eq!(all_tokens(&mut t), vec!["안녕", "하세요.", "ünï"]);
}

#[test]
fn read_fault_surfaces_from_tokenizer() {
    let source = vec![Ok('a'), Ok('b'), Err(ReadError::Other), Ok(' '), Ok('c')];
    let mut t = Tokenizer::new(source, vec![' ']);
    assert_eq!(Err(ReadError::Other), t.next());
}

#[test]
fn fault_after_token_comes_on_next_call() {
    let source = vec![Ok('a'), Ok(' '), Err(ReadError::NotUtf8)];
    let mut t = Tokenizer::new(source, vec![' ']);
    assert_eq!(Ok(Some("a".to_string())), t.next());
    assert_eq!(Err(ReadError::NotUtf8), t.next());
}

#[test]
fn read_fault_surfaces_from_splitter() {
    let source = vec![Ok('h'), Ok('i'), Ok(' '), Err(ReadError::NotUtf8), Ok('.')];
    let t = Tokenizer::new(source, ws());
    let mut s = SentenceSplitter::new(t, vec!["."], vec![]);
    assert_eq!(Err(ReadError::NotUtf8), s.next());
}

#[test]
fn reads_without_faults_match_from_str() {
    let text = "ab c. d";
    let reads = text.chars().map(Ok).collect();
    let mut a = Tokenizer::new(reads, ws());
    let mut b = Tokenizer::from_str(text, ws());
    assert_eq!(all_tokens(&mut a), all_tokens(&mut b));
}

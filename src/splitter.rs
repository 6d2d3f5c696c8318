use vstd::prelude::*;

use crate::text::{chars_of, ends_with, is_prefix, is_suffix, starts_with};
use crate::tokenizer::{next_token, token_view, CharRead, ReadError, Tokenizer};

verus! {

/// Two full stops: a token that ends with them trails off and never ends a
/// sentence by itself.
pub open spec fn trailing_stops() -> Seq<char> {
    seq!['.', '.']
}

/// The first quote delimiter, in the given order, that `t` starts with.
pub open spec fn first_opener(t: Seq<char>, quotes: Seq<Seq<char>>) -> Option<Seq<char>>
    decreases quotes.len(),
{
    if quotes.len() == 0 {
        None
    } else if is_prefix(quotes[0], t) {
        Some(quotes[0])
    } else {
        first_opener(t, quotes.drop_first())
    }
}

/// `t` ends with one of the terminators.
pub open spec fn ends_with_any(t: Seq<char>, terms: Seq<Seq<char>>) -> bool {
    exists|i: int| 0 <= i < terms.len() && is_suffix(#[trigger] terms[i], t)
}

/// Does the sentence end after token `t`, with `quote` the quote that is
/// open before it?
/// Inside a quote, only a token that ends with that quote's delimiter ends
/// the sentence. Outside, a token that opens a quote ends the sentence only
/// where it also closes it; any other token ends it when it ends with a
/// terminator and not with two full stops.
pub open spec fn stops(
    t: Seq<char>,
    quote: Option<Seq<char>>,
    terms: Seq<Seq<char>>,
    quotes: Seq<Seq<char>>,
) -> bool {
    match quote {
        Some(q) => is_suffix(q, t),
        None => match first_opener(t, quotes) {
            Some(q) => is_suffix(q, t),
            None => !is_suffix(trailing_stops(), t) && ends_with_any(t, terms),
        },
    }
}

/// The quote that is open after token `t`, where the sentence goes on.
pub open spec fn quote_after(t: Seq<char>, quote: Option<Seq<char>>, quotes: Seq<Seq<char>>) -> Option<Seq<char>> {
    match quote {
        Some(q) => Some(q),
        None => first_opener(t, quotes),
    }
}

/// `acc` with token `t` added, one space between tokens.
pub open spec fn join(acc: Seq<char>, t: Seq<char>) -> Seq<char> {
    if acc.len() == 0 {
        t
    } else {
        acc + seq![' '] + t
    }
}

/// The sentence gathered from `reads` onwards, with `acc` gathered already
/// and `quote` open: the outcome, and the number of reads it used.
/// A token always uses at least one read, so the bound on `n` only keeps
/// the recursion finite.
pub open spec fn gather(
    reads: Seq<CharRead>,
    seps: Seq<char>,
    terms: Seq<Seq<char>>,
    quotes: Seq<Seq<char>>,
    acc: Seq<char>,
    quote: Option<Seq<char>>,
) -> (Result<Option<Seq<char>>, ReadError>, nat)
    decreases reads.len(),
{
    let (r, n) = next_token(reads, seps);
    match r {
        Err(e) => (Err(e), n),
        Ok(None) => (Ok(if acc.len() > 0 { Some(acc) } else { None }), n),
        Ok(Some(t)) => {
            let more = join(acc, t);
            if stops(t, quote, terms, quotes) || !(0 < n <= reads.len()) {
                (Ok(Some(more)), n)
            } else {
                let (r2, n2) = gather(
                    reads.skip(n as int),
                    seps,
                    terms,
                    quotes,
                    more,
                    quote_after(t, quote, quotes),
                );
                (r2, n + n2)
            }
        },
    }
}

/// The next sentence of `reads`: the outcome, and the number of reads used.
pub open spec fn next_sentence(
    reads: Seq<CharRead>,
    seps: Seq<char>,
    terms: Seq<Seq<char>>,
    quotes: Seq<Seq<char>>,
) -> (Result<Option<Seq<char>>, ReadError>, nat) {
    gather(reads, seps, terms, quotes, Seq::empty(), None)
}

/// The delimiter that `t` opens with is one of `quotes`, and a prefix of
/// `t`.
proof fn lemma_first_opener(t: Seq<char>, quotes: Seq<Seq<char>>)
    ensures
        first_opener(t, quotes) matches Some(q) ==> is_prefix(q, t) && exists|i: int|
            0 <= i < quotes.len() && quotes[i] == q,
    decreases quotes.len(),
{
    if quotes.len() > 0 && !is_prefix(quotes[0], t) {
        lemma_first_opener(t, quotes.drop_first());
        if let Some(q) = first_opener(t, quotes) {
            let i = choose|i: int| 0 <= i < quotes.drop_first().len() && quotes.drop_first()[i] == q;
            assert(quotes[i + 1] == q);
        }
    }
}

/// A token that ends with two full stops never ends a sentence, whatever
/// the terminators, even where "." is one of them. This holds wherever no
/// quote delimiter, the open one included, is empty or ends with a full
/// stop.
pub proof fn lemma_trailing_stops_go_on(
    t: Seq<char>,
    quote: Option<Seq<char>>,
    terms: Seq<Seq<char>>,
    quotes: Seq<Seq<char>>,
)
    requires
        is_suffix(trailing_stops(), t),
        forall|i: int| 0 <= i < quotes.len() ==> (#[trigger] quotes[i]).len() > 0 && quotes[i].last() != '.',
        quote matches Some(q) ==> q.len() > 0 && q.last() != '.',
    ensures
        !stops(t, quote, terms, quotes),
{
    assert(t.last() == '.') by {
        assert(t.subrange(t.len() - 2, t.len() as int)[1] == t.last());
    }
    lemma_first_opener(t, quotes);
    let q = match quote {
        Some(q) => q,
        None => match first_opener(t, quotes) {
            Some(q) => q,
            None => seq!['.'],
        },
    };
    if quote is Some || first_opener(t, quotes) is Some {
        if is_suffix(q, t) {
            assert(t.subrange(t.len() - q.len(), t.len() as int)[q.len() - 1] == t.last());
        }
    }
}

/// A quote stays open through every token that does not end with its own
/// delimiter, a token that ends with a terminator included, and a token
/// that ends with it closes the quote and ends the sentence. A quote opens
/// at a token that starts with a delimiter and does not also end with it.
pub proof fn lemma_quote_closes_on_its_delimiter(
    t: Seq<char>,
    q: Seq<char>,
    terms: Seq<Seq<char>>,
    quotes: Seq<Seq<char>>,
)
    ensures
        stops(t, Some(q), terms, quotes) <==> is_suffix(q, t),
        !is_suffix(q, t) ==> quote_after(t, Some(q), quotes) == Some(q),
        first_opener(t, quotes) == Some(q) && !is_suffix(q, t) ==> !stops(t, None, terms, quotes)
            && quote_after(t, None, quotes) == Some(q),
{
}

/// The characters of each string.
fn char_lists(v: &Vec<&str>) -> (r: Vec<Vec<char>>)
    ensures
        r@.map_values(|x: Vec<char>| x@) == v@.map_values(|s: &str| s@),
{
    let mut r: Vec<Vec<char>> = Vec::new();
    let mut i: usize = 0;
    while i < v.len()
        invariant
            i <= v.len(),
            r.len() == i,
            forall|k: int| 0 <= k < i ==> (#[trigger] r@[k])@ == v@[k]@,
        decreases v.len() - i,
    {
        let cs = chars_of(v[i]);
        r.push(cs);
        i = i + 1;
    }
    assert(r@.map_values(|x: Vec<char>| x@) =~= v@.map_values(|s: &str| s@));
    r
}

/// Appends the characters of `t` to `s`.
fn push_chars(s: &mut String, t: &Vec<char>)
    ensures
        final(s)@ == old(s)@ + t@,
{
    let ghost start = s@;
    let mut i: usize = 0;
    while i < t.len()
        invariant
            i <= t.len(),
            s@ == start + t@.subrange(0, i as int),
        decreases t.len() - i,
    {
        s.push(t[i]);
        i = i + 1;
        assert(s@ =~= start + t@.subrange(0, i as int));
    }
    assert(t@.subrange(0, t.len() as int) =~= t@);
}

/// The index of the first delimiter in `quotes` that `t` starts with.
fn opener_index(quotes: &Vec<Vec<char>>, t: &Vec<char>) -> (r: Option<usize>)
    ensures
        match r {
            Some(i) => i < quotes.len() && first_opener(t@, quotes@.map_values(|x: Vec<char>| x@))
                == Some(quotes@[i as int]@),
            None => first_opener(t@, quotes@.map_values(|x: Vec<char>| x@)) is None,
        },
{
    let ghost all = quotes@.map_values(|x: Vec<char>| x@);
    let mut i: usize = 0;
    assert(all.skip(0) =~= all);
    while i < quotes.len()
        invariant
            i <= quotes.len(),
            all == quotes@.map_values(|x: Vec<char>| x@),
            first_opener(t@, all) == first_opener(t@, all.skip(i as int)),
        decreases quotes.len() - i,
    {
        assert(all.skip(i as int)[0] == quotes@[i as int]@);
        if starts_with(t, &quotes[i]) {
            return Some(i);
        }
        assert(all.skip(i as int).drop_first() =~= all.skip(i + 1));
        i = i + 1;
    }
    None
}

/// Does `t` end with one of `terms`?
fn ends_with_one_of(terms: &Vec<Vec<char>>, t: &Vec<char>) -> (r: bool)
    ensures
        r == ends_with_any(t@, terms@.map_values(|x: Vec<char>| x@)),
{
    let ghost all = terms@.map_values(|x: Vec<char>| x@);
    let mut i: usize = 0;
    while i < terms.len()
        invariant
            i <= terms.len(),
            all == terms@.map_values(|x: Vec<char>| x@),
            forall|k: int| 0 <= k < i ==> !is_suffix(#[trigger] all[k], t@),
        decreases terms.len() - i,
    {
        if ends_with(t, &terms[i]) {
            assert(is_suffix(all[i as int], t@));
            return true;
        }
        i = i + 1;
    }
    false
}

/// Splits the tokens of a tokenizer into sentences.
pub struct SentenceSplitter {
    tokenizer: Tokenizer,
    terminators: Vec<Vec<char>>,
    quotes: Vec<Vec<char>>,
}

impl SentenceSplitter {
    /// The reads that the splitter has not used yet.
    pub closed spec fn remaining(&self) -> Seq<CharRead> {
        self.tokenizer.remaining()
    }

    /// The separator characters of the tokenizer.
    pub closed spec fn separators(&self) -> Seq<char> {
        self.tokenizer.separators()
    }

    /// The terminator strings.
    pub closed spec fn terminators(&self) -> Seq<Seq<char>> {
        self.terminators@.map_values(|x: Vec<char>| x@)
    }

    /// The quote delimiter strings.
    pub closed spec fn quotes(&self) -> Seq<Seq<char>> {
        self.quotes@.map_values(|x: Vec<char>| x@)
    }

    /// Creates a sentence splitter over the tokens of `source`, with the
    /// strings that end a sentence and the strings that open and close a
    /// quote.
    pub fn new(source: Tokenizer, terminators: Vec<&str>, quotes: Vec<&str>) -> (s: SentenceSplitter)
        ensures
            s.remaining() == source.remaining(),
            s.separators() == source.separators(),
            s.terminators() == terminators@.map_values(|t: &str| t@),
            s.quotes() == quotes@.map_values(|q: &str| q@),
    {
        SentenceSplitter {
            tokenizer: source,
            terminators: char_lists(&terminators),
            quotes: char_lists(&quotes),
        }
    }
    /// The quote that `quote` stands for: an index into the delimiters.
    pub closed spec fn quote_view(&self, quote: Option<usize>) -> Option<Seq<char>> {
        match quote {
            Some(i) => Some(self.quotes()[i as int]),
            None => None,
        }
    }

    /// Returns the next sentence, or `None` where the source holds no more
    /// tokens, or the fault that the source gave.
    pub fn next(&mut self) -> (r: Result<Option<String>, ReadError>)
        ensures
            final(self).separators() == old(self).separators(),
            final(self).terminators() == old(self).terminators(),
            final(self).quotes() == old(self).quotes(),
            token_view(r) == next_sentence(
                old(self).remaining(),
                old(self).separators(),
                old(self).terminators(),
                old(self).quotes(),
            ).0,
            final(self).remaining() == old(self).remaining().skip(
                next_sentence(
                    old(self).remaining(),
                    old(self).separators(),
                    old(self).terminators(),
                    old(self).quotes(),
                ).1 as int,
            ),
            r matches Ok(Some(s)) ==> s@.len() > 0,
            r matches Ok(None) ==> final(self).remaining().len() == 0,
    {
        let ghost seps = self.separators();
        let ghost terms = self.terminators();
        let ghost quotes = self.quotes();
        let ghost target = next_sentence(self.remaining(), seps, terms, quotes);
        let ghost mut used: nat = 0;
        let mut sentence = String::new();
        let mut started = false;
        let mut quote: Option<usize> = None;
        let dots: Vec<char> = vec!['.', '.'];
        assert(dots@ =~= trailing_stops());
        assert(self.remaining().skip(0) =~= self.remaining());
        loop
            invariant
                seps == old(self).separators(),
                terms == old(self).terminators(),
                quotes == old(self).quotes(),
                self.separators() == seps,
                self.terminators == old(self).terminators,
                self.quotes == old(self).quotes,
                dots@ == trailing_stops(),
                used <= old(self).remaining().len(),
                self.remaining() == old(self).remaining().skip(used as int),
                started == (sentence@.len() > 0),
                quote matches Some(i) ==> i < self.quotes.len(),
                target == next_sentence(old(self).remaining(), seps, terms, quotes),
                gather(self.remaining(), seps, terms, quotes, sentence@, self.quote_view(quote)).0
                    == target.0,
                used + gather(self.remaining(), seps, terms, quotes, sentence@, self.quote_view(quote)).1
                    == target.1,
            decreases self.remaining().len(),
        {
            let ghost before = self.remaining();
            let ghost acc = sentence@;
            let ghost open = self.quote_view(quote);
            let tok = self.tokenizer.next_chars();
            let ghost n = next_token(before, seps).1;
            assert(self.remaining() =~= old(self).remaining().skip((used + n) as int));
            match tok {
                Err(e) => {
                    return Err(e);
                },
                Ok(None) => {
                    if started {
                        return Ok(Some(sentence));
                    } else {
                        return Ok(None);
                    }
                },
                Ok(Some(t)) => {
                    if started {
                        sentence.push(' ');
                    }
                    push_chars(&mut sentence, &t);
                    started = true;
                    assert(sentence@ =~= join(acc, t@));
                    let stop: bool;
                    match quote {
                        Some(qi) => {
                            stop = ends_with(&t, &self.quotes[qi]);
                        },
                        None => {
                            match opener_index(&self.quotes, &t) {
                                Some(qi) => {
                                    stop = ends_with(&t, &self.quotes[qi]);
                                    if !stop {
                                        quote = Some(qi);
                                    }
                                },
                                None => {
                                    stop = !ends_with(&t, &dots) && ends_with_one_of(
                                        &self.terminators,
                                        &t,
                                    );
                                },
                            }
                        },
                    }
                    assert(stop == stops(t@, open, terms, quotes));
                    if stop {
                        return Ok(Some(sentence));
                    }
                    assert(self.quote_view(quote) == quote_after(t@, open, quotes));
                    proof {
                        used = used + n;
                    }
                },
            }
        }
    }
}

} // verus!

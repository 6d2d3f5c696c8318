use vstd::prelude::*;

use crate::text::{chars_of, contains_char, string_of};

verus! {

/// A fault of the underlying character source.
#[derive(Clone, Copy, Debug, PartialEq, Eq, Structural)]
pub enum ReadError {
    /// The source held bytes that are not valid UTF-8.
    NotUtf8,
    /// The source failed for another reason.
    Other,
}

/// What one read of the source gives: a character, or a fault.
pub type CharRead = Result<char, ReadError>;

/// The token scan from `reads` onwards, with `acc` already gathered: the
/// outcome, and the number of reads it used.
pub open spec fn scan(reads: Seq<CharRead>, seps: Seq<char>, acc: Seq<char>) -> (
    Result<Option<Seq<char>>, ReadError>,
    nat,
)
    decreases reads.len(),
{
    if reads.len() == 0 {
        (Ok(if acc.len() > 0 { Some(acc) } else { None }), 0)
    } else {
        match reads[0] {
            Err(e) => (Err(e), 1),
            Ok(c) => if seps.contains(c) && acc.len() > 0 {
                (Ok(Some(acc)), 1)
            } else {
                let more = if seps.contains(c) { acc } else { acc.push(c) };
                let (r, n) = scan(reads.drop_first(), seps, more);
                (r, n + 1)
            },
        }
    }
}

/// The next token of `reads`: leading separators are skipped, the token is
/// the run of non-separator characters after them, and the separator that
/// ends it is used up. A fault ends the scan with that fault.
pub open spec fn next_token(reads: Seq<CharRead>, seps: Seq<char>) -> (
    Result<Option<Seq<char>>, ReadError>,
    nat,
) {
    scan(reads, seps, Seq::empty())
}

/// Every token that a tokenizer yields from `reads`, in order, up to the end
/// of the source or the first fault.
pub open spec fn tokens_of(reads: Seq<CharRead>, seps: Seq<char>) -> Seq<Seq<char>>
    decreases reads.len(),
{
    let (r, n) = next_token(reads, seps);
    match r {
        Ok(Some(t)) => if 0 < n <= reads.len() {
            seq![t] + tokens_of(reads.skip(n as int), seps)
        } else {
            seq![t]
        },
        _ => Seq::empty(),
    }
}

/// The characters of `reads` that are not separators, in order.
pub open spec fn content_of(reads: Seq<CharRead>, seps: Seq<char>) -> Seq<char>
    decreases reads.len(),
{
    if reads.len() == 0 {
        Seq::empty()
    } else {
        let rest = content_of(reads.drop_first(), seps);
        match reads[0] {
            Ok(c) => if seps.contains(c) { rest } else { seq![c] + rest },
            Err(_) => rest,
        }
    }
}

/// No read of `reads` is a fault.
pub open spec fn fault_free(reads: Seq<CharRead>) -> bool {
    forall|i: int| 0 <= i < reads.len() ==> reads[i] is Ok
}

/// `t` is a token over `seps`: not empty, and free of separators.
pub open spec fn is_token(t: Seq<char>, seps: Seq<char>) -> bool {
    t.len() > 0 && forall|i: int| 0 <= i < t.len() ==> !seps.contains(#[trigger] t[i])
}

/// The view of a result of `Tokenizer::next`.
pub open spec fn token_view(r: Result<Option<String>, ReadError>) -> Result<Option<Seq<char>>, ReadError> {
    match r {
        Ok(Some(s)) => Ok(Some(s@)),
        Ok(None) => Ok(None),
        Err(e) => Err(e),
    }
}

/// What a scan gives, and what it uses: at most what is left; at least one
/// read where a token comes with nothing gathered before; all of it where
/// the source ends. A token is gathered onto `acc` and is one.
proof fn lemma_scan(reads: Seq<CharRead>, seps: Seq<char>, acc: Seq<char>)
    requires
        acc.len() == 0 || is_token(acc, seps),
    ensures
        scan(reads, seps, acc).1 <= reads.len(),
        scan(reads, seps, acc).0 is Ok ==> scan(reads, seps, acc).1 > 0 || reads.len() == 0,
        scan(reads, seps, acc).0 == Ok::<Option<Seq<char>>, ReadError>(None) ==> scan(reads, seps, acc).1
            == reads.len() && acc.len() == 0,
        scan(reads, seps, acc).0 matches Ok(Some(t)) ==> is_token(t, seps) && (acc.len() == 0
            ==> scan(reads, seps, acc).1 > 0),
        scan(reads, seps, acc).0 is Err ==> scan(reads, seps, acc).1 > 0,
    decreases reads.len(),
{
    if reads.len() > 0 {
        if let Ok(c) = reads[0] {
            if !(seps.contains(c) && acc.len() > 0) {
                let more = if seps.contains(c) { acc } else { acc.push(c) };
                if !seps.contains(c) {
                    assert forall|i: int| 0 <= i < more.len() implies !seps.contains(#[trigger] more[i]) by {
                        if i < acc.len() {
                            assert(more[i] == acc[i]);
                        }
                    }
                }
                lemma_scan(reads.drop_first(), seps, more);
            }
        }
    }
}

/// The token scan keeps every non-separator character, in order: a token
/// gathered onto `acc`, followed by the content of what the scan leaves, is
/// `acc` followed by the content of `reads`.
proof fn lemma_scan_content(reads: Seq<CharRead>, seps: Seq<char>, acc: Seq<char>)
    requires
        fault_free(reads),
    ensures
        scan(reads, seps, acc).0 is Ok,
        scan(reads, seps, acc).1 <= reads.len(),
        scan(reads, seps, acc).0 matches Ok(Some(t)) ==> t + content_of(
            reads.skip(scan(reads, seps, acc).1 as int),
            seps,
        ) == acc + content_of(reads, seps),
        scan(reads, seps, acc).0 is Ok && scan(reads, seps, acc).0->Ok_0 is None ==> content_of(
            reads,
            seps,
        ) == Seq::<char>::empty(),
    decreases reads.len(),
{
    if reads.len() == 0 {
        assert(acc + Seq::<char>::empty() =~= acc);
        assert(reads.skip(0) =~= reads);
    } else {
        let c = reads[0]->Ok_0;
        assert(reads.drop_first() =~= reads.skip(1));
        if seps.contains(c) && acc.len() > 0 {
            assert(acc + content_of(reads, seps) =~= acc + content_of(reads.skip(1), seps));
        } else {
            let more = if seps.contains(c) { acc } else { acc.push(c) };
            let rest = reads.drop_first();
            assert(fault_free(rest)) by {
                assert forall|i: int| 0 <= i < rest.len() implies rest[i] is Ok by {
                    assert(rest[i] == reads[i + 1]);
                }
            }
            lemma_scan_content(rest, seps, more);
            let n = scan(rest, seps, more).1;
            assert(reads.skip((n + 1) as int) =~= rest.skip(n as int));
            if !seps.contains(c) {
                assert(more + content_of(rest, seps) =~= acc + (seq![c] + content_of(rest, seps)));
            }
        }
    }
}

/// Tokens lose no character and invent none: for a source without faults,
/// the yielded tokens, joined end to end, are exactly the non-separator
/// characters of the source, in order. Only separators are dropped.
pub proof fn lemma_tokens_keep_content(reads: Seq<CharRead>, seps: Seq<char>)
    requires
        fault_free(reads),
    ensures
        tokens_of(reads, seps).flatten() == content_of(reads, seps),
    decreases reads.len(),
{
    lemma_scan(reads, seps, Seq::empty());
    lemma_scan_content(reads, seps, Seq::empty());
    let (r, n) = next_token(reads, seps);
    if let Ok(Some(t)) = r {
        let rest = reads.skip(n as int);
        assert(fault_free(rest)) by {
            assert forall|i: int| 0 <= i < rest.len() implies rest[i] is Ok by {
                assert(rest[i] == reads[i + n]);
            }
        }
        lemma_tokens_keep_content(rest, seps);
        let all = seq![t] + tokens_of(rest, seps);
        assert(all.drop_first() =~= tokens_of(rest, seps));
        assert(Seq::<char>::empty() + content_of(reads, seps) =~= content_of(reads, seps));
    }
}

/// Every token yielded is a token: not empty, and with no separator in it.
pub proof fn lemma_tokens_are_tokens(reads: Seq<CharRead>, seps: Seq<char>)
    ensures
        forall|i: int|
            0 <= i < tokens_of(reads, seps).len() ==> is_token(#[trigger] tokens_of(reads, seps)[i], seps),
    decreases reads.len(),
{
    lemma_scan(reads, seps, Seq::empty());
    let (r, n) = next_token(reads, seps);
    if let Ok(Some(t)) = r {
        let rest = reads.skip(n as int);
        lemma_tokens_are_tokens(rest, seps);
        let all = seq![t] + tokens_of(rest, seps);
        assert forall|i: int| 0 <= i < all.len() implies is_token(#[trigger] all[i], seps) by {
            if i > 0 {
                assert(all[i] == tokens_of(rest, seps)[i - 1]);
            }
        }
    }
}

/// Once the end of the source is signalled, it stays signalled: the
/// tokenizer has used every read, and a further scan of what is left again
/// gives the end, using nothing.
pub proof fn lemma_end_is_final(reads: Seq<CharRead>, seps: Seq<char>)
    requires
        next_token(reads, seps).0 == Ok::<Option<Seq<char>>, ReadError>(None),
    ensures
        reads.skip(next_token(reads, seps).1 as int).len() == 0,
        next_token(reads.skip(next_token(reads, seps).1 as int), seps) == (
            Ok::<Option<Seq<char>>, ReadError>(None),
            0nat,
        ),
{
    lemma_scan(reads, seps, Seq::empty());
    let rest = reads.skip(next_token(reads, seps).1 as int);
    assert(rest.len() == 0);
}

/// A tokenizer: pulls separator-delimited, non-empty tokens from a source
/// of characters.
pub struct Tokenizer {
    source: Vec<CharRead>,
    pos: usize,
    separators: Vec<char>,
}

impl Tokenizer {
    /// The reads that the tokenizer has not used yet.
    pub closed spec fn remaining(&self) -> Seq<CharRead> {
        self.source@.skip(self.pos as int)
    }

    /// The separator characters.
    pub closed spec fn separators(&self) -> Seq<char> {
        self.separators@
    }

    #[verifier::type_invariant]
    closed spec fn wf(&self) -> bool {
        self.pos <= self.source.len()
    }

    /// Creates a tokenizer over the reads of a character source and a set
    /// of separator characters.
    pub fn new(source: Vec<CharRead>, separators: Vec<char>) -> (t: Tokenizer)
        ensures
            t.remaining() == source@,
            t.separators() == separators@,
    {
        let t = Tokenizer { source, pos: 0, separators };
        assert(t.source@.skip(0) =~= t.source@);
        t
    }

    /// Creates a tokenizer over the characters of `s`.
    pub fn from_str(s: &str, separators: Vec<char>) -> (t: Tokenizer)
        ensures
            t.remaining() == s@.map_values(|c: char| Ok::<char, ReadError>(c)),
            t.separators() == separators@,
    {
        let chars = chars_of(s);
        let mut source: Vec<CharRead> = Vec::new();
        let mut i: usize = 0;
        while i < chars.len()
            invariant
                i <= chars.len(),
                chars@ == s@,
                source@ == s@.subrange(0, i as int).map_values(|c: char| Ok::<char, ReadError>(c)),
            decreases chars.len() - i,
        {
            source.push(Ok(chars[i]));
            i = i + 1;
            assert(source@ =~= s@.subrange(0, i as int).map_values(
                |c: char| Ok::<char, ReadError>(c),
            ));
        }
        assert(s@.subrange(0, s@.len() as int) =~= s@);
        Tokenizer::new(source, separators)
    }

    /// The characters of the next token, with what `next` says of them.
    pub(crate) fn next_chars(&mut self) -> (r: Result<Option<Vec<char>>, ReadError>)
        ensures
            final(self).separators() == old(self).separators(),
            match r {
                Ok(Some(v)) => next_token(old(self).remaining(), old(self).separators()).0 == Ok::<
                    Option<Seq<char>>,
                    ReadError,
                >(Some(v@)),
                Ok(None) => next_token(old(self).remaining(), old(self).separators()).0 == Ok::<
                    Option<Seq<char>>,
                    ReadError,
                >(None),
                Err(e) => next_token(old(self).remaining(), old(self).separators()).0 == Err::<
                    Option<Seq<char>>,
                    ReadError,
                >(e),
            },
            final(self).remaining() == old(self).remaining().skip(
                next_token(old(self).remaining(), old(self).separators()).1 as int,
            ),
            next_token(old(self).remaining(), old(self).separators()).1 <= old(self).remaining().len(),
            r matches Ok(Some(v)) ==> is_token(v@, old(self).separators()) && next_token(
                old(self).remaining(),
                old(self).separators(),
            ).1 > 0,
            r matches Ok(None) ==> final(self).remaining().len() == 0,
    {
        proof {
            use_type_invariant(&*self);
            lemma_scan(self.remaining(), self.separators(), Seq::empty());
        }
        let ghost start = self.pos;
        let ghost target = next_token(self.remaining(), self.separators());
        let mut buf: Vec<char> = Vec::new();
        while self.pos < self.source.len()
            invariant
                start <= self.pos,
                self.separators() == old(self).separators(),
                self.source == old(self).source,
                old(self).pos == start,
                target == next_token(old(self).remaining(), old(self).separators()),
                target.0 matches Ok(Some(t)) ==> is_token(t, old(self).separators()) && target.1 > 0,
                scan(self.remaining(), self.separators(), buf@).0 == target.0,
                (self.pos - start) + scan(self.remaining(), self.separators(), buf@).1 == target.1,
            decreases self.source.len() - self.pos,
        {
            let ghost rest = self.remaining();
            assert(rest.drop_first() =~= self.source@.skip(self.pos + 1));
            let cur = self.source[self.pos];
            self.pos = self.pos + 1;
            assert(self.remaining() =~= rest.drop_first());
            match cur {
                Err(e) => {
                    assert(self.remaining() =~= old(self).remaining().skip(target.1 as int));
                    return Err(e);
                },
                Ok(c) => {
                    if contains_char(&self.separators, c) {
                        if buf.len() > 0 {
                                    assert(self.remaining() =~= old(self).remaining().skip(target.1 as int));
                            return Ok(Some(buf));
                        }
                    } else {
                        buf.push(c);
                    }
                },
            }
        }
        assert(self.remaining() =~= old(self).remaining().skip(target.1 as int));
        if buf.len() > 0 {
            Ok(Some(buf))
        } else {
            Ok(None)
        }
    }

    /// Returns the next token, or `None` at the end of the source, or the
    /// fault that the source gave.
    pub fn next(&mut self) -> (r: Result<Option<String>, ReadError>)
        ensures
            final(self).separators() == old(self).separators(),
            token_view(r) == next_token(old(self).remaining(), old(self).separators()).0,
            final(self).remaining() == old(self).remaining().skip(
                next_token(old(self).remaining(), old(self).separators()).1 as int,
            ),
            r matches Ok(Some(t)) ==> is_token(t@, old(self).separators()),
            r matches Ok(None) ==> final(self).remaining().len() == 0,
    {
        proof {
            use_type_invariant(&*self);
        }
        match self.next_chars() {
            Ok(Some(v)) => Ok(Some(string_of(&v))),
            Ok(None) => Ok(None),
            Err(e) => Err(e),
        }
    }
}

} // verus!

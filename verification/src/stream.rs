use vstd::prelude::*;
use vstd::string::*;
use crate::matching::{
    append_bytes, bytes_match_at, ends_with, insert_at_boundaries, insert_before_chars,
    lemma_insert_before_chars_concat, lemma_replace_short, lemma_replace_step, push_before_chars,
    replace_all, replace_nonempty,
};

verus! {

/// The bytes of all chunks, one after the other.
pub open spec fn concat_chunks(chunks: Seq<Vec<u8>>) -> Seq<u8>
    decreases chunks.len(),
{
    if chunks.len() == 0 {
        Seq::empty()
    } else {
        concat_chunks(chunks.drop_last()) + chunks.last()@
    }
}

/// Replaces a pattern in content that arrives chunk by chunk. Bytes that may
/// still begin a match are held back until the next chunk decides them.
pub struct StreamReplacer {
    from: Vec<u8>,
    to: Vec<u8>,
    pending: Vec<u8>,
}

impl StreamReplacer {
    #[verifier::type_invariant]
    spec fn held_back_is_short(self) -> bool {
        if self.from@.len() == 0 {
            self.pending@.len() == 0
        } else {
            self.pending@.len() < self.from@.len()
        }
    }

    /// The bytes searched for.
    pub closed spec fn pattern(self) -> Seq<u8> {
        self.from@
    }

    /// The bytes written in place of each match.
    pub closed spec fn replacement(self) -> Seq<u8> {
        self.to@
    }

    /// The bytes received but not yet given out.
    pub closed spec fn pending(self) -> Seq<u8> {
        self.pending@
    }

    /// A replacer of `from` by `to` that has received nothing yet.
    pub fn new(from: &str, to: &str) -> (r: Self)
        ensures
            r.pattern() == from.spec_bytes(),
            r.replacement() == to.spec_bytes(),
            r.pending() == Seq::<u8>::empty(),
    {
        let mut f: Vec<u8> = Vec::new();
        append_bytes(&mut f, from.as_bytes());
        let mut t: Vec<u8> = Vec::new();
        append_bytes(&mut t, to.as_bytes());
        assert(f@ =~= from.spec_bytes());
        assert(t@ =~= to.spec_bytes());
        StreamReplacer { from: f, to: t, pending: Vec::new() }
    }

    /// Takes the next chunk and gives out the bytes that are now decided.
    /// Whatever follows, what was given out followed by the replacement of
    /// what is held back and what follows is the replacement of everything
    /// received before and after.
    pub fn feed(&mut self, chunk: &[u8]) -> (out: Vec<u8>)
        ensures
            final(self).pattern() == old(self).pattern(),
            final(self).replacement() == old(self).replacement(),
            final(self).pattern().len() > 0 ==> final(self).pending().len() < final(self).pattern().len(),
            final(self).pattern().len() == 0 ==> final(self).pending().len() == 0,
            ends_with(old(self).pending() + chunk@, final(self).pending()),
            forall|rest: Seq<u8>|
                #![trigger replace_all(final(self).pending() + rest, final(self).pattern(), final(self).replacement())]
                #![trigger replace_all(old(self).pending() + chunk@ + rest, old(self).pattern(), old(self).replacement())]
                replace_all(old(self).pending() + chunk@ + rest, old(self).pattern(), old(self).replacement())
                    == out@ + replace_all(final(self).pending() + rest, final(self).pattern(), final(self).replacement()),
    {
        proof {
            use_type_invariant(&*self);
        }
        let mut out: Vec<u8> = Vec::new();
        if self.from.len() == 0 {
            push_before_chars(&mut out, chunk, self.to.as_slice());
            proof {
                assert(self.pending@ =~= Seq::<u8>::empty());
                assert(ends_with(self.pending@ + chunk@, Seq::<u8>::empty())) by {
                    let d = self.pending@ + chunk@;
                    assert(d.skip(d.len() - 0) =~= Seq::<u8>::empty());
                }
                assert forall|rest: Seq<u8>|
                    replace_all(self.pending@ + chunk@ + rest, self.from@, self.to@) == out@
                        + replace_all(self.pending@ + rest, self.from@, self.to@) by {
                    assert(self.pending@ + chunk@ + rest =~= chunk@ + rest);
                    assert(self.pending@ + rest =~= rest);
                    lemma_insert_before_chars_concat(chunk@, rest, self.to@);
                    assert(insert_before_chars(chunk@, self.to@) + insert_before_chars(rest, self.to@)
                        + self.to@ =~= insert_before_chars(chunk@, self.to@) + (insert_before_chars(
                        rest,
                        self.to@,
                    ) + self.to@));
                }
            }
            return out;
        }
        let m = self.from.len();
        let mut data: Vec<u8> = Vec::new();
        append_bytes(&mut data, self.pending.as_slice());
        append_bytes(&mut data, chunk);
        let ghost start = data@;
        let mut i: usize = 0;
        assert(data@.skip(0) =~= data@);
        while i < data.len() && m <= data.len() - i
            invariant
                m == self.from@.len(),
                m > 0,
                data@ == start,
                i <= data.len(),
                forall|rest: Seq<u8>|
                    #![trigger replace_nonempty(data@.skip(i as int) + rest, self.from@, self.to@)]
                    out@ + replace_nonempty(data@.skip(i as int) + rest, self.from@, self.to@)
                        == replace_nonempty(data@ + rest, self.from@, self.to@),
            decreases data.len() - i,
        {
            let ghost cur = data@.skip(i as int);
            let ghost prev = out@;
            proof {
                assert(cur.take(m as int) =~= data@.subrange(i as int, i + m));
            }
            if bytes_match_at(data.as_slice(), i, self.from.as_slice()) {
                append_bytes(&mut out, self.to.as_slice());
                proof {
                    assert forall|rest: Seq<u8>|
                        out@ + replace_nonempty(data@.skip(i + m) + rest, self.from@, self.to@)
                            == replace_nonempty(data@ + rest, self.from@, self.to@) by {
                        lemma_replace_step(cur, rest, self.from@, self.to@);
                        assert(cur.skip(m as int) =~= data@.skip(i + m));
                        assert(prev + (self.to@ + replace_nonempty(
                            data@.skip(i + m) + rest,
                            self.from@,
                            self.to@,
                        )) =~= out@ + replace_nonempty(data@.skip(i + m) + rest, self.from@, self.to@));
                    }
                }
                i = i + m;
            } else {
                let b = data[i];
                out.push(b);
                proof {
                    assert forall|rest: Seq<u8>|
                        out@ + replace_nonempty(data@.skip(i + 1) + rest, self.from@, self.to@)
                            == replace_nonempty(data@ + rest, self.from@, self.to@) by {
                        lemma_replace_step(cur, rest, self.from@, self.to@);
                        assert(cur.skip(1) =~= data@.skip(i + 1));
                        assert(cur[0] == b);
                        assert(prev + (seq![b] + replace_nonempty(
                            data@.skip(i + 1) + rest,
                            self.from@,
                            self.to@,
                        )) =~= out@ + replace_nonempty(data@.skip(i + 1) + rest, self.from@, self.to@));
                    }
                }
                i = i + 1;
            }
        }
        let mut held: Vec<u8> = Vec::new();
        let mut j: usize = i;
        while j < data.len()
            invariant
                i <= j <= data.len(),
                held@ == data@.subrange(i as int, j as int),
            decreases data.len() - j,
        {
            held.push(data[j]);
            j = j + 1;
            assert(data@.subrange(i as int, j as int) =~= data@.subrange(i as int, j - 1).push(
                data@[j - 1],
            ));
        }
        proof {
            assert(held@ =~= data@.skip(i as int));
            assert(data@ =~= self.pending@ + chunk@);
            assert(ends_with(self.pending@ + chunk@, held@)) by {
                let d = self.pending@ + chunk@;
                assert(d.skip(d.len() - held@.len()) =~= held@);
            }
        }
        self.pending = held;
        out
    }

    /// The bytes still held back, as they stand once nothing more follows.
    pub fn finish(&self) -> (out: Vec<u8>)
        ensures
            out@ == replace_all(self.pending(), self.pattern(), self.replacement()),
    {
        proof {
            use_type_invariant(self);
        }
        let mut out: Vec<u8> = Vec::new();
        if self.from.len() == 0 {
            append_bytes(&mut out, self.to.as_slice());
            assert(self.pending@ =~= Seq::<u8>::empty());
            assert(insert_before_chars(self.pending@, self.to@) =~= Seq::<u8>::empty());
            assert(out@ =~= insert_at_boundaries(self.pending@, self.to@));
        } else {
            append_bytes(&mut out, self.pending.as_slice());
            proof {
                lemma_replace_short(self.pending@, self.from@, self.to@);
            }
        }
        out
    }
}

/// Replaces every match of `from` by `to` in content given as a series of
/// chunks. However the content is cut into chunks, the result is the
/// replacement in the whole content.
pub fn stream_replace(chunks: &Vec<Vec<u8>>, from: &str, to: &str) -> (res: Vec<u8>)
    ensures
        res@ == replace_all(concat_chunks(chunks@), from.spec_bytes(), to.spec_bytes()),
{
    let mut r = StreamReplacer::new(from, to);
    let ghost pat = r.pattern();
    let ghost rep = r.replacement();
    let mut out: Vec<u8> = Vec::new();
    let mut k: usize = 0;
    proof {
        assert(chunks@.take(0) =~= Seq::<Vec<u8>>::empty());
        assert forall|rest: Seq<u8>|
            out@ + replace_all(r.pending() + rest, pat, rep) == replace_all(
                concat_chunks(chunks@.take(0)) + rest,
                pat,
                rep,
            ) by {
            assert(r.pending() + rest =~= rest);
            assert(concat_chunks(chunks@.take(0)) + rest =~= rest);
            assert(out@ + replace_all(rest, pat, rep) =~= replace_all(rest, pat, rep));
        }
    }
    while k < chunks.len()
        invariant
            k <= chunks.len(),
            r.pattern() == pat,
            r.replacement() == rep,
            forall|rest: Seq<u8>|
                #![trigger replace_all(r.pending() + rest, pat, rep)]
                out@ + replace_all(r.pending() + rest, pat, rep) == replace_all(
                    concat_chunks(chunks@.take(k as int)) + rest,
                    pat,
                    rep,
                ),
        decreases chunks.len() - k,
    {
        let ghost p0 = r.pending();
        let ghost prev = out@;
        let piece = r.feed(chunks[k].as_slice());
        append_bytes(&mut out, piece.as_slice());
        proof {
            let c = chunks@[k as int]@;
            assert(chunks@.take(k + 1).drop_last() =~= chunks@.take(k as int));
            assert(concat_chunks(chunks@.take(k + 1)) == concat_chunks(chunks@.take(k as int)) + c);
            assert forall|rest: Seq<u8>|
                out@ + replace_all(r.pending() + rest, pat, rep) == replace_all(
                    concat_chunks(chunks@.take(k + 1)) + rest,
                    pat,
                    rep,
                ) by {
                assert(concat_chunks(chunks@.take(k + 1)) + rest =~= concat_chunks(
                    chunks@.take(k as int),
                ) + (c + rest));
                assert(p0 + (c + rest) =~= p0 + c + rest);
                assert(replace_all(p0 + c + rest, pat, rep) == piece@ + replace_all(
                    r.pending() + rest,
                    pat,
                    rep,
                ));
                assert(prev + replace_all(p0 + (c + rest), pat, rep) == replace_all(
                    concat_chunks(chunks@.take(k as int)) + (c + rest),
                    pat,
                    rep,
                ));
                assert(out@ + replace_all(r.pending() + rest, pat, rep) =~= prev + (piece@
                    + replace_all(r.pending() + rest, pat, rep)));
            }
        }
        k = k + 1;
    }
    let tail = r.finish();
    append_bytes(&mut out, tail.as_slice());
    proof {
        assert(chunks@.take(k as int) =~= chunks@);
        assert(r.pending() + Seq::<u8>::empty() =~= r.pending());
        assert(concat_chunks(chunks@) + Seq::<u8>::empty() =~= concat_chunks(chunks@));
    }
    out
}

} // verus!

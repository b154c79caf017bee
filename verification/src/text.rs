//! Tokenization, stemming, and the indexer.
//!
//! Free text is split into words at every byte that is neither an ASCII
//! letter or digit nor part of a multi-byte UTF-8 character; each word is
//! case-normalized ([`crate::bytes::norm_bytes`]) and then stemmed
//! ([`stem_bytes`]): a small, fixed English-oriented suffix stripper
//! (plural `-s`/`-ies`/`-sses`, `-ing`, `-ed` with doubled-consonant
//! reduction), applied uniformly.  The [`TermGenerator`] feeds the
//! resulting terms, with their token positions, into a document's
//! postings.  A query must be normalized and stemmed the same way for
//! matching to work; the [`crate::parser`] uses the same functions, so
//! the coupling holds by construction.

use vstd::prelude::*;
use vstd::string::StringSliceAdditionalSpecFns;

use crate::bytes::{is_word_byte, norm_bytes, word_byte};
use crate::doc::{
    add_posting_terms, doc_wf, empty_doc, sat_inc, DocModel, Document, TermPosting,
};

verus! {

/// Length of the maximal run of word bytes at the front of `s`.
pub open spec fn word_len(s: Seq<u8>) -> int
    decreases s.len(),
{
    if s.len() == 0 || !is_word_byte(s[0]) {
        0
    } else {
        1 + word_len(s.drop_first())
    }
}

/// The front run of word bytes is never longer than the text.
pub proof fn lemma_word_len_bounds(s: Seq<u8>)
    ensures
        0 <= word_len(s) <= s.len(),
    decreases s.len(),
{
    if s.len() > 0 && is_word_byte(s[0]) {
        lemma_word_len_bounds(s.drop_first());
    }
}

/// A run of exactly `k` word bytes at the front has `word_len` `k`.
pub proof fn lemma_word_len_exact(s: Seq<u8>, k: int)
    requires
        0 <= k <= s.len(),
        forall|m: int| 0 <= m < k ==> is_word_byte(s[m]),
        k == s.len() || !is_word_byte(s[k]),
    ensures
        word_len(s) == k,
    decreases k,
{
    if k == 0 {
    } else {
        let s1 = s.drop_first();
        assert(forall|m: int| 0 <= m < k - 1 ==> is_word_byte(s1[m]));
        lemma_word_len_exact(s1, k - 1);
    }
}

/// An ASCII vowel.
pub open spec fn is_vowel(b: u8) -> bool {
    b == 97 || b == 101 || b == 105 || b == 111 || b == 117
}

/// Reduce a trailing doubled consonant to one (after stripping `-ing` or
/// `-ed`, so that a word like a doubled-stem form loses the doubling).
pub open spec fn dedup_last(w: Seq<u8>) -> Seq<u8> {
    if w.len() >= 2 && w[w.len() - 1] == w[w.len() - 2] && !is_vowel(w[w.len() - 1]) {
        w.subrange(0, w.len() - 1)
    } else {
        w
    }
}

/// The stem of a normalized word: a fixed, English-oriented suffix
/// stripper.  `-sses` loses its `-es`; `-ies` becomes `-y`; `-ing` and
/// `-ed` are stripped (with doubled-consonant reduction) when enough stem
/// remains; a final `-s` not after `s` or `u` is stripped from words of
/// four or more bytes.  Everything else, including non-ASCII words, is
/// unchanged.
pub open spec fn stem_bytes(w: Seq<u8>) -> Seq<u8> {
    let n = w.len() as int;
    if n >= 5 && w[n - 4] == 115 && w[n - 3] == 115 && w[n - 2] == 101 && w[n - 1] == 115 {
        w.subrange(0, n - 2)
    } else if n >= 5 && w[n - 3] == 105 && w[n - 2] == 101 && w[n - 1] == 115 {
        w.subrange(0, n - 3).push(121)
    } else if n >= 6 && w[n - 3] == 105 && w[n - 2] == 110 && w[n - 1] == 103 {
        dedup_last(w.subrange(0, n - 3))
    } else if n >= 5 && w[n - 2] == 101 && w[n - 1] == 100 {
        dedup_last(w.subrange(0, n - 2))
    } else if n >= 4 && w[n - 1] == 115 && w[n - 2] != 115 && w[n - 2] != 117 {
        w.subrange(0, n - 1)
    } else {
        w
    }
}

/// Stem one normalized word.
pub fn stem_word(w: Vec<u8>) -> (r: Vec<u8>)
    ensures
        r@ == stem_bytes(w@),
{
    let ghost w0 = w@;
    let mut w = w;
    let n = w.len();
    if n >= 5 && w[n - 4] == 115 && w[n - 3] == 115 && w[n - 2] == 101 && w[n - 1] == 115 {
        w.truncate(n - 2);
        proof {
            assert(w@ =~= stem_bytes(w0));
        }
        w
    } else if n >= 5 && w[n - 3] == 105 && w[n - 2] == 101 && w[n - 1] == 115 {
        w.truncate(n - 3);
        w.push(121);
        proof {
            assert(w@ =~= stem_bytes(w0));
        }
        w
    } else if n >= 6 && w[n - 3] == 105 && w[n - 2] == 110 && w[n - 1] == 103 {
        w.truncate(n - 3);
        proof {
            assert(w@ =~= w0.subrange(0, w0.len() - 3));
        }
        dedup_last_word(w)
    } else if n >= 5 && w[n - 2] == 101 && w[n - 1] == 100 {
        w.truncate(n - 2);
        proof {
            assert(w@ =~= w0.subrange(0, w0.len() - 2));
        }
        dedup_last_word(w)
    } else if n >= 4 && w[n - 1] == 115 && w[n - 2] != 115 && w[n - 2] != 117 {
        w.truncate(n - 1);
        proof {
            assert(w@ =~= stem_bytes(w0));
        }
        w
    } else {
        w
    }
}

/// Reduce a trailing doubled consonant, executably.
fn dedup_last_word(w: Vec<u8>) -> (r: Vec<u8>)
    ensures
        r@ == dedup_last(w@),
{
    let ghost w0 = w@;
    let mut w = w;
    let n = w.len();
    if n >= 2 && w[n - 1] == w[n - 2] {
        let b = w[n - 1];
        if !(b == 97 || b == 101 || b == 105 || b == 111 || b == 117) {
            w.truncate(n - 1);
            proof {
                assert(w@ =~= dedup_last(w0));
            }
            return w;
        }
    }
    w
}

/// The normalized, stemmed words of a text, in order of appearance.
pub open spec fn tokens_of(s: Seq<u8>) -> Seq<Seq<u8>>
    decreases s.len(),
    via tokens_of_decreases
{
    if s.len() == 0 {
        Seq::empty()
    } else if !is_word_byte(s[0]) {
        tokens_of(s.drop_first())
    } else {
        seq![stem_bytes(norm_bytes(s.take(word_len(s))))] + tokens_of(s.skip(word_len(s)))
    }
}

#[via_fn]
proof fn tokens_of_decreases(s: Seq<u8>) {
    lemma_word_len_bounds(s);
    if s.len() > 0 && is_word_byte(s[0]) {
        lemma_word_len_bounds(s.drop_first());
    }
}

/// The models of a sequence of stored tokens.
pub open spec fn view_tokens(ts: Seq<Vec<u8>>) -> Seq<Seq<u8>> {
    Seq::new(ts.len(), |i: int| ts[i]@)
}

/// Split a text into its normalized words.
pub fn tokenize(s: &Vec<u8>) -> (r: Vec<Vec<u8>>)
    ensures
        view_tokens(r@) == tokens_of(s@),
{
    let n = s.len();
    let mut out: Vec<Vec<u8>> = Vec::new();
    let mut i: usize = 0;
    proof {
        assert(s@.skip(0) =~= s@);
        assert(view_tokens(out@) =~= Seq::<Seq<u8>>::empty());
    }
    while i < n
        invariant
            i <= n,
            n == s@.len(),
            tokens_of(s@) == view_tokens(out@) + tokens_of(s@.skip(i as int)),
        decreases n - i,
    {
        if !word_byte(s[i]) {
            proof {
                assert(s@.skip(i as int)[0] == s@[i as int]);
                assert(s@.skip(i as int).drop_first() =~= s@.skip(i as int + 1));
            }
            i = i + 1;
        } else {
            let start = i;
            let mut tok: Vec<u8> = Vec::new();
            let mut j = i;
            proof {
                assert(tok@ =~= norm_bytes(s@.subrange(start as int, start as int)));
            }
            while j < n && word_byte(s[j])
                invariant
                    start <= j <= n,
                    n == s@.len(),
                    forall|m: int| start <= m < j ==> is_word_byte(s@[m]),
                    tok@ == norm_bytes(s@.subrange(start as int, j as int)),
                decreases n - j,
            {
                let b = s[j];
                let nb = if 65 <= b && b <= 90 {
                    b + 32
                } else {
                    b
                };
                tok.push(nb);
                proof {
                    assert(norm_bytes(s@.subrange(start as int, j as int + 1)) =~= norm_bytes(
                        s@.subrange(start as int, j as int),
                    ).push(crate::bytes::norm_byte(s@[j as int])));
                }
                j = j + 1;
            }
            let stemmed = stem_word(tok);
            proof {
                let rest = s@.skip(start as int);
                assert(forall|m: int| 0 <= m < j - start ==> is_word_byte(rest[m])) by {
                    assert(forall|m: int|
                        0 <= m < j - start ==> rest[m] == s@[start as int + m] && is_word_byte(
                            s@[start as int + m],
                        ));
                }
                if j < n {
                    assert(rest[j - start as int] == s@[j as int]);
                }
                lemma_word_len_exact(rest, j - start as int);
                assert(is_word_byte(rest[0]));
                assert(tokens_of(rest) == seq![stem_bytes(norm_bytes(rest.take(word_len(rest))))]
                    + tokens_of(rest.skip(word_len(rest))));
                assert(rest.take(j - start as int) =~= s@.subrange(start as int, j as int));
                assert(rest.skip(j - start as int) =~= s@.skip(j as int));
                assert(view_tokens(out@.push(stemmed)) =~= view_tokens(out@) + seq![stemmed@]);
                assert((view_tokens(out@) + seq![stemmed@]) + tokens_of(s@.skip(j as int))
                    =~= view_tokens(out@) + (seq![stemmed@] + tokens_of(s@.skip(j as int))));
            }
            out.push(stemmed);
            i = j;
        }
    }
    proof {
        assert(s@.skip(n as int).len() == 0);
        assert(tokens_of(s@.skip(n as int)) =~= Seq::<Seq<u8>>::empty());
        assert(view_tokens(out@) + Seq::<Seq<u8>>::empty() =~= view_tokens(out@));
    }
    out
}

/// A stemmer handle.
///
/// The engine's one stemming algorithm is the English-oriented suffix
/// stripper [`stem_bytes`], applied uniformly by the tokenizer; the
/// handle records the language tag it was made for.
pub struct Stem {
    pub lang: String,
}

/// The language tags the stemmer supports.
pub open spec fn supported_stem_lang(lang: Seq<char>) -> bool {
    lang == "en"@ || lang == "english"@
}

impl Stem {
    /// A stemmer for the given language tag.
    ///
    /// Fails with `InvalidArgument` exactly when the tag names no
    /// supported stemming language.
    pub fn new(lang: &str) -> (r: Result<Stem, crate::errors::Error>)
        ensures
            supported_stem_lang(lang@) ==> (r matches Ok(s) && s.lang@ == lang@),
            !supported_stem_lang(lang@) ==> (r matches Err(e) && e is InvalidArgument),
    {
        let en: &str = "en";
        let english: &str = "english";
        if str_eq(lang, en) || str_eq(lang, english) {
            Ok(Stem { lang: lang.to_owned() })
        } else {
            Err(crate::errors::Error::InvalidArgument)
        }
    }
}

/// Whether two pieces of text hold the same characters.
fn str_eq(a: &str, b: &str) -> (r: bool)
    ensures
        r == (a@ == b@),
{
    let av = a.as_bytes_vec();
    let bv = b.as_bytes_vec();
    if av == bv {
        proof {
            assert(av@ =~= bv@);
            vstd::utf8::encode_utf8_decode_utf8(a@);
            vstd::utf8::encode_utf8_decode_utf8(b@);
            assert(a@ == b@);
        }
        true
    } else {
        proof {
            if a@ == b@ {
                assert(av@ =~= bv@);
            }
        }
        false
    }
}

/// Each token of `toks`, prefixed with `pre`.
pub open spec fn prefixed_tokens(toks: Seq<Seq<u8>>, pre: Seq<u8>) -> Seq<Seq<u8>> {
    Seq::new(toks.len(), |i: int| pre + toks[i])
}

/// The term postings after indexing the tokens in order, the first at
/// position `pos` and each following token one position later.
pub open spec fn index_tokens_terms(ts: Seq<TermPosting>, toks: Seq<Seq<u8>>, pos: u64) -> Seq<
    TermPosting,
>
    decreases toks.len(),
{
    if toks.len() == 0 {
        ts
    } else {
        index_tokens_terms(add_posting_terms(ts, toks[0], pos), toks.drop_first(), sat_inc(pos))
    }
}

/// The token position counter after `n` more tokens.
pub open spec fn pos_after(pos: u64, n: int) -> u64
    decreases n,
{
    if n <= 0 {
        pos
    } else {
        pos_after(sat_inc(pos), n - 1)
    }
}

/// The indexer: turns free text into term postings on a document.
///
/// Set a document, index one or more pieces of text, then take the
/// document back and hand it to the writer.  The token position counter
/// runs on across texts of the same document and is reset by
/// `set_document`.
pub struct TermGenerator {
    pub doc: Document,
    pub stem: Option<Stem>,
    pub flags: u32,
    pub pos: u64,
}

impl TermGenerator {
    /// A fresh indexer holding an empty document.
    pub fn new() -> (r: TermGenerator)
        ensures
            r.doc@ == empty_doc(),
            doc_wf(r.doc@),
            r.pos == 0,
            r.flags == 0,
    {
        TermGenerator { doc: Document::new(), stem: None, flags: 0, pos: 0 }
    }

    /// Record the stemmer; normalization itself is unaffected (it is case
    /// folding whatever the language).
    pub fn set_stemmer(&mut self, stem: Stem)
        ensures
            final(self).doc == old(self).doc,
            final(self).pos == old(self).pos,
            final(self).flags == old(self).flags,
    {
        self.stem = Some(stem);
    }

    /// Replace the masked bits of the flag word by `toggle`.
    pub fn set_flags(&mut self, toggle: u32, mask: u32)
        ensures
            final(self).flags == ((old(self).flags & mask) ^ toggle),
            final(self).doc == old(self).doc,
            final(self).pos == old(self).pos,
    {
        self.flags = (self.flags & mask) ^ toggle;
    }

    /// Make `doc` the document that further indexing writes into, and
    /// restart the token position counter.
    pub fn set_document(&mut self, doc: Document)
        ensures
            final(self).doc == doc,
            final(self).pos == 0,
            final(self).flags == old(self).flags,
    {
        self.doc = doc;
        self.pos = 0;
    }

    /// The document as indexed so far.
    pub fn document(&self) -> (d: &Document)
        ensures
            d == &self.doc,
    {
        &self.doc
    }

    /// Take the document out, leaving an empty one behind.
    pub fn take_document(&mut self) -> (d: Document)
        ensures
            d == old(self).doc,
            final(self).doc@ == empty_doc(),
            final(self).pos == 0,
    {
        let mut doc = Document::new();
        core::mem::swap(&mut doc, &mut self.doc);
        self.pos = 0;
        doc
    }

    /// Index the words of `data`, each term carrying the given prefix.
    pub fn index_text_with_prefix(&mut self, data: &str, prefix: &str)
        ensures
            final(self).doc@ == (DocModel {
                terms: index_tokens_terms(
                    old(self).doc@.terms,
                    prefixed_tokens(tokens_of(data.spec_bytes()), prefix.spec_bytes()),
                    old(self).pos,
                ),
                ..old(self).doc@
            }),
            final(self).pos == pos_after(
                old(self).pos,
                tokens_of(data.spec_bytes()).len() as int,
            ),
            doc_wf(old(self).doc@) ==> doc_wf(final(self).doc@),
            final(self).flags == old(self).flags,
    {
        let bytes = data.as_bytes_vec();
        let pre = prefix.as_bytes_vec();
        let toks = tokenize(&bytes);
        self.index_tokens(&toks, &pre);
    }

    /// Index the words of `data`.
    pub fn index_text(&mut self, data: &str)
        ensures
            final(self).doc@ == (DocModel {
                terms: index_tokens_terms(
                    old(self).doc@.terms,
                    tokens_of(data.spec_bytes()),
                    old(self).pos,
                ),
                ..old(self).doc@
            }),
            final(self).pos == pos_after(
                old(self).pos,
                tokens_of(data.spec_bytes()).len() as int,
            ),
            doc_wf(old(self).doc@) ==> doc_wf(final(self).doc@),
            final(self).flags == old(self).flags,
    {
        self.index_text_with_prefix(data, "");
        proof {
            reveal_strlit("");
            assert(""@.len() == 0);
            vstd::string::is_ascii_spec_bytes("");
            assert(""@ =~= Seq::<char>::empty());
            assert("".spec_bytes().len() == 0);
            assert(prefixed_tokens(tokens_of(data.spec_bytes()), "".spec_bytes())
                =~= tokens_of(data.spec_bytes())) by {
                assert(forall|i: int|
                    0 <= i < tokens_of(data.spec_bytes()).len() ==> "".spec_bytes() + tokens_of(
                        data.spec_bytes(),
                    )[i] =~= tokens_of(data.spec_bytes())[i]);
            }
        }
    }

    /// Feed each token, prefixed, into the document's postings.
    fn index_tokens(&mut self, toks: &Vec<Vec<u8>>, pre: &Vec<u8>)
        ensures
            final(self).doc@ == (DocModel {
                terms: index_tokens_terms(
                    old(self).doc@.terms,
                    prefixed_tokens(view_tokens(toks@), pre@),
                    old(self).pos,
                ),
                ..old(self).doc@
            }),
            final(self).pos == pos_after(old(self).pos, toks@.len() as int),
            doc_wf(old(self).doc@) ==> doc_wf(final(self).doc@),
            final(self).flags == old(self).flags,
            final(self).stem == old(self).stem,
    {
        let ghost all = prefixed_tokens(view_tokens(toks@), pre@);
        let ghost start_terms = self.doc@.terms;
        let ghost start_pos = self.pos;
        let n = toks.len();
        let mut i: usize = 0;
        proof {
            assert(all.skip(0) =~= all);
        }
        while i < n
            invariant
                i <= n,
                n == toks@.len(),
                all == prefixed_tokens(view_tokens(toks@), pre@),
                index_tokens_terms(start_terms, all, start_pos) == index_tokens_terms(
                    self.doc@.terms,
                    all.skip(i as int),
                    self.pos,
                ),
                pos_after(start_pos, n as int) == pos_after(self.pos, n - i),
                doc_wf(old(self).doc@) ==> doc_wf(self.doc@),
                self.doc@.data == old(self).doc@.data,
                self.doc@.values == old(self).doc@.values,
                self.flags == old(self).flags,
                self.stem == old(self).stem,
            decreases n - i,
        {
            let mut term = crate::doc::clone_bytes(pre);
            let tok = &toks[i];
            let mut k: usize = 0;
            while k < tok.len()
                invariant
                    k <= tok@.len(),
                    term@ == pre@ + tok@.take(k as int),
                decreases tok@.len() - k,
            {
                term.push(tok[k]);
                proof {
                    assert(pre@ + tok@.take(k as int + 1) =~= (pre@ + tok@.take(k as int)).push(
                        tok@[k as int],
                    ));
                }
                k = k + 1;
            }
            proof {
                assert(tok@.take(tok@.len() as int) =~= tok@);
                assert(term@ == pre@ + toks@[i as int]@);
                assert(all[i as int] == pre@ + view_tokens(toks@)[i as int]);
                assert(all.skip(i as int)[0] == all[i as int]);
            }
            let ghost pre_terms = self.doc@.terms;
            let ghost pre_pos = self.pos;
            self.doc.add_posting(&term, self.pos);
            self.pos = if self.pos < u64::MAX {
                self.pos + 1
            } else {
                self.pos
            };
            proof {
                assert(self.pos == sat_inc(pre_pos));
                assert(all.skip(i as int).drop_first() =~= all.skip(i as int + 1));
                assert(index_tokens_terms(pre_terms, all.skip(i as int), pre_pos)
                    == index_tokens_terms(self.doc@.terms, all.skip(i as int + 1), self.pos));
            }
            i = i + 1;
        }
        proof {
            assert(all.skip(n as int).len() == 0);
            assert(index_tokens_terms(self.doc@.terms, all.skip(n as int), self.pos)
                == self.doc@.terms);
            assert(self.doc@ == (DocModel {
                terms: index_tokens_terms(old(self).doc@.terms, all, old(self).pos),
                ..old(self).doc@
            }));
        }
    }
}


/// The decimal digits of a non-negative number, most significant first.
pub open spec fn dec_digits(x: int) -> Seq<u8>
    decreases x,
{
    if x < 0 {
        Seq::empty()
    } else if x < 10 {
        seq![(48 + x) as u8]
    } else {
        dec_digits(x / 10).push((48 + x % 10) as u8)
    }
}

/// The decimal text of a number, with a leading minus when negative.
pub open spec fn int_text(x: int) -> Seq<u8> {
    if x < 0 {
        seq![45u8] + dec_digits(-x)
    } else {
        dec_digits(x)
    }
}

/// Render a non-negative number as decimal digits.
fn render_u64(x: u64) -> (r: Vec<u8>)
    ensures
        r@ == dec_digits(x as int),
{
    let mut rev: Vec<u8> = Vec::new();
    let mut v = x;
    rev.push(48 + (v % 10) as u8);
    v = v / 10;
    proof {
        if v == 0 {
            assert(rev@.reverse() =~= seq![(48 + (x as int) % 10) as u8]);
            assert(x < 10);
            assert((48 + (x as int)) as u8 == (48 + (x as int) % 10) as u8);
            assert(dec_digits(x as int) =~= rev@.reverse());
        } else {
            assert(x >= 10);
            assert(dec_digits(x as int) == dec_digits(v as int).push((48 + (x as int) % 10) as u8));
            assert(rev@.reverse() =~= seq![(48 + (x as int) % 10) as u8]);
            assert(dec_digits(x as int) =~= dec_digits(v as int) + rev@.reverse());
        }
    }
    while v > 0
        invariant
            v == 0 ==> dec_digits(x as int) == rev@.reverse(),
            v > 0 ==> dec_digits(x as int) == dec_digits(v as int) + rev@.reverse(),
        decreases v,
    {
        let d: u8 = 48 + (v % 10) as u8;
        let ghost rev0 = rev@;
        let ghost v0 = v as int;
        rev.push(d);
        v = v / 10;
        proof {
            assert(rev@.reverse() =~= seq![d] + rev0.reverse());
            if v == 0 {
                assert(v0 < 10);
                assert(dec_digits(v0) =~= seq![d]);
                assert(dec_digits(x as int) =~= rev@.reverse()) by {
                    assert(dec_digits(v0) + rev0.reverse() =~= seq![d] + rev0.reverse());
                }
            } else {
                assert(v0 >= 10);
                assert(dec_digits(v0) == dec_digits(v as int).push(d));
                assert(dec_digits(v as int).push(d) + rev0.reverse() =~= dec_digits(v as int) + (
                seq![d] + rev0.reverse()));
            }
        }
    }
    let n = rev.len();
    let mut out: Vec<u8> = Vec::new();
    let mut k: usize = 0;
    while k < n
        invariant
            k <= n,
            n == rev@.len(),
            out@ =~= rev@.reverse().take(k as int),
        decreases n - k,
    {
        out.push(rev[n - 1 - k]);
        proof {
            assert(rev@.reverse()[k as int] == rev@[n - 1 - k as int]);
            assert(out@ =~= rev@.reverse().take(k as int + 1));
        }
        k = k + 1;
    }
    proof {
        assert(rev@.reverse().take(n as int) =~= rev@.reverse());
    }
    out
}

impl TermGenerator {
    /// Index the decimal text of a number as one term carrying the given
    /// prefix, at the next token position.
    pub fn index_long(&mut self, data: i64, prefix: &str)
        ensures
            final(self).doc@ == (DocModel {
                terms: add_posting_terms(
                    old(self).doc@.terms,
                    prefix.spec_bytes() + int_text(data as int),
                    old(self).pos,
                ),
                ..old(self).doc@
            }),
            final(self).pos == sat_inc(old(self).pos),
            doc_wf(old(self).doc@) ==> doc_wf(final(self).doc@),
            final(self).flags == old(self).flags,
    {
        let neg = data < 0;
        let mag: u64 = if neg {
            ((-(data + 1)) as u64) + 1
        } else {
            data as u64
        };
        proof {
            if neg {
                assert(mag == -(data as int));
            } else {
                assert(mag == data as int);
            }
        }
        let digits = render_u64(mag);
        let mut term = prefix.as_bytes_vec();
        if neg {
            term.push(45);
        }
        let ghost mid = term@;
        let mut m: usize = 0;
        while m < digits.len()
            invariant
                m <= digits@.len(),
                term@ == mid + digits@.take(m as int),
            decreases digits@.len() - m,
        {
            term.push(digits[m]);
            proof {
                assert(mid + digits@.take(m as int + 1) =~= (mid + digits@.take(m as int)).push(
                    digits@[m as int],
                ));
            }
            m = m + 1;
        }
        proof {
            assert(digits@.take(digits@.len() as int) =~= digits@);
            if neg {
                assert(mid =~= prefix.spec_bytes().push(45u8));
                assert(term@ =~= prefix.spec_bytes() + (seq![45u8] + dec_digits(-(data as int))));
            } else {
                assert(term@ =~= prefix.spec_bytes() + dec_digits(data as int));
            }
            assert(term@ == prefix.spec_bytes() + int_text(data as int));
        }
        self.doc.add_posting(&term, self.pos);
        self.pos = if self.pos < u64::MAX {
            self.pos + 1
        } else {
            self.pos
        };
    }

    /// Index the decimal text of a number as one term carrying the given
    /// prefix, at the next token position.
    pub fn index_int(&mut self, data: i32, prefix: &str)
        ensures
            final(self).doc@ == (DocModel {
                terms: add_posting_terms(
                    old(self).doc@.terms,
                    prefix.spec_bytes() + int_text(data as int),
                    old(self).pos,
                ),
                ..old(self).doc@
            }),
            final(self).pos == sat_inc(old(self).pos),
            doc_wf(old(self).doc@) ==> doc_wf(final(self).doc@),
            final(self).flags == old(self).flags,
    {
        self.index_long(data as i64, prefix);
    }
}

} // verus!

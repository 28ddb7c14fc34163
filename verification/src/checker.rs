use vstd::prelude::*;

use crate::chars::{chars_to_string, is_alpha_char, is_digit_char, spec_normalize, str_to_chars};
use crate::errors::Error;
use crate::storage::{
    chars_to_u32, encode_rows, encode_spec, header, parse_row, parse_rows, parse_spec, row_of,
    split_chars, u32_to_chars, vec_views,
};
use crate::tokenizer::{is_token_shaped, spec_tokens, token_shaped, tokenize, views_of};

verus! {

/// One dictionary entry: a word and how often it has been seen.
pub struct WordCount {
    pub word: String,
    pub count: u32,
}

/// The entries as plain values: a sequence of (word, count) pairs.
pub open spec fn entry_views(es: Seq<WordCount>) -> Seq<(Seq<char>, u32)> {
    Seq::new(es.len(), |i: int| (es[i].word@, es[i].count))
}

/// The word-to-count mapping a sequence of entries denotes; a later
/// entry for the same word overrides an earlier one.
pub open spec fn map_of(es: Seq<(Seq<char>, u32)>) -> Map<Seq<char>, u32>
    decreases es.len(),
{
    if es.len() == 0 {
        Map::empty()
    } else {
        map_of(es.drop_last()).insert(es.last().0, es.last().1)
    }
}

/// No two entries share a word.
pub open spec fn keys_unique(es: Seq<(Seq<char>, u32)>) -> bool {
    forall|i: int, j: int| 0 <= i < j < es.len() ==> es[i].0 != es[j].0
}

pub proof fn lemma_map_of_contains(es: Seq<(Seq<char>, u32)>, w: Seq<char>)
    ensures
        map_of(es).contains_key(w) <==> exists|i: int| 0 <= i < es.len() && es[i].0 == w,
    decreases es.len(),
{
    if es.len() == 0 {
    } else {
        lemma_map_of_contains(es.drop_last(), w);
        if es.last().0 == w {
            assert(es[es.len() - 1].0 == w);
        } else {
            if map_of(es).contains_key(w) {
                let i = choose|i: int|
                    0 <= i < es.drop_last().len() && es.drop_last()[i].0 == w;
                assert(es[i].0 == w);
            }
            if exists|i: int| 0 <= i < es.len() && es[i].0 == w {
                let i = choose|i: int| 0 <= i < es.len() && es[i].0 == w;
                assert(es.drop_last()[i].0 == w);
            }
        }
    }
}

pub proof fn lemma_map_of_index(es: Seq<(Seq<char>, u32)>, i: int)
    requires
        keys_unique(es),
        0 <= i < es.len(),
    ensures
        map_of(es).contains_key(es[i].0),
        map_of(es)[es[i].0] == es[i].1,
    decreases es.len(),
{
    if i == es.len() - 1 {
    } else {
        assert(es.drop_last()[i] == es[i]);
        lemma_map_of_index(es.drop_last(), i);
        assert(es.last().0 != es[i].0);
    }
}

pub proof fn lemma_map_of_update(es: Seq<(Seq<char>, u32)>, i: int, c: u32)
    requires
        keys_unique(es),
        0 <= i < es.len(),
    ensures
        map_of(es.update(i, (es[i].0, c))) =~= map_of(es).insert(es[i].0, c),
    decreases es.len(),
{
    let es2 = es.update(i, (es[i].0, c));
    if i == es.len() - 1 {
        assert(es2.drop_last() =~= es.drop_last());
        assert(es2.last() == (es[i].0, c));
    } else {
        assert(es2.drop_last() =~= es.drop_last().update(i, (es.drop_last()[i].0, c)));
        lemma_map_of_update(es.drop_last(), i, c);
        assert(es.last().0 != es[i].0);
        assert(es2.last() == es.last());
        assert(map_of(es2) =~= map_of(es).insert(es[i].0, c));
    }
}

/// One observed occurrence of `w`: its count rises by one (staying put
/// at the largest representable value), or the word enters with count 1.
pub open spec fn bump(m: Map<Seq<char>, u32>, w: Seq<char>) -> Map<Seq<char>, u32> {
    if m.contains_key(w) {
        m.insert(w, if m[w] == u32::MAX { u32::MAX } else { (m[w] + 1) as u32 })
    } else {
        m.insert(w, 1u32)
    }
}

/// The mapping after one training pass over the given tokens.
pub open spec fn train_spec(m: Map<Seq<char>, u32>, ws: Seq<Seq<char>>) -> Map<Seq<char>, u32>
    decreases ws.len(),
{
    if ws.len() == 0 {
        m
    } else {
        train_spec(bump(m, ws[0]), ws.skip(1))
    }
}

/// A token the checker reports when it is unknown: non-empty, not made
/// purely of digits, and made of letters only.
pub open spec fn reportable(w: Seq<char>) -> bool {
    &&& w.len() > 0
    &&& !(forall|j: int| 0 <= j < w.len() ==> is_digit_char(w[j]))
    &&& (forall|j: int| 0 <= j < w.len() ==> is_alpha_char(w[j]))
}

/// The unmatched words of a check: every reportable token absent from
/// the mapping, in order, repeats included.
pub open spec fn check_spec(m: Map<Seq<char>, u32>, ws: Seq<Seq<char>>) -> Seq<Seq<char>>
    decreases ws.len(),
{
    if ws.len() == 0 {
        Seq::empty()
    } else {
        (if reportable(ws[0]) && !m.contains_key(ws[0]) {
            seq![ws[0]]
        } else {
            Seq::empty()
        }) + check_spec(m, ws.skip(1))
    }
}

/// Every reported word is reportable and absent from the mapping.
pub proof fn lemma_check_spec_sound(m: Map<Seq<char>, u32>, ws: Seq<Seq<char>>)
    ensures
        forall|k: int|
            0 <= k < check_spec(m, ws).len() ==> reportable(#[trigger] check_spec(m, ws)[k])
                && !m.contains_key(check_spec(m, ws)[k]),
    decreases ws.len(),
{
    if ws.len() == 0 {
    } else {
        lemma_check_spec_sound(m, ws.skip(1));
        let rest = check_spec(m, ws.skip(1));
        assert forall|k: int| 0 <= k < check_spec(m, ws).len() implies reportable(
            #[trigger] check_spec(m, ws)[k],
        ) && !m.contains_key(check_spec(m, ws)[k]) by {
            if reportable(ws[0]) && !m.contains_key(ws[0]) {
                if k > 0 {
                    assert(check_spec(m, ws)[k] == rest[k - 1]);
                }
            } else {
                assert(check_spec(m, ws)[k] == rest[k]);
            }
        }
    }
}

/// How often `w` occurs among the tokens.
pub open spec fn occurrences(ws: Seq<Seq<char>>, w: Seq<char>) -> nat
    decreases ws.len(),
{
    if ws.len() == 0 {
        0
    } else {
        (if ws[0] == w {
            1nat
        } else {
            0nat
        }) + occurrences(ws.skip(1), w)
    }
}

/// The count a mapping gives a word, zero when absent.
pub open spec fn count_of(m: Map<Seq<char>, u32>, w: Seq<char>) -> u32 {
    if m.contains_key(w) {
        m[w]
    } else {
        0
    }
}

/// Training is additive: one pass raises the count of each word by the
/// number of times it occurs among the tokens, as long as the total
/// stays representable.
pub proof fn lemma_train_adds(m: Map<Seq<char>, u32>, ws: Seq<Seq<char>>, w: Seq<char>)
    requires
        count_of(m, w) + occurrences(ws, w) <= u32::MAX,
    ensures
        train_spec(m, ws).contains_key(w) <==> (m.contains_key(w) || occurrences(ws, w) > 0),
        count_of(train_spec(m, ws), w) == count_of(m, w) + occurrences(ws, w),
    decreases ws.len(),
{
    if ws.len() == 0 {
    } else {
        let m1 = bump(m, ws[0]);
        if ws[0] == w {
            assert(count_of(m1, w) == count_of(m, w) + 1);
        } else {
            assert(count_of(m1, w) == count_of(m, w));
        }
        lemma_train_adds(m1, ws.skip(1), w);
    }
}

/// Training on the same tokens twice raises each occurring word's count
/// by exactly twice its number of occurrences, relative to the baseline.
pub proof fn lemma_train_twice(m: Map<Seq<char>, u32>, ws: Seq<Seq<char>>, w: Seq<char>)
    requires
        count_of(m, w) + 2 * occurrences(ws, w) <= u32::MAX,
    ensures
        count_of(train_spec(train_spec(m, ws), ws), w) == count_of(m, w) + 2 * occurrences(
            ws,
            w,
        ),
    decreases ws.len(),
{
    lemma_train_adds(m, ws, w);
    lemma_train_adds(train_spec(m, ws), ws, w);
}

/// The unmatched words of a whole checking run: the concatenation, in
/// order, of what checking each text reports.
pub open spec fn collect_spec(m: Map<Seq<char>, u32>, texts: Seq<Seq<char>>) -> Seq<Seq<char>>
    decreases texts.len(),
{
    if texts.len() == 0 {
        Seq::empty()
    } else {
        check_spec(m, spec_tokens(spec_normalize(texts[0]))) + collect_spec(m, texts.skip(1))
    }
}

/// The (word, count) pairs as plain values.
pub open spec fn pair_views(ps: Seq<(String, u32)>) -> Seq<(Seq<char>, u32)> {
    Seq::new(ps.len(), |i: int| (ps[i].0@, ps[i].1))
}

/// The entries whose count does not exceed the threshold, in order.
pub open spec fn retained(es: Seq<(Seq<char>, u32)>, t: u32) -> Seq<(Seq<char>, u32)>
    decreases es.len(),
{
    if es.len() == 0 {
        Seq::empty()
    } else {
        (if es[0].1 <= t {
            seq![es[0]]
        } else {
            Seq::empty()
        }) + retained(es.skip(1), t)
    }
}

/// The in-memory word-frequency dictionary: a word-to-count mapping and
/// the shared training-epoch counter.
pub struct SpellChecker {
    entries: Vec<WordCount>,
    training_count: u32,
}

impl SpellChecker {
    /// The entries as plain values, in storage order.
    pub closed spec fn entry_seq(&self) -> Seq<(Seq<char>, u32)> {
        entry_views(self.entries@)
    }

    /// The word-to-count mapping this dictionary denotes.
    pub open spec fn words(&self) -> Map<Seq<char>, u32> {
        map_of(self.entry_seq())
    }

    /// The shared training-epoch counter.
    pub closed spec fn epoch(&self) -> u32 {
        self.training_count
    }

    /// Well-formed: no word occurs twice, and every word is non-empty,
    /// lowercase and shaped like a token.
    pub open spec fn wf(&self) -> bool {
        &&& keys_unique(self.entry_seq())
        &&& forall|i: int|
            0 <= i < self.entry_seq().len() ==> token_shaped(#[trigger] self.entry_seq()[i].0)
    }

    /// An empty dictionary with epoch zero.
    pub fn new() -> (r: SpellChecker)
        ensures
            r.wf(),
            r.words() =~= Map::<Seq<char>, u32>::empty(),
            r.entry_seq() =~= Seq::<(Seq<char>, u32)>::empty(),
            r.epoch() == 0,
    {
        let r = SpellChecker { entries: Vec::new(), training_count: 0 };
        proof {
            assert(r.entry_seq() =~= Seq::<(Seq<char>, u32)>::empty());
        }
        r
    }

    /// The index of a word among the entries, if present.
    fn find_word(&self, w: &String) -> (r: Option<usize>)
        ensures
            match r {
                Some(i) => i < self.entry_seq().len() && self.entry_seq()[i as int].0 == w@,
                None => forall|i: int| 0 <= i < self.entry_seq().len() ==> self.entry_seq()[i].0 != w@,
            },
    {
        let n = self.entries.len();
        let mut i: usize = 0;
        while i < n
            invariant
                n == self.entries@.len(),
                i <= n,
                forall|j: int| 0 <= j < i ==> self.entry_seq()[j].0 != w@,
            decreases n - i,
        {
            if self.entries[i].word == *w {
                return Some(i);
            }
            i += 1;
        }
        None
    }

    /// Records one occurrence of a token-shaped word.
    fn add_occurrence(&mut self, w: &String)
        requires
            old(self).wf(),
            token_shaped(w@),
        ensures
            final(self).wf(),
            final(self).words() == bump(old(self).words(), w@),
            final(self).epoch() == old(self).epoch(),
    {
        match self.find_word(w) {
            Some(i) => {
                let c = self.entries[i].count;
                let nc = if c == u32::MAX {
                    u32::MAX
                } else {
                    c + 1
                };
                proof {
                    lemma_map_of_index(self.entry_seq(), i as int);
                    lemma_map_of_update(self.entry_seq(), i as int, nc);
                }
                self.entries[i] = WordCount { word: w.clone(), count: nc };
                proof {
                    assert(self.entry_seq() =~= old(self).entry_seq().update(
                        i as int,
                        (w@, nc),
                    ));
                    assert(final(self).words() =~= bump(old(self).words(), w@));
                }
            },
            None => {
                proof {
                    lemma_map_of_contains(self.entry_seq(), w@);
                }
                self.entries.push(WordCount { word: w.clone(), count: 1 });
                proof {
                    assert(self.entry_seq() =~= old(self).entry_seq().push((w@, 1u32)));
                    assert(self.entry_seq().drop_last() =~= old(self).entry_seq());
                    assert(final(self).words() =~= bump(old(self).words(), w@));
                }
            },
        }
    }

    /// Trains on a text: every token of the text has its count raised
    /// by one, new words entering with count 1. The epoch is unchanged.
    pub fn train(&mut self, text: &str)
        requires
            old(self).wf(),
        ensures
            final(self).wf(),
            final(self).words() == train_spec(
                old(self).words(),
                spec_tokens(spec_normalize(text@)),
            ),
            final(self).epoch() == old(self).epoch(),
    {
        let tokens = tokenize(text);
        let ghost toks = spec_tokens(spec_normalize(text@));
        proof {
            crate::tokenizer::lemma_normalized_tokens_shaped(text@);
            assert(toks.skip(0) =~= toks);
        }
        let n = tokens.len();
        let mut k: usize = 0;
        while k < n
            invariant
                self.wf(),
                n == tokens@.len(),
                views_of(tokens@) == toks,
                forall|j: int| 0 <= j < toks.len() ==> token_shaped(#[trigger] toks[j]),
                k <= n,
                train_spec(old(self).words(), toks) == train_spec(
                    self.words(),
                    toks.skip(k as int),
                ),
                self.epoch() == old(self).epoch(),
            decreases n - k,
        {
            let ghost pre = self.words();
            proof {
                assert(toks[k as int] == tokens@[k as int]@);
            }
            self.add_occurrence(&tokens[k]);
            proof {
                assert(toks.skip(k as int)[0] == toks[k as int]);
                assert(toks.skip(k as int).skip(1) =~= toks.skip(k as int + 1));
                assert(train_spec(pre, toks.skip(k as int)) == train_spec(
                    self.words(),
                    toks.skip(k as int + 1),
                ));
            }
            k += 1;
        }
        proof {
            assert(toks.skip(n as int) =~= Seq::<Seq<char>>::empty());
        }
    }

    /// Checks a text: returns the reportable tokens that are not in the
    /// dictionary, in order of appearance; when there is none to report,
    /// that is signalled as `NoRegexMatches`. The dictionary does not
    /// change. No reported word is a dictionary key, and every reported
    /// word is made of letters only.
    pub fn check(&mut self, text: &str) -> (r: Result<Vec<String>, Error>)
        requires
            old(self).wf(),
        ensures
            *final(self) == *old(self),
            ({
                let rep = check_spec(old(self).words(), spec_tokens(spec_normalize(text@)));
                &&& (rep.len() == 0 <==> r is Err)
                &&& (r matches Err(e) ==> e == Error::NoRegexMatches)
                &&& (r matches Ok(v) ==> views_of(v@) == rep)
            }),
            r matches Ok(v) ==> forall|i: int|
                0 <= i < v@.len() ==> !old(self).words().contains_key(#[trigger] v@[i]@),
            r matches Ok(v) ==> forall|i: int|
                0 <= i < v@.len() ==> reportable(#[trigger] v@[i]@),
    {
        let tokens = tokenize(text);
        let ghost toks = spec_tokens(spec_normalize(text@));
        let ghost m = self.words();
        proof {
            assert(toks.skip(0) =~= toks);
            assert(views_of(Seq::<String>::empty()) =~= Seq::<Seq<char>>::empty());
        }
        let n = tokens.len();
        let mut out: Vec<String> = Vec::new();
        let mut k: usize = 0;
        while k < n
            invariant
                self.wf(),
                *self == *old(self),
                m == self.words(),
                n == tokens@.len(),
                views_of(tokens@) == toks,
                k <= n,
                check_spec(m, toks) == views_of(out@) + check_spec(m, toks.skip(k as int)),
            decreases n - k,
        {
            let w = &tokens[k];
            proof {
                assert(toks[k as int] == w@);
                assert(toks.skip(k as int)[0] == toks[k as int]);
                assert(toks.skip(k as int).skip(1) =~= toks.skip(k as int + 1));
            }
            let report = is_reportable(w);
            if report {
                match self.find_word(w) {
                    Some(_) => {
                        proof {
                            lemma_map_of_contains(self.entry_seq(), w@);
                            assert(views_of(out@) + check_spec(m, toks.skip(k as int + 1))
                                =~= views_of(out@) + check_spec(m, toks.skip(k as int)));
                        }
                    },
                    None => {
                        proof {
                            lemma_map_of_contains(self.entry_seq(), w@);
                        }
                        out.push(w.clone());
                        proof {
                            assert(views_of(out@) =~= views_of(out@.drop_last()).push(w@));
                            assert(views_of(out@) + check_spec(m, toks.skip(k as int + 1))
                                =~= views_of(out@.drop_last()) + check_spec(
                                m,
                                toks.skip(k as int),
                            ));
                        }
                    },
                }
            } else {
                proof {
                    assert(views_of(out@) + check_spec(m, toks.skip(k as int + 1)) =~= views_of(
                        out@,
                    ) + check_spec(m, toks.skip(k as int)));
                }
            }
            k += 1;
        }
        proof {
            assert(toks.skip(n as int) =~= Seq::<Seq<char>>::empty());
            assert(check_spec(m, toks) =~= views_of(out@));
            lemma_check_spec_sound(m, toks);
        }
        if out.len() == 0 {
            Err(Error::NoRegexMatches)
        } else {
            proof {
                assert forall|i: int| 0 <= i < out@.len() implies !old(self).words().contains_key(
                    #[trigger] out@[i]@,
                ) && reportable(out@[i]@) by {
                    assert(check_spec(m, toks)[i] == out@[i]@);
                }
            }
            Ok(out)
        }
    }

    /// Raises the shared training-epoch counter by one. To be called
    /// once per completed training run.
    pub fn increase_training_count(&mut self)
        requires
            old(self).epoch() < u32::MAX,
        ensures
            final(self).epoch() == old(self).epoch() + 1,
            final(self).entry_seq() == old(self).entry_seq(),
            final(self).words() == old(self).words(),
            old(self).wf() ==> final(self).wf(),
    {
        self.training_count += 1;
    }

    /// The current training-epoch counter.
    pub fn training_count(&self) -> (r: u32)
        ensures
            r == self.epoch(),
    {
        self.training_count
    }

    /// The count recorded for a word, zero when the word is absent.
    pub fn word_count(&self, w: &String) -> (r: u32)
        requires
            self.wf(),
        ensures
            r == count_of(self.words(), w@),
    {
        match self.find_word(w) {
            Some(i) => {
                proof {
                    lemma_map_of_index(self.entry_seq(), i as int);
                }
                self.entries[i].count
            },
            None => {
                proof {
                    lemma_map_of_contains(self.entry_seq(), w@);
                }
                0
            },
        }
    }

    /// The entries as (word, count) pairs, in storage order.
    pub fn entries(&self) -> (r: Vec<(String, u32)>)
        ensures
            pair_views(r@) == self.entry_seq(),
    {
        let n = self.entries.len();
        let mut out: Vec<(String, u32)> = Vec::new();
        let mut k: usize = 0;
        while k < n
            invariant
                n == self.entries@.len(),
                k <= n,
                pair_views(out@) == self.entry_seq().take(k as int),
            decreases n - k,
        {
            let ghost pre = out@;
            let w = self.entries[k].word.clone();
            let c = self.entries[k].count;
            out.push((w, c));
            proof {
                assert(out@ == pre.push((w, c)));
                assert(pair_views(pre).len() == pre.len());
                assert(pre.len() == k as int);
                assert(w@ == self.entry_seq()[k as int].0);
                assert(c == self.entry_seq()[k as int].1);
                assert forall|j: int| 0 <= j < k + 1 implies pair_views(out@)[j]
                    == self.entry_seq().take(k as int + 1)[j] by {
                    if j < k {
                        assert(pair_views(pre)[j] == self.entry_seq().take(k as int)[j]);
                        assert(out@[j] == pre[j]);
                    } else {
                        assert(out@[j] == (w, c));
                    }
                }
                assert(pair_views(out@) =~= self.entry_seq().take(k as int + 1));
            }
            k += 1;
        }
        proof {
            assert(self.entry_seq().take(n as int) =~= self.entry_seq());
        }
        out
    }

    /// The entries whose count does not exceed the threshold, in order:
    /// the rarely-seen part of the dictionary.
    pub fn entries_with_threshold(&self, threshold: u32) -> (r: Vec<(String, u32)>)
        ensures
            pair_views(r@) == retained(self.entry_seq(), threshold),
    {
        let ghost es = self.entry_seq();
        let n = self.entries.len();
        let mut out: Vec<(String, u32)> = Vec::new();
        let mut k: usize = 0;
        proof {
            assert(es.skip(0) =~= es);
            assert(pair_views(out@) + retained(es, threshold) =~= retained(es, threshold));
        }
        while k < n
            invariant
                n == self.entries@.len(),
                k <= n,
                es == self.entry_seq(),
                retained(es, threshold) == pair_views(out@) + retained(
                    es.skip(k as int),
                    threshold,
                ),
            decreases n - k,
        {
            let ghost pre = out@;
            proof {
                assert(es.skip(k as int)[0] == es[k as int]);
                assert(es.skip(k as int).skip(1) =~= es.skip(k as int + 1));
            }
            if self.entries[k].count <= threshold {
                out.push((self.entries[k].word.clone(), self.entries[k].count));
                proof {
                    assert(pair_views(out@) =~= pair_views(pre).push(es[k as int]));
                    assert(pair_views(out@) + retained(es.skip(k as int + 1), threshold)
                        =~= pair_views(pre) + retained(es.skip(k as int), threshold));
                }
            } else {
                proof {
                    assert(pair_views(out@) + retained(es.skip(k as int + 1), threshold)
                        =~= pair_views(pre) + retained(es.skip(k as int), threshold));
                }
            }
            k += 1;
        }
        proof {
            assert(es.skip(n as int) =~= Seq::<(Seq<char>, u32)>::empty());
            assert(retained(es.skip(n as int), threshold) =~= Seq::<(Seq<char>, u32)>::empty());
            assert(pair_views(out@) =~= retained(es, threshold));
        }
        out
    }

    /// Checks many texts in one run: the unmatched words of each text,
    /// concatenated in order. A text with nothing to report contributes
    /// nothing. The dictionary does not change.
    pub fn collect_unmatched(&mut self, texts: &Vec<String>) -> (r: Vec<String>)
        requires
            old(self).wf(),
        ensures
            *final(self) == *old(self),
            views_of(r@) == collect_spec(old(self).words(), views_of(texts@)),
    {
        let ghost m = old(self).words();
        let ghost ts = views_of(texts@);
        let n = texts.len();
        let mut out: Vec<String> = Vec::new();
        let mut k: usize = 0;
        proof {
            assert(ts.skip(0) =~= ts);
            assert(views_of(out@) + collect_spec(m, ts) =~= collect_spec(m, ts));
        }
        while k < n
            invariant
                old(self).wf(),
                *self == *old(self),
                m == self.words(),
                n == texts@.len(),
                ts == views_of(texts@),
                k <= n,
                collect_spec(m, ts) == views_of(out@) + collect_spec(m, ts.skip(k as int)),
            decreases n - k,
        {
            let ghost pre = out@;
            proof {
                assert(ts.skip(k as int)[0] == ts[k as int]);
                assert(ts[k as int] == texts@[k as int]@);
                assert(ts.skip(k as int).skip(1) =~= ts.skip(k as int + 1));
            }
            let ghost rep = check_spec(m, spec_tokens(spec_normalize(texts@[k as int]@)));
            match self.check(texts[k].as_str()) {
                Ok(mut found) => {
                    proof {
                        assert(views_of(found@) == rep);
                    }
                    let ghost f = found@;
                    out.append(&mut found);
                    proof {
                        assert(out@ == pre + f);
                        assert(views_of(out@) =~= views_of(pre) + views_of(f));
                        assert(views_of(out@) + collect_spec(m, ts.skip(k as int + 1))
                            =~= views_of(pre) + collect_spec(m, ts.skip(k as int)));
                    }
                },
                Err(_) => {
                    proof {
                        assert(rep.len() == 0);
                        assert(rep =~= Seq::<Seq<char>>::empty());
                        assert(views_of(out@) + collect_spec(m, ts.skip(k as int + 1))
                            =~= views_of(out@) + collect_spec(m, ts.skip(k as int)));
                    }
                },
            }
            k += 1;
        }
        proof {
            assert(ts.skip(n as int) =~= Seq::<Seq<char>>::empty());
            assert(collect_spec(m, ts.skip(n as int)) =~= Seq::<Seq<char>>::empty());
            assert(views_of(out@) =~= collect_spec(m, ts));
        }
        out
    }

    /// Sets the count recorded for a token-shaped word.
    fn set_count(&mut self, w: &String, c: u32)
        requires
            old(self).wf(),
            token_shaped(w@),
        ensures
            final(self).wf(),
            final(self).words() == old(self).words().insert(w@, c),
            final(self).epoch() == old(self).epoch(),
    {
        match self.find_word(w) {
            Some(i) => {
                proof {
                    lemma_map_of_index(self.entry_seq(), i as int);
                    lemma_map_of_update(self.entry_seq(), i as int, c);
                }
                self.entries[i] = WordCount { word: w.clone(), count: c };
                proof {
                    assert(self.entry_seq() =~= old(self).entry_seq().update(
                        i as int,
                        (w@, c),
                    ));
                    assert(final(self).words() =~= old(self).words().insert(w@, c));
                }
            },
            None => {
                proof {
                    lemma_map_of_contains(self.entry_seq(), w@);
                }
                self.entries.push(WordCount { word: w.clone(), count: c });
                proof {
                    assert(self.entry_seq() =~= old(self).entry_seq().push((w@, c)));
                    assert(self.entry_seq().drop_last() =~= old(self).entry_seq());
                    assert(final(self).words() =~= old(self).words().insert(w@, c));
                }
            },
        }
    }

    /// The persisted form of the dictionary: a header line, then one
    /// comma-separated row per entry, each row carrying the word, its
    /// count and the shared epoch, every line newline-terminated.
    pub fn to_stored(&self) -> (r: String)
        requires
            self.wf(),
        ensures
            r@ == encode_spec(self.entry_seq(), self.epoch()),
    {
        let ghost es = self.entry_seq();
        let ghost e = self.epoch();
        let mut out: Vec<char> = str_to_chars("word,instances,training_count");
        out.push('\n');
        proof {
            assert(es.skip(0) =~= es);
            assert(out@ =~= header() + seq!['\n']);
            assert(encode_spec(es, e) =~= out@ + encode_rows(es, e));
        }
        let n = self.entries.len();
        let mut k: usize = 0;
        while k < n
            invariant
                self.wf(),
                n == self.entries@.len(),
                k <= n,
                es == self.entry_seq(),
                e == self.epoch(),
                encode_spec(es, e) == out@ + encode_rows(es.skip(k as int), e),
            decreases n - k,
        {
            let ghost pre = out@;
            let mut wchars = str_to_chars(self.entries[k].word.as_str());
            out.append(&mut wchars);
            out.push(',');
            let mut cchars = u32_to_chars(self.entries[k].count);
            out.append(&mut cchars);
            out.push(',');
            let mut echars = u32_to_chars(self.training_count);
            out.append(&mut echars);
            out.push('\n');
            proof {
                assert(es[k as int] == (
                    self.entries@[k as int].word@,
                    self.entries@[k as int].count,
                ));
                assert(out@ =~= pre + row_of(es[k as int].0, es[k as int].1, e) + seq!['\n']);
                assert(es.skip(k as int)[0] == es[k as int]);
                assert(es.skip(k as int).skip(1) =~= es.skip(k as int + 1));
                assert(encode_rows(es.skip(k as int), e) == row_of(
                    es[k as int].0,
                    es[k as int].1,
                    e,
                ) + seq!['\n'] + encode_rows(es.skip(k as int + 1), e));
                assert(out@ + encode_rows(es.skip(k as int + 1), e) =~= pre + encode_rows(
                    es.skip(k as int),
                    e,
                ));
            }
            k += 1;
        }
        proof {
            assert(es.skip(n as int) =~= Seq::<(Seq<char>, u32)>::empty());
            assert(encode_rows(es.skip(n as int), e) =~= Seq::<char>::empty());
            assert(out@ =~= encode_spec(es, e));
        }
        chars_to_string(&out)
    }

    /// Loads a dictionary from its persisted form. An empty file yields
    /// an empty store with epoch zero; otherwise the file must open
    /// with the header line and end with a newline, and every further
    /// line must be a well-shaped row, else the load fails. Empty-word
    /// placeholder rows add no entry; the epoch of the last row wins.
    pub fn from_stored(contents: &str) -> (r: Result<SpellChecker, Error>)
        ensures
            match parse_spec(contents@) {
                Option::Some((m, e)) => r matches Ok(c) && c.wf() && c.words() == m && c.epoch()
                    == e,
                Option::None => r matches Err(err) && err == Error::MalformedRecord,
            },
    {
        let mut cs = str_to_chars(contents);
        if cs.len() == 0 {
            return Ok(SpellChecker::new());
        }
        let ghost full = cs@;
        let last = cs[cs.len() - 1];
        if last != '\n' {
            return Err(Error::MalformedRecord);
        }
        cs.pop();
        proof {
            assert(cs@ =~= full.drop_last());
            crate::storage::lemma_split_on_len(full.drop_last(), '\n');
        }
        let lines = split_chars(&cs, '\n');
        let hdr = str_to_chars("word,instances,training_count");
        let ghost lviews = vec_views(lines@);
        proof {
            assert(lviews[0] == lines@[0]@);
        }
        if !chars_eq(&lines[0], &hdr) {
            proof {
                assert(lviews[0] != header());
            }
            return Err(Error::MalformedRecord);
        }
        proof {
            assert(lviews[0] == header());
        }
        let mut chk = SpellChecker::new();
        let mut ep: u32 = 0;
        let nl = lines.len();
        let mut k: usize = 1;
        #[verifier::loop_isolation(false)]
        while k < nl
            invariant
                1 <= k <= nl,
                nl == lines@.len(),
                lviews == vec_views(lines@),
                chk.wf(),
                parse_rows(Map::empty(), 0, lviews.skip(1)) == parse_rows(
                    chk.words(),
                    ep,
                    lviews.skip(k as int),
                ),
            decreases nl - k,
        {
            proof {
                assert(lviews.skip(k as int)[0] == lviews[k as int]);
                assert(lviews.skip(k as int).skip(1) =~= lviews.skip(k as int + 1));
                assert(lviews[k as int] == lines@[k as int]@);
            }
            let fields = split_chars(&lines[k], ',');
            proof {
                assert(fields@.len() == vec_views(fields@).len());
            }
            if fields.len() != 3 {
                proof {
                    assert(parse_row(lviews[k as int]) is None);
                    assert(parse_rows(chk.words(), ep, lviews.skip(k as int)) is None);
                    assert(parse_rows(Map::empty(), 0, lviews.skip(1)) is None);
                }
                return Err(Error::MalformedRecord);
            }
            proof {
                assert(vec_views(fields@)[0] == fields@[0]@);
                assert(vec_views(fields@)[1] == fields@[1]@);
                assert(vec_views(fields@)[2] == fields@[2]@);
            }
            let word_empty = fields[0].len() == 0;
            if !word_empty && !is_token_shaped(&fields[0]) {
                proof {
                    assert(parse_row(lviews[k as int]) is None);
                    assert(parse_rows(chk.words(), ep, lviews.skip(k as int)) is None);
                }
                return Err(Error::MalformedRecord);
            }
            let cv = match chars_to_u32(&fields[1]) {
                Some(x) => x,
                None => {
                    proof {
                        assert(parse_row(lviews[k as int]) is None);
                        assert(parse_rows(chk.words(), ep, lviews.skip(k as int)) is None);
                    }
                    return Err(Error::MalformedRecord);
                },
            };
            let ev = match chars_to_u32(&fields[2]) {
                Some(x) => x,
                None => {
                    proof {
                        assert(parse_row(lviews[k as int]) is None);
                        assert(parse_rows(chk.words(), ep, lviews.skip(k as int)) is None);
                    }
                    return Err(Error::MalformedRecord);
                },
            };
            proof {
                assert(parse_row(lviews[k as int]) == Option::Some((fields@[0]@, cv, ev)));
            }
            if !word_empty {
                let wstr = chars_to_string(&fields[0]);
                chk.set_count(&wstr, cv);
            }
            ep = ev;
            k += 1;
        }
        proof {
            assert(lviews.skip(nl as int) =~= Seq::<Seq<char>>::empty());
        }
        chk.training_count = ep;
        Ok(chk)
    }
}

/// Whether two character vectors hold the same characters.
fn chars_eq(a: &Vec<char>, b: &Vec<char>) -> (r: bool)
    ensures
        r == (a@ == b@),
{
    let n = a.len();
    if n != b.len() {
        return false;
    }
    let mut i: usize = 0;
    while i < n
        invariant
            n == a@.len(),
            n == b@.len(),
            i <= n,
            forall|j: int| 0 <= j < i ==> a@[j] == b@[j],
        decreases n - i,
    {
        if a[i] != b[i] {
            return false;
        }
        i += 1;
    }
    proof {
        assert(a@ =~= b@);
    }
    true
}

/// True when a token would be reported if unknown: not purely numeric,
/// every character a letter, and not empty.
fn is_reportable(w: &String) -> (r: bool)
    ensures
        r == reportable(w@),
{
    let s = w.as_str();
    let n = s.unicode_len();
    if n == 0 {
        return false;
    }
    let mut all_alpha = true;
    let mut all_digit = true;
    let mut i: usize = 0;
    while i < n
        invariant
            n == s@.len(),
            i <= n,
            all_alpha == (forall|j: int| 0 <= j < i ==> is_alpha_char(s@[j])),
            all_digit == (forall|j: int| 0 <= j < i ==> is_digit_char(s@[j])),
        decreases n - i,
    {
        let c = s.get_char(i);
        if !crate::chars::is_alpha_char_exec(c) {
            all_alpha = false;
        }
        if !crate::chars::is_digit_char_exec(c) {
            all_digit = false;
        }
        i += 1;
    }
    all_alpha && !all_digit
}

} // verus!

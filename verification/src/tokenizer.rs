use vstd::prelude::*;

use crate::chars::{
    chars_to_string, is_upper_char, is_word_char, is_word_char_exec, normalize, spec_normalize,
};

verus! {

/// Length of the longest prefix of `s` made of word characters.
pub open spec fn run_len(s: Seq<char>) -> nat
    decreases s.len(),
{
    if s.len() == 0 || !is_word_char(s[0]) {
        0
    } else {
        1 + run_len(s.skip(1))
    }
}

pub proof fn lemma_run_len_le(s: Seq<char>)
    ensures
        run_len(s) <= s.len(),
    decreases s.len(),
{
    if s.len() == 0 || !is_word_char(s[0]) {
    } else {
        lemma_run_len_le(s.skip(1));
    }
}

/// Every character inside the initial run is a word character.
pub proof fn lemma_run_len_chars(s: Seq<char>)
    ensures
        forall|j: int| 0 <= j < run_len(s) ==> is_word_char(s[j]),
    decreases s.len(),
{
    if s.len() == 0 || !is_word_char(s[0]) {
    } else {
        lemma_run_len_le(s.skip(1));
        lemma_run_len_chars(s.skip(1));
        assert forall|j: int| 0 <= j < run_len(s) implies is_word_char(s[j]) by {
            if j > 0 {
                assert(is_word_char(s.skip(1)[j - 1]));
            }
        }
    }
}

/// The initial run is maximal: if the first `m` characters are word
/// characters and the run stops at `m`, its length is exactly `m`.
pub proof fn lemma_run_len_exact(s: Seq<char>, m: int)
    requires
        0 <= m <= s.len(),
        forall|j: int| 0 <= j < m ==> is_word_char(s[j]),
        m == s.len() || !is_word_char(s[m]),
    ensures
        run_len(s) == m,
    decreases m,
{
    if m == 0 {
    } else {
        assert(is_word_char(s[0]));
        lemma_run_len_exact(s.skip(1), m - 1);
    }
}

/// The tokens of a text: the maximal runs of word characters, in order
/// of appearance.
pub open spec fn spec_tokens(s: Seq<char>) -> Seq<Seq<char>>
    decreases s.len(),
    via spec_tokens_decreases
{
    if s.len() == 0 {
        Seq::empty()
    } else if !is_word_char(s[0]) {
        spec_tokens(s.skip(1))
    } else {
        seq![s.take(run_len(s) as int)] + spec_tokens(s.skip(run_len(s) as int))
    }
}

#[via_fn]
proof fn spec_tokens_decreases(s: Seq<char>) {
    lemma_run_len_le(s);
}

/// The views of a sequence of strings.
pub open spec fn views_of(ss: Seq<String>) -> Seq<Seq<char>> {
    Seq::new(ss.len(), |i: int| ss[i]@)
}

/// A word as the tokenizer shapes it: non-empty, made of word
/// characters, with no ASCII uppercase letter left in it.
pub open spec fn token_shaped(w: Seq<char>) -> bool {
    w.len() > 0 && forall|j: int| 0 <= j < w.len() ==> is_word_char(w[j]) && !is_upper_char(w[j])
}

/// Every token of a text without ASCII uppercase letters is a
/// non-empty, lowercase run of word characters.
pub proof fn lemma_tokens_shape(s: Seq<char>)
    requires
        forall|i: int| 0 <= i < s.len() ==> !is_upper_char(s[i]),
    ensures
        forall|k: int| 0 <= k < spec_tokens(s).len() ==> token_shaped(#[trigger] spec_tokens(s)[k]),
    decreases s.len(),
{
    if s.len() == 0 {
        assert(spec_tokens(s).len() == 0);
    } else if !is_word_char(s[0]) {
        assert(forall|i: int| 0 <= i < s.skip(1).len() ==> !is_upper_char(s.skip(1)[i]));
        lemma_tokens_shape(s.skip(1));
        assert(spec_tokens(s) == spec_tokens(s.skip(1)));
        assert(forall|k: int|
            0 <= k < spec_tokens(s).len() ==> token_shaped(#[trigger] spec_tokens(s)[k]));
    } else {
        let r = run_len(s) as int;
        lemma_run_len_le(s);
        lemma_run_len_chars(s);
        assert(forall|i: int| 0 <= i < s.skip(r).len() ==> !is_upper_char(s.skip(r)[i]));
        lemma_tokens_shape(s.skip(r));
        assert forall|k: int| 0 <= k < spec_tokens(s).len() implies token_shaped(
            #[trigger] spec_tokens(s)[k],
        ) by {
            if k == 0 {
                let t = spec_tokens(s)[0];
                assert(run_len(s) >= 1);
                assert(t =~= s.take(r));
                assert forall|j: int| 0 <= j < t.len() implies is_word_char(t[j]) && !is_upper_char(
                    t[j],
                ) by {
                    assert(t[j] == s[j]);
                    assert(is_word_char(s[j]));
                    assert(!is_upper_char(s[j]));
                }
            } else {
                assert(spec_tokens(s)[k] == spec_tokens(s.skip(r))[k - 1]);
            }
        }
    }
}

/// The tokens of a normalized text are all token-shaped.
pub proof fn lemma_normalized_tokens_shaped(s: Seq<char>)
    ensures
        forall|k: int|
            0 <= k < spec_tokens(spec_normalize(s)).len() ==> token_shaped(
                #[trigger] spec_tokens(spec_normalize(s))[k],
            ),
{
    assert forall|i: int| 0 <= i < spec_normalize(s).len() implies !is_upper_char(
        spec_normalize(s)[i],
    ) by {
        crate::chars::lemma_norm_char_not_upper(s[i]);
    }
    lemma_tokens_shape(spec_normalize(s));
}

/// Whether the characters form a token-shaped word.
pub fn is_token_shaped(v: &Vec<char>) -> (r: bool)
    ensures
        r == token_shaped(v@),
{
    let n = v.len();
    if n == 0 {
        return false;
    }
    let mut i: usize = 0;
    while i < n
        invariant
            n == v@.len(),
            i <= n,
            forall|j: int|
                0 <= j < i ==> is_word_char(#[trigger] v@[j]) && !is_upper_char(v@[j]),
        decreases n - i,
    {
        let c = v[i];
        if !is_word_char_exec(c) || crate::chars::is_upper_char_exec(c) {
            return false;
        }
        i += 1;
    }
    true
}

/// Extracts the tokens of `text` after normalization: the text is
/// lowercased, the right single-quotation mark becomes an apostrophe,
/// and each maximal run of word characters is one token, left to right.
/// The result is a function of `text` alone.
pub fn tokenize(text: &str) -> (tokens: Vec<String>)
    ensures
        views_of(tokens@) == spec_tokens(spec_normalize(text@)),
{
    let cs = normalize(text);
    let n = cs.len();
    let ghost full = cs@;
    let mut tokens: Vec<String> = Vec::new();
    let mut i: usize = 0;
    proof {
        assert(full.skip(0) =~= full);
        assert(views_of(tokens@) + spec_tokens(full) =~= spec_tokens(full));
    }
    while i < n
        invariant
            n == cs@.len(),
            cs@ == full,
            i <= n,
            spec_tokens(full) == views_of(tokens@) + spec_tokens(full.skip(i as int)),
        decreases n - i,
    {
        if !is_word_char_exec(cs[i]) {
            proof {
                assert(full.skip(i as int).skip(1) =~= full.skip(i + 1));
            }
            i += 1;
        } else {
            let start = i;
            let mut j = i + 1;
            while j < n && is_word_char_exec(cs[j])
                invariant
                    n == cs@.len(),
                    cs@ == full,
                    start < j <= n,
                    forall|k: int| start <= k < j ==> is_word_char(full[k]),
                decreases n - j,
            {
                j += 1;
            }
            let mut word: Vec<char> = Vec::new();
            let mut p = start;
            while p < j
                invariant
                    n == cs@.len(),
                    cs@ == full,
                    start <= p <= j <= n,
                    word@ == full.subrange(start as int, p as int),
                decreases j - p,
            {
                word.push(cs[p]);
                p += 1;
                proof {
                    assert(word@ =~= full.subrange(start as int, p as int));
                }
            }
            let token = chars_to_string(&word);
            tokens.push(token);
            proof {
                let rest = full.skip(start as int);
                assert(forall|k: int| 0 <= k < j - start ==> is_word_char(rest[k]));
                lemma_run_len_exact(rest, j - start);
                assert(spec_tokens(rest) == seq![rest.take(j - start)] + spec_tokens(
                    rest.skip(j - start),
                ));
                assert(rest.take(j - start) =~= full.subrange(start as int, j as int));
                assert(rest.skip(j - start) =~= full.skip(j as int));
                assert(views_of(tokens@) =~= views_of(tokens@.drop_last()).push(
                    full.subrange(start as int, j as int),
                ));
                assert(views_of(tokens@) + spec_tokens(full.skip(j as int)) =~= (views_of(
                    tokens@.drop_last(),
                ) + spec_tokens(full.skip(start as int))));
            }
            i = j;
        }
    }
    proof {
        assert(full.skip(n as int) =~= Seq::<char>::empty());
        assert(views_of(tokens@) + spec_tokens(full.skip(n as int)) =~= views_of(tokens@));
    }
    tokens
}

} // verus!

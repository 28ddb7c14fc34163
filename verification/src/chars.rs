use vstd::prelude::*;

verus! {

/// True for characters the tokenizer treats as part of a word:
/// ASCII letters, apostrophe, right parenthesis, hyphen and backslash.
pub open spec fn is_word_char(c: char) -> bool {
    ('a' <= c && c <= 'z') || ('A' <= c && c <= 'Z') || c == '\'' || c == ')' || c == '-'
        || c == '\\'
}

/// An ASCII letter.
pub open spec fn is_alpha_char(c: char) -> bool {
    ('a' <= c && c <= 'z') || ('A' <= c && c <= 'Z')
}

/// An ASCII decimal digit.
pub open spec fn is_digit_char(c: char) -> bool {
    '0' <= c && c <= '9'
}

/// An ASCII uppercase letter.
pub open spec fn is_upper_char(c: char) -> bool {
    'A' <= c && c <= 'Z'
}

/// ASCII lowercasing of a single character; other characters are unchanged.
pub open spec fn lower_char(c: char) -> char {
    if is_upper_char(c) {
        (((c as u8) + 32) as char)
    } else {
        c
    }
}

/// Normalization applied to every input character before tokenization:
/// the right single-quotation mark becomes a plain apostrophe, and
/// ASCII letters are lowercased.
pub open spec fn norm_char(c: char) -> char {
    if c == '\u{2019}' {
        '\''
    } else {
        lower_char(c)
    }
}

/// Normalization of a whole text, character by character.
pub open spec fn spec_normalize(s: Seq<char>) -> Seq<char> {
    s.map_values(|c: char| norm_char(c))
}

/// A normalized character is never an ASCII uppercase letter.
pub proof fn lemma_norm_char_not_upper(c: char)
    ensures
        !is_upper_char(norm_char(c)),
{
}

pub fn is_word_char_exec(c: char) -> (r: bool)
    ensures
        r == is_word_char(c),
{
    ('a' <= c && c <= 'z') || ('A' <= c && c <= 'Z') || c == '\'' || c == ')' || c == '-'
        || c == '\\'
}

pub fn is_alpha_char_exec(c: char) -> (r: bool)
    ensures
        r == is_alpha_char(c),
{
    ('a' <= c && c <= 'z') || ('A' <= c && c <= 'Z')
}

pub fn is_upper_char_exec(c: char) -> (r: bool)
    ensures
        r == is_upper_char(c),
{
    'A' <= c && c <= 'Z'
}

pub fn is_digit_char_exec(c: char) -> (r: bool)
    ensures
        r == is_digit_char(c),
{
    '0' <= c && c <= '9'
}

fn norm_char_exec(c: char) -> (r: char)
    ensures
        r == norm_char(c),
{
    if c == '\u{2019}' {
        '\''
    } else if 'A' <= c && c <= 'Z' {
        ((c as u8) + 32) as char
    } else {
        c
    }
}

/// The characters of a text, normalized for tokenization.
pub fn normalize(text: &str) -> (r: Vec<char>)
    ensures
        r@ == spec_normalize(text@),
{
    let n = text.unicode_len();
    let mut out: Vec<char> = Vec::new();
    let mut i: usize = 0;
    while i < n
        invariant
            n == text@.len(),
            i <= n,
            out@ == spec_normalize(text@).subrange(0, i as int),
        decreases n - i,
    {
        let c = text.get_char(i);
        out.push(norm_char_exec(c));
        i += 1;
        proof {
            assert(out@ =~= spec_normalize(text@).subrange(0, i as int));
        }
    }
    proof {
        assert(out@ =~= spec_normalize(text@));
    }
    out
}

/// The characters of a text, unchanged.
pub fn str_to_chars(text: &str) -> (r: Vec<char>)
    ensures
        r@ == text@,
{
    let n = text.unicode_len();
    let mut out: Vec<char> = Vec::new();
    let mut i: usize = 0;
    while i < n
        invariant
            n == text@.len(),
            i <= n,
            out@ == text@.subrange(0, i as int),
        decreases n - i,
    {
        out.push(text.get_char(i));
        i += 1;
        proof {
            assert(out@ =~= text@.subrange(0, i as int));
        }
    }
    proof {
        assert(out@ =~= text@);
    }
    out
}

/// Relies on std's String::push: appends the given character to the
/// end of the string.
#[verifier::external_body]
fn push_char(s: &mut String, c: char)
    ensures
        final(s)@ == old(s)@.push(c),
{
    s.push(c);
}

/// A string holding exactly the given characters.
pub fn chars_to_string(v: &Vec<char>) -> (r: String)
    ensures
        r@ == v@,
{
    let mut out = String::new();
    let mut i: usize = 0;
    let n = v.len();
    while i < n
        invariant
            n == v@.len(),
            i <= n,
            out@ == v@.subrange(0, i as int),
        decreases n - i,
    {
        push_char(&mut out, v[i]);
        i += 1;
        proof {
            assert(out@ =~= v@.subrange(0, i as int));
        }
    }
    proof {
        assert(out@ =~= v@);
    }
    out
}

} // verus!

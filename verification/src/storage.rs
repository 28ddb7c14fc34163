use vstd::prelude::*;

use crate::chars::{is_digit_char, is_word_char};
use crate::checker::map_of;
use crate::tokenizer::token_shaped;

verus! {

// ---------------------------------------------------------------------
// Decimal representation of counters.
// ---------------------------------------------------------------------
/// The decimal digit character for a value below ten.
pub open spec fn digit_char(d: int) -> char {
    (((48 + d) as u8) as char)
}

/// The decimal representation of a number, most significant digit first,
/// without leading zeros.
pub open spec fn dec_rep(n: nat) -> Seq<char>
    decreases n,
{
    if n < 10 {
        seq![digit_char(n as int)]
    } else {
        dec_rep(n / 10).push(digit_char((n % 10) as int))
    }
}

/// The numeric value of a digit character, zero for any other character.
pub open spec fn digit_of(c: char) -> nat {
    if is_digit_char(c) {
        (c as u32 - 48) as nat
    } else {
        0
    }
}

/// A non-empty, all-digit sequence.
pub open spec fn is_digits(s: Seq<char>) -> bool {
    s.len() > 0 && forall|i: int| 0 <= i < s.len() ==> is_digit_char(#[trigger] s[i])
}

/// The value a digit sequence denotes.
pub open spec fn digits_val(s: Seq<char>) -> nat
    decreases s.len(),
{
    if s.len() == 0 {
        0
    } else {
        digits_val(s.drop_last()) * 10 + digit_of(s.last())
    }
}

/// Printing a number yields digits, and reading them back yields the
/// same number.
pub proof fn lemma_dec_rep_val(n: nat)
    ensures
        is_digits(dec_rep(n)),
        digits_val(dec_rep(n)) == n,
    decreases n,
{
    if n < 10 {
        assert(digit_char(n as int) as u32 == 48 + n);
        assert(is_digit_char(digit_char(n as int)));
        assert(dec_rep(n).drop_last() =~= Seq::<char>::empty());
        assert(digits_val(Seq::<char>::empty()) == 0);
        assert(dec_rep(n).last() == digit_char(n as int));
        assert(digits_val(dec_rep(n)) == digit_of(digit_char(n as int)));
    } else {
        lemma_dec_rep_val(n / 10);
        let s = dec_rep(n);
        assert(s.drop_last() =~= dec_rep(n / 10));
        assert(is_digit_char(digit_char((n % 10) as int)));
        assert(digits_val(s) == (n / 10) * 10 + n % 10);
        assert((n / 10) * 10 + n % 10 == n) by {
            vstd::arithmetic::div_mod::lemma_fundamental_div_mod(n as int, 10);
        }
        assert forall|i: int| 0 <= i < s.len() implies is_digit_char(#[trigger] s[i]) by {
            if i < s.len() - 1 {
                assert(s[i] == dec_rep(n / 10)[i]);
            }
        }
    }
}

/// A digit sequence is worth at least as much as any of its prefixes.
pub proof fn lemma_digits_val_prefix(s: Seq<char>, i: int)
    requires
        0 <= i <= s.len(),
    ensures
        digits_val(s) >= digits_val(s.take(i)),
    decreases s.len(),
{
    if i == s.len() {
        assert(s.take(i) =~= s);
    } else {
        assert(s.drop_last().take(i) =~= s.take(i));
        lemma_digits_val_prefix(s.drop_last(), i);
        assert(digits_val(s.drop_last()) * 10 >= digits_val(s.drop_last())) by (nonlinear_arith);
    }
}

/// The decimal digits of a counter value.
pub fn u32_to_chars(n: u32) -> (r: Vec<char>)
    ensures
        r@ == dec_rep(n as nat),
    decreases n,
{
    if n < 10 {
        let mut v: Vec<char> = Vec::new();
        v.push((48 + n as u8) as char);
        proof {
            assert(v@ =~= dec_rep(n as nat));
        }
        v
    } else {
        let mut v = u32_to_chars(n / 10);
        v.push((48 + (n % 10) as u8) as char);
        v
    }
}

/// Reads a counter value from a field: the value when the field is a
/// non-empty run of digits denoting a number that fits in 32 bits,
/// nothing otherwise.
pub fn chars_to_u32(v: &Vec<char>) -> (r: Option<u32>)
    ensures
        r is Some <==> is_digits(v@) && digits_val(v@) <= u32::MAX,
        r matches Some(x) ==> x == digits_val(v@),
{
    let n = v.len();
    if n == 0 {
        return None;
    }
    let mut acc: u32 = 0;
    let mut i: usize = 0;
    while i < n
        invariant
            n == v@.len(),
            i <= n,
            forall|j: int| 0 <= j < i ==> is_digit_char(#[trigger] v@[j]),
            acc == digits_val(v@.take(i as int)),
            acc <= u32::MAX,
        decreases n - i,
    {
        let c = v[i];
        if !crate::chars::is_digit_char_exec(c) {
            return None;
        }
        let d: u32 = (c as u32) - 48;
        let wide: u64 = (acc as u64) * 10 + (d as u64);
        proof {
            assert(v@.take(i as int + 1).drop_last() =~= v@.take(i as int));
            assert(v@.take(i as int + 1).last() == v@[i as int]);
            assert(digits_val(v@.take(i as int + 1)) == acc * 10 + d);
        }
        if wide > u32::MAX as u64 {
            proof {
                lemma_digits_val_prefix(v@, i as int + 1);
            }
            return None;
        }
        acc = wide as u32;
        i += 1;
    }
    proof {
        assert(v@.take(n as int) =~= v@);
    }
    Some(acc)
}

// ---------------------------------------------------------------------
// Splitting a text at a separator.
// ---------------------------------------------------------------------
/// The pieces of `s` between occurrences of `sep`: always one more
/// piece than separators, pieces may be empty.
pub open spec fn split_on(s: Seq<char>, sep: char) -> Seq<Seq<char>>
    decreases s.len(),
{
    if s.len() == 0 {
        seq![Seq::<char>::empty()]
    } else if s[0] == sep {
        seq![Seq::<char>::empty()] + split_on(s.skip(1), sep)
    } else {
        seq![seq![s[0]] + split_on(s.skip(1), sep)[0]] + split_on(s.skip(1), sep).skip(1)
    }
}

pub proof fn lemma_split_on_len(s: Seq<char>, sep: char)
    ensures
        split_on(s, sep).len() >= 1,
    decreases s.len(),
{
    if s.len() == 0 {
    } else {
        lemma_split_on_len(s.skip(1), sep);
    }
}

/// Prefixing a separator-free piece extends the first piece.
pub proof fn lemma_split_on_prefix(p: Seq<char>, r: Seq<char>, sep: char)
    requires
        forall|i: int| 0 <= i < p.len() ==> p[i] != sep,
    ensures
        split_on(p + r, sep) =~= seq![p + split_on(r, sep)[0]] + split_on(r, sep).skip(1),
    decreases p.len(),
{
    lemma_split_on_len(r, sep);
    if p.len() == 0 {
        assert(p + r =~= r);
        assert(p + split_on(r, sep)[0] =~= split_on(r, sep)[0]);
        assert(seq![split_on(r, sep)[0]] + split_on(r, sep).skip(1) =~= split_on(r, sep));
    } else {
        let s = p + r;
        assert(s.skip(1) =~= p.skip(1) + r);
        assert(forall|i: int| 0 <= i < p.skip(1).len() ==> p.skip(1)[i] != sep);
        lemma_split_on_prefix(p.skip(1), r, sep);
        assert(s[0] == p[0]);
        assert(s[0] != sep);
        assert(seq![s[0]] + split_on(s.skip(1), sep)[0] =~= p + split_on(r, sep)[0]);
        assert(split_on(s.skip(1), sep).skip(1) =~= split_on(r, sep).skip(1));
    }
}

/// A separator-free text is one single piece.
pub proof fn lemma_split_on_whole(p: Seq<char>, sep: char)
    requires
        forall|i: int| 0 <= i < p.len() ==> p[i] != sep,
    ensures
        split_on(p, sep) =~= seq![p],
    decreases p.len(),
{
    if p.len() == 0 {
        assert(p =~= Seq::<char>::empty());
    } else {
        lemma_split_on_whole(p.skip(1), sep);
        assert(split_on(p.skip(1), sep)[0] == p.skip(1));
        assert(seq![p[0]] + split_on(p.skip(1), sep)[0] =~= p);
        assert(split_on(p.skip(1), sep).skip(1) =~= Seq::<Seq<char>>::empty());
    }
}

/// Splitting after a separator-free piece and one separator peels off
/// exactly that piece.
pub proof fn lemma_split_on_piece(p: Seq<char>, r: Seq<char>, sep: char)
    requires
        forall|i: int| 0 <= i < p.len() ==> p[i] != sep,
    ensures
        split_on(p + seq![sep] + r, sep) =~= seq![p] + split_on(r, sep),
    decreases p.len(),
{
    lemma_split_on_len(r, sep);
    let tail = seq![sep] + r;
    assert(tail[0] == sep);
    assert(tail.skip(1) =~= r);
    assert(split_on(tail, sep) =~= seq![Seq::<char>::empty()] + split_on(r, sep));
    lemma_split_on_prefix(p, tail, sep);
    assert(p + seq![sep] + r =~= p + tail);
    assert(p + split_on(tail, sep)[0] =~= p);
    assert(split_on(tail, sep).skip(1) =~= split_on(r, sep));
}

/// The views of a sequence of character vectors.
pub open spec fn vec_views(vs: Seq<Vec<char>>) -> Seq<Seq<char>> {
    Seq::new(vs.len(), |i: int| vs[i]@)
}

/// Splits a text at every occurrence of the separator.
pub fn split_chars(v: &Vec<char>, sep: char) -> (r: Vec<Vec<char>>)
    ensures
        vec_views(r@) == split_on(v@, sep),
{
    let n = v.len();
    let ghost full = v@;
    let mut done: Vec<Vec<char>> = Vec::new();
    let mut cur: Vec<char> = Vec::new();
    let mut i: usize = 0;
    proof {
        lemma_split_on_len(full, sep);
        assert(full.skip(0) =~= full);
        assert(cur@ + split_on(full, sep)[0] =~= split_on(full, sep)[0]);
        assert(vec_views(done@) + seq![split_on(full, sep)[0]] + split_on(full, sep).skip(1)
            =~= split_on(full, sep));
    }
    while i < n
        invariant
            n == v@.len(),
            full == v@,
            i <= n,
            split_on(full, sep) == vec_views(done@) + seq![cur@ + split_on(
                full.skip(i as int),
                sep,
            )[0]] + split_on(full.skip(i as int), sep).skip(1),
        decreases n - i,
    {
        let ghost rest = split_on(full.skip(i as int), sep);
        let ghost rest2 = split_on(full.skip(i as int + 1), sep);
        proof {
            lemma_split_on_len(full.skip(i as int + 1), sep);
            assert(full.skip(i as int)[0] == full[i as int]);
            assert(full.skip(i as int).skip(1) =~= full.skip(i as int + 1));
        }
        let c = v[i];
        if c == sep {
            proof {
                assert(rest =~= seq![Seq::<char>::empty()] + rest2);
                assert(rest[0] =~= Seq::<char>::empty());
                assert(cur@ + rest[0] =~= cur@);
                assert(rest.skip(1) =~= rest2);
            }
            let ghost prev_done = done@;
            let ghost prev_cur = cur@;
            done.push(cur);
            cur = Vec::new();
            proof {
                assert(done@.drop_last() == prev_done);
                assert(done@.last()@ == prev_cur);
                assert(vec_views(done@) =~= vec_views(prev_done).push(prev_cur));
                assert(cur@ + rest2[0] =~= rest2[0]);
                assert(vec_views(prev_done).push(prev_cur) + seq![rest2[0]] + rest2.skip(1)
                    =~= vec_views(prev_done) + seq![prev_cur + rest[0]] + rest.skip(1));
                assert(split_on(full, sep) == vec_views(done@) + seq![cur@ + split_on(
                    full.skip(i as int + 1),
                    sep,
                )[0]] + split_on(full.skip(i as int + 1), sep).skip(1));
            }
        } else {
            proof {
                assert(rest =~= seq![seq![full[i as int]] + rest2[0]] + rest2.skip(1));
                assert(rest[0] =~= seq![full[i as int]] + rest2[0]);
                assert(rest.skip(1) =~= rest2.skip(1));
            }
            let ghost prev_cur = cur@;
            cur.push(c);
            proof {
                assert(cur@ == prev_cur.push(c));
                assert(cur@ + rest2[0] =~= prev_cur + rest[0]);
                assert(vec_views(done@) + seq![cur@ + rest2[0]] + rest2.skip(1) =~= vec_views(
                    done@,
                ) + seq![prev_cur + rest[0]] + rest.skip(1));
                assert(split_on(full, sep) == vec_views(done@) + seq![cur@ + split_on(
                    full.skip(i as int + 1),
                    sep,
                )[0]] + split_on(full.skip(i as int + 1), sep).skip(1));
            }
        }
        i += 1;
    }
    let ghost prev_done = done@;
    let ghost prev_cur = cur@;
    proof {
        assert(full.skip(n as int) =~= Seq::<char>::empty());
        assert(split_on(full.skip(n as int), sep) == seq![Seq::<char>::empty()]);
        assert(split_on(full.skip(n as int), sep).skip(1) =~= Seq::<Seq<char>>::empty());
        assert(cur@ + split_on(full.skip(n as int), sep)[0] =~= cur@);
        assert(split_on(full, sep) =~= vec_views(done@).push(cur@));
    }
    done.push(cur);
    proof {
        assert(done@.drop_last() == prev_done);
        assert(done@.last()@ == prev_cur);
        assert(vec_views(done@) =~= vec_views(prev_done).push(prev_cur));
    }
    done
}

// ---------------------------------------------------------------------
// The persisted dictionary format.
// ---------------------------------------------------------------------
/// The header line of the persisted dictionary file.
pub open spec fn header() -> Seq<char> {
    "word,instances,training_count"@
}

/// One persisted row: word, count and the shared epoch, comma-separated.
pub open spec fn row_of(w: Seq<char>, c: u32, e: u32) -> Seq<char> {
    w + seq![','] + dec_rep(c as nat) + seq![','] + dec_rep(e as nat)
}

/// The rows of all entries, each terminated by a newline.
pub open spec fn encode_rows(es: Seq<(Seq<char>, u32)>, e: u32) -> Seq<char>
    decreases es.len(),
{
    if es.len() == 0 {
        Seq::empty()
    } else {
        row_of(es[0].0, es[0].1, e) + seq!['\n'] + encode_rows(es.skip(1), e)
    }
}

/// The whole persisted file: the header line, then one row per entry,
/// every line terminated by a newline.
pub open spec fn encode_spec(es: Seq<(Seq<char>, u32)>, e: u32) -> Seq<char> {
    header() + seq!['\n'] + encode_rows(es, e)
}

/// What one persisted line means: a word (possibly empty, for the
/// placeholder row an empty store is created with), its count, and the
/// epoch; or nothing when the line is not shaped that way.
pub open spec fn parse_row(line: Seq<char>) -> Option<(Seq<char>, u32, u32)> {
    let fs = split_on(line, ',');
    if fs.len() != 3 {
        Option::None
    } else if !(fs[0].len() == 0 || token_shaped(fs[0])) {
        Option::None
    } else if !(is_digits(fs[1]) && digits_val(fs[1]) <= u32::MAX) {
        Option::None
    } else if !(is_digits(fs[2]) && digits_val(fs[2]) <= u32::MAX) {
        Option::None
    } else {
        Option::Some((fs[0], digits_val(fs[1]) as u32, digits_val(fs[2]) as u32))
    }
}

/// Folds the rows into a mapping, left to right: a later row for a word
/// overrides an earlier one, empty-word placeholder rows add no entry,
/// and the epoch of the last row wins.
pub open spec fn parse_rows(m: Map<Seq<char>, u32>, e: u32, lines: Seq<Seq<char>>) -> Option<
    (Map<Seq<char>, u32>, u32),
>
    decreases lines.len(),
{
    if lines.len() == 0 {
        Option::Some((m, e))
    } else {
        match parse_row(lines[0]) {
            Option::None => Option::None,
            Option::Some((w, c, e2)) => parse_rows(
                if w.len() == 0 {
                    m
                } else {
                    m.insert(w, c)
                },
                e2,
                lines.skip(1),
            ),
        }
    }
}

/// The row lines the entries are persisted as.
pub open spec fn row_lines(es: Seq<(Seq<char>, u32)>, e: u32) -> Seq<Seq<char>> {
    Seq::new(es.len(), |i: int| row_of(es[i].0, es[i].1, e))
}

/// Folding entries into a mapping, left to right.
pub open spec fn fold_ins(m: Map<Seq<char>, u32>, es: Seq<(Seq<char>, u32)>) -> Map<
    Seq<char>,
    u32,
>
    decreases es.len(),
{
    if es.len() == 0 {
        m
    } else {
        fold_ins(m.insert(es[0].0, es[0].1), es.skip(1))
    }
}

/// What a persisted file's characters mean: an empty file is an empty
/// store with epoch zero; otherwise the file must end with a newline,
/// open with the header line, and every further line must be a
/// well-shaped row.
pub open spec fn parse_spec(s: Seq<char>) -> Option<(Map<Seq<char>, u32>, u32)> {
    if s.len() == 0 {
        Option::Some((Map::empty(), 0))
    } else if s.last() != '\n' {
        Option::None
    } else {
        let lines = split_on(s.drop_last(), '\n');
        if lines[0] != header() {
            Option::None
        } else {
            parse_rows(Map::empty(), 0, lines.skip(1))
        }
    }
}

// ---------------------------------------------------------------------
// The storage round trip.
// ---------------------------------------------------------------------
proof fn lemma_header_ok()
    ensures
        header().len() > 0,
        forall|i: int| 0 <= i < header().len() ==> header()[i] != '\n',
{
    reveal_strlit("word,instances,training_count");
}

/// No character of a row is a newline.
proof fn lemma_row_no_newline(w: Seq<char>, c: u32, e: u32)
    requires
        token_shaped(w) || w.len() == 0,
    ensures
        forall|i: int| 0 <= i < row_of(w, c, e).len() ==> row_of(w, c, e)[i] != '\n',
{
    lemma_dec_rep_val(c as nat);
    lemma_dec_rep_val(e as nat);
    let row = row_of(w, c, e);
    let dc = dec_rep(c as nat);
    let de = dec_rep(e as nat);
    assert forall|i: int| 0 <= i < row.len() implies row[i] != '\n' by {
        if i < w.len() {
            assert(row[i] == w[i]);
            assert(is_word_char(w[i]));
        } else if i == w.len() {
            assert(row[i] == ',');
        } else if i < w.len() + 1 + dc.len() {
            assert(row[i] == dc[i - w.len() - 1]);
            assert(is_digit_char(dc[i - w.len() - 1]));
        } else if i == w.len() + 1 + dc.len() {
            assert(row[i] == ',');
        } else {
            assert(row[i] == de[i - w.len() - dc.len() - 2]);
            assert(is_digit_char(de[i - w.len() - dc.len() - 2]));
        }
    }
}

/// A row parses back to the word, count and epoch it was written from.
pub proof fn lemma_row_round_trip(w: Seq<char>, c: u32, e: u32)
    requires
        token_shaped(w) || w.len() == 0,
    ensures
        parse_row(row_of(w, c, e)) == Option::Some((w, c, e)),
{
    lemma_dec_rep_val(c as nat);
    lemma_dec_rep_val(e as nat);
    let dc = dec_rep(c as nat);
    let de = dec_rep(e as nat);
    let tail = dc + seq![','] + de;
    assert(row_of(w, c, e) =~= w + seq![','] + tail);
    assert forall|i: int| 0 <= i < w.len() implies w[i] != ',' by {
        assert(is_word_char(w[i]));
    }
    assert(forall|i: int| 0 <= i < dc.len() ==> dc[i] != ',');
    lemma_split_on_piece(w, tail, ',');
    lemma_split_on_piece(dc, de, ',');
    lemma_split_on_whole(de, ',');
    let fs = split_on(row_of(w, c, e), ',');
    assert(fs =~= seq![w, dc, de]);
    assert(fs.len() == 3);
    assert(digits_val(fs[1]) == c);
    assert(digits_val(fs[2]) == e);
}

/// Encoded rows split back into exactly the row lines.
proof fn lemma_split_encoded_rows(es: Seq<(Seq<char>, u32)>, e: u32)
    requires
        es.len() >= 1,
        forall|i: int| 0 <= i < es.len() ==> token_shaped(#[trigger] es[i].0),
    ensures
        encode_rows(es, e).len() >= 1,
        encode_rows(es, e).last() == '\n',
        split_on(encode_rows(es, e).drop_last(), '\n') =~= row_lines(es, e),
    decreases es.len(),
{
    let row0 = row_of(es[0].0, es[0].1, e);
    lemma_row_no_newline(es[0].0, es[0].1, e);
    if es.len() == 1 {
        assert(encode_rows(es.skip(1), e) =~= Seq::<char>::empty());
        assert(encode_rows(es, e) =~= row0 + seq!['\n']);
        assert(encode_rows(es, e).drop_last() =~= row0);
        lemma_split_on_whole(row0, '\n');
        assert(row_lines(es, e) =~= seq![row0]);
    } else {
        assert(forall|i: int|
            0 <= i < es.skip(1).len() ==> token_shaped(#[trigger] es.skip(1)[i].0));
        lemma_split_encoded_rows(es.skip(1), e);
        let rest = encode_rows(es.skip(1), e);
        assert(encode_rows(es, e) == row0 + seq!['\n'] + rest);
        assert(encode_rows(es, e).last() == rest.last());
        assert(encode_rows(es, e).drop_last() =~= row0 + seq!['\n'] + rest.drop_last());
        lemma_split_on_piece(row0, rest.drop_last(), '\n');
        assert(split_on(encode_rows(es, e).drop_last(), '\n') =~= seq![row0] + split_on(
            rest.drop_last(),
            '\n',
        ));
        assert(row_lines(es, e) =~= seq![row0] + row_lines(es.skip(1), e));
    }
}

/// Parsing the row lines folds every entry in; the epoch written on the
/// rows is recovered whenever there is at least one row.
proof fn lemma_parse_row_lines(es: Seq<(Seq<char>, u32)>, e: u32, m: Map<Seq<char>, u32>, e0: u32)
    requires
        forall|i: int| 0 <= i < es.len() ==> token_shaped(#[trigger] es[i].0),
    ensures
        parse_rows(m, e0, row_lines(es, e)) == Option::Some(
            (
                fold_ins(m, es),
                if es.len() == 0 {
                    e0
                } else {
                    e
                },
            ),
        ),
    decreases es.len(),
{
    if es.len() == 0 {
        assert(row_lines(es, e) =~= Seq::<Seq<char>>::empty());
    } else {
        lemma_row_round_trip(es[0].0, es[0].1, e);
        assert(row_lines(es, e)[0] == row_of(es[0].0, es[0].1, e));
        assert(row_lines(es, e).skip(1) =~= row_lines(es.skip(1), e));
        assert(es[0].0.len() > 0);
        assert(forall|i: int|
            0 <= i < es.skip(1).len() ==> token_shaped(#[trigger] es.skip(1)[i].0));
        lemma_parse_row_lines(es.skip(1), e, m.insert(es[0].0, es[0].1), e);
    }
}

proof fn lemma_fold_ins_push(m: Map<Seq<char>, u32>, es: Seq<(Seq<char>, u32)>, x: (Seq<char>, u32))
    ensures
        fold_ins(m, es.push(x)) == fold_ins(m, es).insert(x.0, x.1),
    decreases es.len(),
{
    if es.len() == 0 {
        assert(es.push(x)[0] == x);
        assert(es.push(x).skip(1) =~= Seq::<(Seq<char>, u32)>::empty());
        assert(fold_ins(m, es.push(x)) == fold_ins(m.insert(x.0, x.1), es.push(x).skip(1)));
        assert(fold_ins(m.insert(x.0, x.1), es.push(x).skip(1)) == m.insert(x.0, x.1));
        assert(fold_ins(m, es) == m);
    } else {
        assert(es.push(x)[0] == es[0]);
        assert(es.push(x).skip(1) =~= es.skip(1).push(x));
        lemma_fold_ins_push(m.insert(es[0].0, es[0].1), es.skip(1), x);
        assert(fold_ins(m, es.push(x)) == fold_ins(
            m.insert(es[0].0, es[0].1),
            es.skip(1).push(x),
        ));
        assert(fold_ins(m, es) == fold_ins(m.insert(es[0].0, es[0].1), es.skip(1)));
    }
}

/// Folding the entries from an empty mapping yields the mapping the
/// entries denote.
proof fn lemma_fold_ins_map_of(es: Seq<(Seq<char>, u32)>)
    ensures
        fold_ins(Map::empty(), es) == map_of(es),
    decreases es.len(),
{
    if es.len() == 0 {
    } else {
        lemma_fold_ins_map_of(es.drop_last());
        lemma_fold_ins_push(Map::empty(), es.drop_last(), es.last());
        assert(es.drop_last().push(es.last()) =~= es);
    }
}

/// Persisting a dictionary and then loading it back reproduces the same
/// word-to-count mapping and the same epoch value. An empty dictionary
/// is persisted as the header alone, which carries no epoch; hence the
/// premise that a dictionary without entries has epoch zero.
pub proof fn lemma_store_round_trip(es: Seq<(Seq<char>, u32)>, e: u32)
    requires
        forall|i: int| 0 <= i < es.len() ==> token_shaped(#[trigger] es[i].0),
        es.len() > 0 || e == 0,
    ensures
        parse_spec(encode_spec(es, e)) == Option::Some((map_of(es), e)),
{
    lemma_header_ok();
    let s = encode_spec(es, e);
    if es.len() == 0 {
        assert(encode_rows(es, e) =~= Seq::<char>::empty());
        assert(s =~= header() + seq!['\n']);
        assert(s.last() == '\n');
        assert(s.drop_last() =~= header());
        lemma_split_on_whole(header(), '\n');
        let lines = split_on(s.drop_last(), '\n');
        assert(lines =~= seq![header()]);
        assert(lines[0] == header());
        assert(lines.skip(1) =~= Seq::<Seq<char>>::empty());
        assert(map_of(es) =~= Map::<Seq<char>, u32>::empty());
    } else {
        lemma_split_encoded_rows(es, e);
        let rows = encode_rows(es, e);
        assert(s == header() + seq!['\n'] + rows);
        assert(s.last() == rows.last());
        assert(s.drop_last() =~= header() + seq!['\n'] + rows.drop_last());
        lemma_split_on_piece(header(), rows.drop_last(), '\n');
        let lines = split_on(s.drop_last(), '\n');
        assert(lines =~= seq![header()] + row_lines(es, e));
        assert(lines[0] == header());
        assert(lines.skip(1) =~= row_lines(es, e));
        lemma_parse_row_lines(es, e, Map::empty(), 0);
        lemma_fold_ins_map_of(es);
    }
}

} // verus!

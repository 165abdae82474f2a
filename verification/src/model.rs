//! The mathematical model of the store.
//!
//! The backing file's content is modelled as a `Seq<char>`.  The content is
//! split into lines at `'\n'`; a line parses as a record when it has the form
//! `<digits>:<value>` with the digits denoting a value that fits in 32 bits;
//! lines that do not parse are skipped by readers and copied unchanged by
//! rewrites.  The spec functions here define that reading, and the content
//! transformations that the store's operations perform.

use vstd::prelude::*;

verus! {

/// One parsed record: a key and the value's characters.
pub type Rec = (u32, Seq<char>);

/// Is `c` an ASCII decimal digit?
pub open spec fn is_digit(c: char) -> bool {
    48 <= c as u32 && c as u32 <= 57
}

/// The numeric value of a digit character.
pub open spec fn digit_val(c: char) -> nat {
    (c as u32 - 48) as nat
}

/// The digit character for a value below ten.
pub open spec fn digit_char(d: nat) -> char {
    if d == 0 {
        '0'
    } else if d == 1 {
        '1'
    } else if d == 2 {
        '2'
    } else if d == 3 {
        '3'
    } else if d == 4 {
        '4'
    } else if d == 5 {
        '5'
    } else if d == 6 {
        '6'
    } else if d == 7 {
        '7'
    } else if d == 8 {
        '8'
    } else {
        '9'
    }
}

pub proof fn lemma_digit_char_val(d: nat)
    requires
        d < 10,
    ensures
        is_digit(digit_char(d)),
        digit_val(digit_char(d)) == d,
{
}

/// The decimal representation of `n`, most significant digit first,
/// without leading zeros (`0` is written as the single digit `0`).
pub open spec fn dec_digits(n: nat) -> Seq<char>
    decreases n,
{
    if n < 10 {
        seq![digit_char(n)]
    } else {
        dec_digits(n / 10).push(digit_char(n % 10))
    }
}

/// Is every character of `s` a decimal digit?
pub open spec fn all_digits(s: Seq<char>) -> bool {
    forall|i: int| 0 <= i < s.len() ==> is_digit(#[trigger] s[i])
}

/// The numeric value denoted by a digit sequence (0 for the empty sequence).
pub open spec fn digits_val(s: Seq<char>) -> nat
    decreases s.len(),
{
    if s.len() == 0 {
        0
    } else {
        digits_val(s.drop_last()) * 10 + digit_val(s.last())
    }
}

/// A digit sequence denotes at least as much as any of its prefixes.
pub proof fn lemma_digits_val_take_le(s: Seq<char>, j: int)
    requires
        0 <= j <= s.len(),
    ensures
        digits_val(s.take(j)) <= digits_val(s),
    decreases s.len() - j,
{
    if j < s.len() {
        lemma_digits_val_take_le(s, j + 1);
        assert(s.take(j + 1).drop_last() =~= s.take(j));
        assert(digits_val(s.take(j + 1)) == digits_val(s.take(j)) * 10 + digit_val(
            s.take(j + 1).last(),
        ));
    } else {
        assert(s.take(j) =~= s);
    }
}

/// A key part parses exactly when it is non-empty, all digits, and its
/// value fits in 32 bits.
pub open spec fn parse_key(s: Seq<char>) -> Option<u32> {
    if s.len() > 0 && all_digits(s) && digits_val(s) <= u32::MAX {
        Some(digits_val(s) as u32)
    } else {
        None
    }
}

pub proof fn lemma_dec_digits_all_digits(n: nat)
    ensures
        dec_digits(n).len() > 0,
        all_digits(dec_digits(n)),
    decreases n,
{
    if n >= 10 {
        lemma_dec_digits_all_digits(n / 10);
    }
}

/// The decimal representation reads back as the number it was made from.
pub proof fn lemma_dec_digits_val(n: nat)
    ensures
        digits_val(dec_digits(n)) == n,
    decreases n,
{
    if n < 10 {
        lemma_digit_char_val(n);
        assert(dec_digits(n).drop_last() =~= Seq::<char>::empty());
        assert(digits_val(dec_digits(n)) == digits_val(dec_digits(n).drop_last()) * 10 + digit_val(
            dec_digits(n).last(),
        ));
    } else {
        lemma_digit_char_val(n % 10);
        lemma_dec_digits_val(n / 10);
        assert(dec_digits(n).drop_last() =~= dec_digits(n / 10));
        assert(n / 10 * 10 + n % 10 == n) by (nonlinear_arith);
    }
}

/// The parse of a decimal representation succeeds and gives the number back.
pub proof fn lemma_parse_key_dec_digits(k: u32)
    ensures
        parse_key(dec_digits(k as nat)) == Some(k),
{
    lemma_dec_digits_all_digits(k as nat);
    lemma_dec_digits_val(k as nat);
}

/// The index of the first occurrence of `c` in `s`, or `s.len()` if absent.
pub open spec fn first_occ(s: Seq<char>, c: char) -> int
    decreases s.len(),
{
    if s.len() == 0 {
        0
    } else if s[0] == c {
        0
    } else {
        1 + first_occ(s.skip(1), c)
    }
}

pub proof fn lemma_first_occ(s: Seq<char>, c: char)
    ensures
        0 <= first_occ(s, c) <= s.len(),
        forall|k: int| 0 <= k < first_occ(s, c) ==> s[k] != c,
        first_occ(s, c) < s.len() ==> s[first_occ(s, c)] == c,
    decreases s.len(),
{
    if s.len() > 0 && s[0] != c {
        lemma_first_occ(s.skip(1), c);
        assert forall|k: int| 0 <= k < first_occ(s, c) implies s[k] != c by {
            if k > 0 {
                assert(s[k] == s.skip(1)[k - 1]);
            }
        }
    }
}

/// `first_occ` is determined by where `c` stands: any position whose prefix
/// is free of `c` and that either holds `c` or ends the sequence is it.
pub proof fn lemma_first_occ_is(s: Seq<char>, c: char, i: int)
    requires
        0 <= i <= s.len(),
        forall|k: int| 0 <= k < i ==> s[k] != c,
        i < s.len() ==> s[i] == c,
    ensures
        first_occ(s, c) == i,
    decreases s.len(),
{
    if s.len() > 0 && s[0] != c {
        lemma_first_occ_is(s.skip(1), c, i - 1);
    }
}

/// The content split into lines at `'\n'`.  A final segment after the last
/// separator is a line only when it is non-empty, so a newline-terminated
/// content yields exactly the lines the separators close.
pub open spec fn split_lines(s: Seq<char>) -> Seq<Seq<char>>
    decreases s.len(),
{
    if s.len() == 0 {
        Seq::empty()
    } else {
        let i = first_occ(s, '\n');
        if 0 <= i < s.len() {
            seq![s.take(i)] + split_lines(s.skip(i + 1))
        } else {
            seq![s]
        }
    }
}

/// Does `s` contain no newline?
pub open spec fn no_newline(s: Seq<char>) -> bool {
    forall|i: int| 0 <= i < s.len() ==> s[i] != '\n'
}

/// Is the content empty or closed by a final newline?
pub open spec fn line_terminated(s: Seq<char>) -> bool {
    s.len() == 0 || s.last() == '\n'
}

/// Every line that the split yields is free of newlines.
pub proof fn lemma_split_lines_no_newline(s: Seq<char>)
    ensures
        forall|j: int|
            0 <= j < split_lines(s).len() ==> no_newline(#[trigger] split_lines(s)[j]),
    decreases s.len(),
{
    if s.len() > 0 {
        let i = first_occ(s, '\n');
        lemma_first_occ(s, '\n');
        if i == s.len() {
            assert(no_newline(s));
        } else {
            lemma_split_lines_no_newline(s.skip(i + 1));
            assert(no_newline(s.take(i)));
            assert forall|j: int|
                0 <= j < split_lines(s).len() implies no_newline(
                #[trigger] split_lines(s)[j],
            ) by {
                if j > 0 {
                    assert(split_lines(s)[j] == split_lines(s.skip(i + 1))[j - 1]);
                }
            }
        }
    }
}

/// Splitting distributes over appending to a newline-terminated prefix.
pub proof fn lemma_split_lines_append(a: Seq<char>, b: Seq<char>)
    requires
        line_terminated(a),
    ensures
        split_lines(a + b) == split_lines(a) + split_lines(b),
    decreases a.len(),
{
    if a.len() == 0 {
        assert(a + b =~= b);
        assert(split_lines(a) + split_lines(b) =~= split_lines(b));
    } else {
        let i = first_occ(a, '\n');
        lemma_first_occ(a, '\n');
        assert(i < a.len());
        let ab = a + b;
        lemma_first_occ_is(ab, '\n', i);
        assert(ab.take(i) =~= a.take(i));
        assert(ab.skip(i + 1) =~= a.skip(i + 1) + b);
        let a2 = a.skip(i + 1);
        assert(line_terminated(a2));
        lemma_split_lines_append(a2, b);
        if a2.len() == 0 {
            assert(split_lines(a) =~= seq![a.take(i)]);
        }
        assert(split_lines(a + b) =~= split_lines(a) + split_lines(b));
    }
}

/// A single line closed by a newline splits into just that line.
pub proof fn lemma_split_lines_single(l: Seq<char>)
    requires
        no_newline(l),
    ensures
        split_lines(l + seq!['\n']) == seq![l],
{
    let s = l + seq!['\n'];
    assert(s[l.len() as int] == '\n');
    assert forall|k: int| 0 <= k < l.len() implies s[k] != '\n' by {
        assert(s[k] == l[k]);
    }
    lemma_first_occ_is(s, '\n', l.len() as int);
    assert(s.take(l.len() as int) =~= l);
    assert(s.skip(l.len() as int + 1) =~= Seq::<char>::empty());
    assert(split_lines(Seq::<char>::empty()) =~= Seq::<Seq<char>>::empty());
    assert(split_lines(s) =~= seq![s.take(l.len() as int)] + split_lines(
        s.skip(l.len() as int + 1),
    ));
    assert(split_lines(s) =~= seq![l]);
}

/// The parse of one line: the part before the first `':'` must be a valid
/// key; the rest of the line is the value.  A line without `':'` or with an
/// invalid key part yields no record.
pub open spec fn parse_line(l: Seq<char>) -> Option<Rec> {
    let i = first_occ(l, ':');
    if i == l.len() {
        None
    } else {
        match parse_key(l.take(i)) {
            Some(k) => Some((k, l.skip(i + 1))),
            None => None,
        }
    }
}

/// The records a line contributes: one if it parses, none otherwise.
pub open spec fn line_recs(l: Seq<char>) -> Seq<Rec> {
    match parse_line(l) {
        Some(r) => seq![r],
        None => Seq::empty(),
    }
}

/// The records contributed by a sequence of lines, in order.
pub open spec fn lines_recs(ls: Seq<Seq<char>>) -> Seq<Rec>
    decreases ls.len(),
{
    if ls.len() == 0 {
        Seq::empty()
    } else {
        line_recs(ls[0]) + lines_recs(ls.skip(1))
    }
}

pub proof fn lemma_lines_recs_append(a: Seq<Seq<char>>, b: Seq<Seq<char>>)
    ensures
        lines_recs(a + b) == lines_recs(a) + lines_recs(b),
    decreases a.len(),
{
    if a.len() == 0 {
        assert(a + b =~= b);
        assert(lines_recs(a) + lines_recs(b) =~= lines_recs(b));
    } else {
        assert((a + b).skip(1) =~= a.skip(1) + b);
        lemma_lines_recs_append(a.skip(1), b);
        assert(lines_recs(a + b) =~= lines_recs(a) + lines_recs(b));
    }
}

/// One step of a scan over a sequence of lines.
pub proof fn lemma_lines_recs_skip_step(ls: Seq<Seq<char>>, i: int)
    requires
        0 <= i < ls.len(),
    ensures
        lines_recs(ls.skip(i)) == line_recs(ls[i]) + lines_recs(ls.skip(i + 1)),
{
    assert(ls.skip(i)[0] == ls[i]);
    assert(ls.skip(i).skip(1) =~= ls.skip(i + 1));
    if parse_line(ls[i]) is None {
        assert(line_recs(ls[i]) + lines_recs(ls.skip(i + 1)) =~= lines_recs(ls.skip(i + 1)));
    }
}

/// The records of a content: the parses of its lines, in file order.
pub open spec fn records(s: Seq<char>) -> Seq<Rec> {
    lines_recs(split_lines(s))
}

/// Splitting off the records of a newline-terminated prefix.
pub proof fn lemma_records_append(a: Seq<char>, b: Seq<char>)
    requires
        line_terminated(a),
    ensures
        records(a + b) == records(a) + records(b),
{
    lemma_split_lines_append(a, b);
    lemma_lines_recs_append(split_lines(a), split_lines(b));
}

/// The line that serialises a record, without its closing newline.
pub open spec fn enc_line(key: u32, v: Seq<char>) -> Seq<char> {
    dec_digits(key as nat) + seq![':'] + v
}

/// The full serialisation of a record: its line closed by a newline.
pub open spec fn enc_record(key: u32, v: Seq<char>) -> Seq<char> {
    enc_line(key, v) + seq!['\n']
}

/// An encoded line parses back to the record it was made from.
pub proof fn lemma_parse_enc_line(key: u32, v: Seq<char>)
    ensures
        parse_line(enc_line(key, v)) == Some((key, v)),
        no_newline(v) ==> no_newline(enc_line(key, v)),
{
    let d = dec_digits(key as nat);
    let l = enc_line(key, v);
    lemma_dec_digits_all_digits(key as nat);
    assert forall|k: int| 0 <= k < d.len() implies l[k] != ':' by {
        assert(l[k] == d[k]);
        assert(is_digit(d[k]));
    }
    assert(l[d.len() as int] == ':');
    lemma_first_occ_is(l, ':', d.len() as int);
    assert(l.take(d.len() as int) =~= d);
    assert(l.skip(d.len() as int + 1) =~= v);
    lemma_parse_key_dec_digits(key);
    if no_newline(v) {
        assert forall|k: int| 0 <= k < l.len() implies l[k] != '\n' by {
            if k < d.len() {
                assert(is_digit(d[k]));
            } else if k > d.len() {
                assert(l[k] == v[k - d.len() - 1]);
            }
        }
    }
}

/// An encoded record is one full line holding exactly that record.
pub proof fn lemma_records_enc_record(key: u32, v: Seq<char>)
    requires
        no_newline(v),
    ensures
        records(enc_record(key, v)) == seq![(key, v)],
        line_terminated(enc_record(key, v)),
{
    let l = enc_line(key, v);
    lemma_parse_enc_line(key, v);
    lemma_split_lines_single(l);
    assert(line_recs(l) =~= seq![(key, v)]);
    assert(seq![l].skip(1) =~= Seq::<Seq<char>>::empty());
    assert(lines_recs(Seq::<Seq<char>>::empty()) =~= Seq::<Rec>::empty());
    assert(lines_recs(seq![l]) =~= line_recs(l) + lines_recs(seq![l].skip(1)));
    assert(records(enc_record(key, v)) =~= seq![(key, v)]);
}

/// The first record with the given key, if any: the value `get` returns.
pub open spec fn spec_get(rs: Seq<Rec>, key: u32) -> Option<Seq<char>>
    decreases rs.len(),
{
    if rs.len() == 0 {
        None
    } else if rs[0].0 == key {
        Some(rs[0].1)
    } else {
        spec_get(rs.skip(1), key)
    }
}

/// `get` over a store in two parts reads the front part first.
pub proof fn lemma_spec_get_append(a: Seq<Rec>, b: Seq<Rec>, key: u32)
    ensures
        spec_get(a + b, key) == if spec_get(a, key) is Some {
            spec_get(a, key)
        } else {
            spec_get(b, key)
        },
    decreases a.len(),
{
    if a.len() == 0 {
        assert(a + b =~= b);
    } else {
        assert((a + b)[0] == a[0]);
        assert((a + b).skip(1) =~= a.skip(1) + b);
        lemma_spec_get_append(a.skip(1), b, key);
    }
}

/// `get` misses exactly when no record has the key.
pub proof fn lemma_spec_get_none_iff(rs: Seq<Rec>, key: u32)
    ensures
        (spec_get(rs, key) is None) <==> (forall|i: int|
            0 <= i < rs.len() ==> (#[trigger] rs[i]).0 != key),
    decreases rs.len(),
{
    if rs.len() > 0 {
        lemma_spec_get_none_iff(rs.skip(1), key);
        if rs[0].0 != key {
            if spec_get(rs, key) is None {
                assert forall|i: int| 0 <= i < rs.len() implies (#[trigger] rs[i]).0 != key by {
                    if i > 0 {
                        assert(rs[i] == rs.skip(1)[i - 1]);
                    }
                }
            } else {
                let j = choose|j: int| 0 <= j < rs.skip(1).len() && rs.skip(1)[j].0 == key;
                assert(rs[j + 1] == rs.skip(1)[j]);
            }
        }
    }
}

/// Every record with the given key replaced by the new value; all other
/// records, and all positions, are untouched.
pub open spec fn update_recs(rs: Seq<Rec>, key: u32, v: Seq<char>) -> Seq<Rec> {
    Seq::new(rs.len(), |i: int| if rs[i].0 == key { (key, v) } else { rs[i] })
}

/// The records left after deleting a key: those with another key, in order.
pub open spec fn delete_recs(rs: Seq<Rec>, key: u32) -> Seq<Rec>
    decreases rs.len(),
{
    if rs.len() == 0 {
        Seq::empty()
    } else if rs[0].0 == key {
        delete_recs(rs.skip(1), key)
    } else {
        seq![rs[0]] + delete_recs(rs.skip(1), key)
    }
}

/// No record with the deleted key survives a delete.
pub proof fn lemma_delete_recs_no_key(rs: Seq<Rec>, key: u32)
    ensures
        forall|i: int|
            0 <= i < delete_recs(rs, key).len() ==> (#[trigger] delete_recs(rs, key)[i]).0
                != key,
    decreases rs.len(),
{
    if rs.len() > 0 {
        lemma_delete_recs_no_key(rs.skip(1), key);
        let dr = delete_recs(rs, key);
        if rs[0].0 != key {
            assert forall|i: int| 0 <= i < dr.len() implies (#[trigger] dr[i]).0 != key by {
                if i > 0 {
                    assert(dr[i] == delete_recs(rs.skip(1), key)[i - 1]);
                }
            }
        } else {
            assert forall|i: int| 0 <= i < dr.len() implies (#[trigger] dr[i]).0 != key by {
                assert(dr[i] == delete_recs(rs.skip(1), key)[i]);
            }
        }
    }
}

/// How deleting treats one more record at the end.
pub proof fn lemma_delete_recs_push(a: Seq<Rec>, x: Rec, key: u32)
    ensures
        delete_recs(a.push(x), key) == delete_recs(a, key) + (if x.0 != key {
            seq![x]
        } else {
            Seq::<Rec>::empty()
        }),
    decreases a.len(),
{
    let tail = if x.0 != key {
        seq![x]
    } else {
        Seq::<Rec>::empty()
    };
    if a.len() == 0 {
        assert(a.push(x)[0] == x);
        assert(a.push(x).skip(1) =~= Seq::<Rec>::empty());
        assert(delete_recs(Seq::<Rec>::empty(), key) == Seq::<Rec>::empty());
        if x.0 != key {
            assert(delete_recs(a.push(x), key) == seq![x] + Seq::<Rec>::empty());
            assert(seq![x] + Seq::<Rec>::empty() =~= delete_recs(a, key) + tail);
        } else {
            assert(delete_recs(a.push(x), key) =~= delete_recs(a, key) + tail);
        }
    } else {
        assert(a.push(x).skip(1) =~= a.skip(1).push(x));
        lemma_delete_recs_push(a.skip(1), x, key);
        assert(a.push(x)[0] == a[0]);
        if a[0].0 != key {
            assert(delete_recs(a.push(x), key) == seq![a[0]] + (delete_recs(a.skip(1), key)
                + tail));
            assert(seq![a[0]] + (delete_recs(a.skip(1), key) + tail) =~= (seq![a[0]]
                + delete_recs(a.skip(1), key)) + tail);
        } else {
            assert(delete_recs(a.push(x), key) == delete_recs(a.skip(1), key) + tail);
        }
    }
}

/// What `update` makes of one line: a line parsing to the key is replaced
/// by the new record's line; any other line is kept as it is.
pub open spec fn update_line(l: Seq<char>, key: u32, v: Seq<char>) -> Seq<char> {
    match parse_line(l) {
        Some(r) => if r.0 == key {
            enc_line(key, v)
        } else {
            l
        },
        None => l,
    }
}

pub open spec fn update_lines(ls: Seq<Seq<char>>, key: u32, v: Seq<char>) -> Seq<Seq<char>> {
    Seq::new(ls.len(), |i: int| update_line(ls[i], key, v))
}

/// Does `delete` keep this line?  Only lines parsing to the key go.
pub open spec fn keep_line(l: Seq<char>, key: u32) -> bool {
    match parse_line(l) {
        Some(r) => r.0 != key,
        None => true,
    }
}

pub open spec fn delete_lines(ls: Seq<Seq<char>>, key: u32) -> Seq<Seq<char>>
    decreases ls.len(),
{
    if ls.len() == 0 {
        Seq::empty()
    } else if keep_line(ls[0], key) {
        seq![ls[0]] + delete_lines(ls.skip(1), key)
    } else {
        delete_lines(ls.skip(1), key)
    }
}

/// How deleting treats one more line at the end.
pub proof fn lemma_delete_lines_push(a: Seq<Seq<char>>, x: Seq<char>, key: u32)
    ensures
        delete_lines(a.push(x), key) == delete_lines(a, key) + (if keep_line(x, key) {
            seq![x]
        } else {
            Seq::<Seq<char>>::empty()
        }),
    decreases a.len(),
{
    if a.len() == 0 {
        assert(a.push(x)[0] == x);
        assert(a.push(x).skip(1) =~= Seq::<Seq<char>>::empty());
        assert(delete_lines(Seq::<Seq<char>>::empty(), key) == Seq::<Seq<char>>::empty());
        if keep_line(x, key) {
            assert(delete_lines(a.push(x), key) == seq![x] + Seq::<Seq<char>>::empty());
            assert(seq![x] + Seq::<Seq<char>>::empty() =~= delete_lines(a, key) + seq![x]);
        } else {
            assert(delete_lines(a.push(x), key) =~= delete_lines(a, key)
                + Seq::<Seq<char>>::empty());
        }
    } else {
        assert(a.push(x).skip(1) =~= a.skip(1).push(x));
        lemma_delete_lines_push(a.skip(1), x, key);
        assert(a.push(x)[0] == a[0]);
        let tail = if keep_line(x, key) {
            seq![x]
        } else {
            Seq::<Seq<char>>::empty()
        };
        if keep_line(a[0], key) {
            assert(delete_lines(a.push(x), key) == seq![a[0]] + (delete_lines(
                a.skip(1),
                key,
            ) + tail));
            assert(seq![a[0]] + (delete_lines(a.skip(1), key) + tail) =~= (seq![a[0]]
                + delete_lines(a.skip(1), key)) + tail);
        } else {
            assert(delete_lines(a.push(x), key) == delete_lines(a.skip(1), key) + tail);
        }
    }
}

/// Lines joined back into a content, each closed by a newline.
pub open spec fn join_lines(ls: Seq<Seq<char>>) -> Seq<char>
    decreases ls.len(),
{
    if ls.len() == 0 {
        Seq::empty()
    } else {
        ls[0] + seq!['\n'] + join_lines(ls.skip(1))
    }
}

pub proof fn lemma_lines_recs_update(ls: Seq<Seq<char>>, key: u32, v: Seq<char>)
    ensures
        lines_recs(update_lines(ls, key, v)) == update_recs(lines_recs(ls), key, v),
    decreases ls.len(),
{
    let uls = update_lines(ls, key, v);
    if ls.len() == 0 {
        assert(uls =~= Seq::<Seq<char>>::empty());
        assert(update_recs(lines_recs(ls), key, v) =~= Seq::<Rec>::empty());
    } else {
        let l0 = ls[0];
        assert(uls.skip(1) =~= update_lines(ls.skip(1), key, v));
        lemma_lines_recs_update(ls.skip(1), key, v);
        match parse_line(l0) {
            None => {
                assert(update_line(l0, key, v) == l0);
                assert(line_recs(l0) =~= Seq::<Rec>::empty());
                assert(lines_recs(ls) =~= lines_recs(ls.skip(1)));
                assert(lines_recs(uls) =~= lines_recs(uls.skip(1)));
            },
            Some(r) => {
                assert(lines_recs(ls) =~= seq![r] + lines_recs(ls.skip(1)));
                assert((seq![r] + lines_recs(ls.skip(1))).skip(1) =~= lines_recs(ls.skip(1)));
                if r.0 == key {
                    lemma_parse_enc_line(key, v);
                    assert(line_recs(uls[0]) =~= seq![(key, v)]);
                } else {
                    assert(line_recs(uls[0]) =~= seq![r]);
                }
                assert(lines_recs(uls) =~= update_recs(lines_recs(ls), key, v));
            },
        }
    }
}

pub proof fn lemma_lines_recs_delete(ls: Seq<Seq<char>>, key: u32)
    ensures
        lines_recs(delete_lines(ls, key)) == delete_recs(lines_recs(ls), key),
    decreases ls.len(),
{
    if ls.len() > 0 {
        let l0 = ls[0];
        lemma_lines_recs_delete(ls.skip(1), key);
        match parse_line(l0) {
            None => {
                assert(line_recs(l0) =~= Seq::<Rec>::empty());
                assert(lines_recs(ls) =~= lines_recs(ls.skip(1)));
                if keep_line(l0, key) {
                    let dls = delete_lines(ls, key);
                    assert(dls.skip(1) =~= delete_lines(ls.skip(1), key));
                    assert(dls[0] == l0);
                    assert(lines_recs(dls) =~= lines_recs(delete_lines(ls.skip(1), key)));
                }
            },
            Some(r) => {
                assert(lines_recs(ls) =~= seq![r] + lines_recs(ls.skip(1)));
                assert((seq![r] + lines_recs(ls.skip(1))).skip(1) =~= lines_recs(ls.skip(1)));
                if r.0 == key {
                    assert(!keep_line(l0, key));
                } else {
                    let dls = delete_lines(ls, key);
                    assert(dls.skip(1) =~= delete_lines(ls.skip(1), key));
                    assert(dls[0] == l0);
                    assert(lines_recs(dls) =~= seq![r] + lines_recs(
                        delete_lines(ls.skip(1), key),
                    ));
                    assert(delete_recs(lines_recs(ls), key) =~= seq![r] + delete_recs(
                        lines_recs(ls.skip(1)),
                        key,
                    ));
                }
            },
        }
    }
}

/// The whole-file rewrite that `update` performs on a content.
pub open spec fn update_content(s: Seq<char>, key: u32, v: Seq<char>) -> Seq<char> {
    join_lines(update_lines(split_lines(s), key, v))
}

/// The whole-file rewrite that `delete` performs on a content.
pub open spec fn delete_content(s: Seq<char>, key: u32) -> Seq<char> {
    join_lines(delete_lines(split_lines(s), key))
}

/// `update` rewrites the content to hold the same lines, with every line of
/// the key replaced; at the record level it is exactly `update_recs`.
pub proof fn lemma_update_content(s: Seq<char>, key: u32, v: Seq<char>)
    requires
        no_newline(v),
    ensures
        records(update_content(s, key, v)) == update_recs(records(s), key, v),
        line_terminated(update_content(s, key, v)),
{
    let ls = split_lines(s);
    let uls = update_lines(ls, key, v);
    lemma_split_lines_no_newline(s);
    lemma_parse_enc_line(key, v);
    assert(forall|j: int| 0 <= j < uls.len() ==> no_newline(#[trigger] uls[j]));
    lemma_split_join(uls);
    lemma_lines_recs_update(ls, key, v);
}

/// `delete` rewrites the content to hold the kept lines alone; at the
/// record level it is exactly `delete_recs`.
pub proof fn lemma_delete_content(s: Seq<char>, key: u32)
    ensures
        records(delete_content(s, key)) == delete_recs(records(s), key),
        line_terminated(delete_content(s, key)),
{
    let ls = split_lines(s);
    let dls = delete_lines(ls, key);
    lemma_split_lines_no_newline(s);
    lemma_delete_lines_no_newline(ls, key);
    lemma_split_join(dls);
    lemma_lines_recs_delete(ls, key);
}

/// Deleting keeps only lines that were already there, so newline-free
/// lines stay newline-free.
pub proof fn lemma_delete_lines_no_newline(ls: Seq<Seq<char>>, key: u32)
    requires
        forall|j: int| 0 <= j < ls.len() ==> no_newline(#[trigger] ls[j]),
    ensures
        forall|j: int|
            0 <= j < delete_lines(ls, key).len() ==> no_newline(
                #[trigger] delete_lines(ls, key)[j],
            ),
    decreases ls.len(),
{
    if ls.len() > 0 {
        assert(forall|j: int|
            0 <= j < ls.skip(1).len() ==> no_newline(#[trigger] ls.skip(1)[j]));
        lemma_delete_lines_no_newline(ls.skip(1), key);
        let dls = delete_lines(ls, key);
        if keep_line(ls[0], key) {
            assert forall|j: int| 0 <= j < dls.len() implies no_newline(#[trigger] dls[j]) by {
                if j > 0 {
                    assert(dls[j] == delete_lines(ls.skip(1), key)[j - 1]);
                }
            }
        }
    }
}

pub proof fn lemma_join_lines_append(a: Seq<Seq<char>>, b: Seq<Seq<char>>)
    ensures
        join_lines(a + b) == join_lines(a) + join_lines(b),
    decreases a.len(),
{
    if a.len() == 0 {
        assert(a + b =~= b);
        assert(join_lines(a) + join_lines(b) =~= join_lines(b));
    } else {
        assert((a + b).skip(1) =~= a.skip(1) + b);
        lemma_join_lines_append(a.skip(1), b);
        assert(join_lines(a + b) =~= join_lines(a) + join_lines(b));
    }
}

/// Joining newline-free lines and splitting again gives the lines back,
/// and the joined content is newline-terminated.
pub proof fn lemma_split_join(ls: Seq<Seq<char>>)
    requires
        forall|j: int| 0 <= j < ls.len() ==> no_newline(#[trigger] ls[j]),
    ensures
        split_lines(join_lines(ls)) == ls,
        line_terminated(join_lines(ls)),
    decreases ls.len(),
{
    if ls.len() > 0 {
        let l0 = ls[0];
        let rest = ls.skip(1);
        lemma_split_join(rest);
        lemma_split_lines_single(l0);
        lemma_split_lines_append(l0 + seq!['\n'], join_lines(rest));
        assert(join_lines(ls) =~= (l0 + seq!['\n']) + join_lines(rest));
        assert(split_lines(join_lines(ls)) =~= ls);
        if join_lines(rest).len() == 0 {
            assert(join_lines(ls) =~= l0 + seq!['\n']);
        }
    }
}

} // verus!

//! The storage engine.
//!
//! A `Db` holds the backing file's content in memory and performs the
//! store's operations on it: `insert` appends one encoded record,
//! `get` scans for the first record with a key, `get_all` collects every
//! record in file order, and `update` and `delete` rewrite the whole
//! content line by line.  Each operation's contract ties the new content
//! and the result to the model in [`crate::model`].

use vstd::prelude::*;
use vstd::string::StrSliceExecFns;
use vstd::string::StringExecFns;

use crate::model::{
    digit_char, dec_digits, enc_line, enc_record, line_terminated, no_newline, records,
    spec_get, update_recs, delete_recs, update_content, delete_content, Rec,
    split_lines, parse_line, parse_key, lines_recs, is_digit,
    digits_val, update_lines, update_line, delete_lines, keep_line, join_lines,
};
use crate::model::{
    lemma_records_append, lemma_records_enc_record, lemma_first_occ_is,
    lemma_digits_val_take_le, lemma_update_content, lemma_delete_content,
    lemma_delete_lines_push, lemma_join_lines_append, lemma_lines_recs_skip_step,
};

verus! {

/// The store: the backing file's content, held as text.
///
/// The view of a `Db` is that content as a sequence of characters; the
/// records it holds are `records(self@)`.
pub struct Db {
    content: String,
}

impl View for Db {
    type V = Seq<char>;

    closed spec fn view(&self) -> Seq<char> {
        self.content@
    }
}

/// The one-character string for a digit.
fn digit_str(d: u32) -> (r: &'static str)
    requires
        d < 10,
    ensures
        r@.len() == 1,
        r@[0] == digit_char(d as nat),
{
    proof {
        reveal_strlit("0");
        reveal_strlit("1");
        reveal_strlit("2");
        reveal_strlit("3");
        reveal_strlit("4");
        reveal_strlit("5");
        reveal_strlit("6");
        reveal_strlit("7");
        reveal_strlit("8");
        reveal_strlit("9");
    }
    match d {
        0 => "0",
        1 => "1",
        2 => "2",
        3 => "3",
        4 => "4",
        5 => "5",
        6 => "6",
        7 => "7",
        8 => "8",
        _ => "9",
    }
}

/// Appends the decimal representation of `n`.
pub(crate) fn push_dec(n: u32, out: &mut String)
    ensures
        final(out)@ == old(out)@ + dec_digits(n as nat),
    decreases n,
{
    if n < 10 {
        let d = digit_str(n);
        out.append(d);
        proof {
            assert(final(out)@ =~= old(out)@ + dec_digits(n as nat));
        }
    } else {
        push_dec(n / 10, out);
        let d = digit_str(n % 10);
        out.append(d);
        proof {
            assert(final(out)@ =~= old(out)@ + dec_digits(n as nat));
        }
    }
}

/// Appends the line that serialises one record, without its newline.
fn push_record_line(key: u32, value: &str, out: &mut String)
    ensures
        final(out)@ == old(out)@ + enc_line(key, value@),
{
    push_dec(key, out);
    out.append(":");
    out.append(value);
    proof {
        reveal_strlit(":");
        assert(final(out)@ =~= old(out)@ + enc_line(key, value@));
    }
}

/// The serialised form of one record, as `insert` appends it: the decimal
/// key, `':'`, the value, and a closing newline.
pub fn encode_record(key: u32, value: &str) -> (r: String)
    requires
        no_newline(value@),
    ensures
        r@ == enc_record(key, value@),
{
    let mut r = String::new();
    push_record_line(key, value, &mut r);
    r.append("\n");
    proof {
        reveal_strlit("\n");
        assert(r@ =~= enc_record(key, value@));
    }
    r
}

/// Splits a content into its lines, in order.
fn lines_of(s: &str) -> (lines: Vec<String>)
    ensures
        lines.deep_view() == split_lines(s@),
{
    let n = s.unicode_len();
    let mut lines: Vec<String> = Vec::new();
    let mut j: usize = 0;
    proof {
        assert(lines.deep_view() =~= Seq::<Seq<char>>::empty());
        assert(s@.skip(0) =~= s@);
        assert(lines.deep_view() + split_lines(s@) =~= split_lines(s@));
    }
    while j < n
        invariant
            n == s@.len(),
            j <= n,
            split_lines(s@) == lines.deep_view() + split_lines(s@.skip(j as int)),
        decreases n - j,
    {
        let mut i = j;
        while i < n && s.get_char(i) != '\n'
            invariant
                n == s@.len(),
                j <= i <= n,
                forall|k: int| j <= k < i ==> s@[k] != '\n',
            decreases n - i,
        {
            i = i + 1;
        }
        let line = String::from_str(s.substring_char(j, i));
        let ghost prev = lines.deep_view();
        lines.push(line);
        proof {
            assert(lines.deep_view() =~= prev.push(line@));
            let sj = s@.skip(j as int);
            assert forall|k: int| 0 <= k < i - j implies sj[k] != '\n' by {
                assert(sj[k] == s@[j + k]);
            }
            if i < n {
                assert(sj[i - j] == s@[i as int]);
            }
            lemma_first_occ_is(sj, '\n', i - j);
            assert(sj.take(i - j) =~= s@.subrange(j as int, i as int));
            if i < n {
                assert(split_lines(sj) == seq![sj.take(i - j)] + split_lines(
                    sj.skip(i - j + 1),
                ));
                assert(sj.skip(i - j + 1) =~= s@.skip(i + 1));
                assert(prev + (seq![line@] + split_lines(s@.skip(i + 1))) =~= prev.push(
                    line@,
                ) + split_lines(s@.skip(i + 1)));
            } else {
                assert(sj =~= s@.subrange(j as int, n as int));
                assert(split_lines(sj) == seq![sj]);
                assert(s@.skip(n as int) =~= Seq::<char>::empty());
                assert(prev + seq![line@] =~= prev.push(line@) + split_lines(
                    s@.skip(n as int),
                ));
            }
        }
        j = if i < n {
            i + 1
        } else {
            n
        };
    }
    proof {
        assert(s@.skip(n as int) =~= Seq::<char>::empty());
        assert(lines.deep_view() + Seq::<Seq<char>>::empty() =~= lines.deep_view());
    }
    lines
}

/// Parses a whole string as a decimal key.
pub(crate) fn parse_key_str(s: &str) -> (r: Option<u32>)
    ensures
        r == parse_key(s@),
{
    let n = s.unicode_len();
    if n == 0 {
        return None;
    }
    let mut acc: u64 = 0;
    let mut p: usize = 0;
    while p < n
        invariant
            n == s@.len(),
            p <= n,
            acc <= u32::MAX,
            acc as nat == digits_val(s@.take(p as int)),
            forall|k: int| 0 <= k < p ==> is_digit(#[trigger] s@[k]),
        decreases n - p,
    {
        let c = s.get_char(p);
        let u = c as u32;
        if u < 48 || 57 < u {
            proof {
                assert(!is_digit(s@[p as int]));
            }
            return None;
        }
        let d = (u - 48) as u64;
        acc = acc * 10 + d;
        proof {
            assert(s@.take(p as int + 1).drop_last() =~= s@.take(p as int));
            assert(s@.take(p as int + 1).last() == s@[p as int]);
            assert(acc as nat == digits_val(s@.take(p as int + 1)));
        }
        if acc > 0xffff_ffff {
            proof {
                lemma_digits_val_take_le(s@, p as int + 1);
                assert(digits_val(s@) > u32::MAX);
            }
            return None;
        }
        p = p + 1;
    }
    proof {
        assert(s@.take(n as int) =~= s@);
    }
    Some(acc as u32)
}

/// Do two strings hold the same characters?
pub(crate) fn str_eq(a: &str, b: &str) -> (r: bool)
    ensures
        r == (a@ == b@),
{
    let na = a.unicode_len();
    let nb = b.unicode_len();
    if na != nb {
        return false;
    }
    let mut i: usize = 0;
    while i < na
        invariant
            na == a@.len(),
            na == b@.len(),
            i <= na,
            forall|k: int| 0 <= k < i ==> a@[k] == b@[k],
        decreases na - i,
    {
        if a.get_char(i) != b.get_char(i) {
            return false;
        }
        i = i + 1;
    }
    proof {
        assert(a@ =~= b@);
    }
    true
}

/// Parses one line into its record, if it holds one.
fn parse_rec(line: &str) -> (r: Option<(u32, String)>)
    ensures
        (match parse_line(line@) {
            Some(rec) => r matches Some(p) && p.0 == rec.0 && p.1@ == rec.1,
            None => r is None,
        }),
{
    let n = line.unicode_len();
    let mut t: usize = 0;
    while t < n && line.get_char(t) != ':'
        invariant
            n == line@.len(),
            t <= n,
            forall|k: int| 0 <= k < t ==> line@[k] != ':',
        decreases n - t,
    {
        t = t + 1;
    }
    proof {
        if t < n {
            assert(line@[t as int] == ':');
        }
        lemma_first_occ_is(line@, ':', t as int);
    }
    if t == n {
        return None;
    }
    let key_part = line.substring_char(0, t);
    proof {
        assert(key_part@ =~= line@.take(t as int));
    }
    match parse_key_str(key_part) {
        Some(key) => {
            let value = String::from_str(line.substring_char(t + 1, n));
            proof {
                assert(line@.skip(t as int + 1) =~= line@.subrange(t as int + 1, n as int));
                assert(parse_line(line@) == Some((key, line@.skip(t as int + 1))));
            }
            Some((key, value))
        },
        None => None,
    }
}

impl Db {
    /// Opens the store over the given backing content.  The content is
    /// taken as it stands: nothing is checked or repaired, exactly as a
    /// backing file is taken as found on disk.
    pub fn open(content: String) -> (db: Db)
        ensures
            db@ == content@,
    {
        Db { content }
    }

    /// The content the store holds, as text.  The caller persists this to
    /// the backing file.
    pub fn content(&self) -> (s: &String)
        ensures
            s@ == self@,
    {
        &self.content
    }

    /// Appends one record to the end of the content, never touching what
    /// is already there.  Duplicate keys are allowed; a record appended
    /// under an existing key is shadowed by the earlier one for `get`,
    /// which reads first match, though a full listing shows both.
    ///
    /// On newline-terminated content (which every content written by
    /// `update`, `delete` or `insert` after an empty or terminated start
    /// is), the append adds exactly one record at the end.
    pub fn insert(&mut self, key: u32, value: &str)
        requires
            no_newline(value@),
        ensures
            final(self)@ == old(self)@ + enc_record(key, value@),
            line_terminated(final(self)@),
            line_terminated(old(self)@) ==> records(final(self)@) == records(old(self)@).push(
                (key, value@),
            ),
    {
        push_record_line(key, value, &mut self.content);
        self.content.append("\n");
        proof {
            reveal_strlit("\n");
            assert(final(self)@ =~= old(self)@ + enc_record(key, value@));
            lemma_records_enc_record(key, value@);
            if line_terminated(old(self)@) {
                lemma_records_append(old(self)@, enc_record(key, value@));
                assert(records(old(self)@) + seq![(key, value@)] =~= records(
                    old(self)@,
                ).push((key, value@)));
            }
        }
    }

    /// Returns the value of the first record with the given key, scanning
    /// the content from the top; `None` when no record has the key.  Lines
    /// that do not parse as records are skipped, never an error.
    pub fn get(&self, key: u32) -> (r: Option<String>)
        ensures
            (match spec_get(records(self@), key) {
                Some(v) => r matches Some(s) && s@ == v,
                None => r is None,
            }),
    {
        let lines = lines_of(self.content.as_str());
        let ghost d = lines.deep_view();
        proof {
            assert(d.skip(0) =~= d);
        }
        let mut idx: usize = 0;
        while idx < lines.len()
            invariant
                lines.deep_view() == d,
                d == split_lines(self@),
                idx <= lines.len(),
                d.len() == lines.len(),
                spec_get(records(self@), key) == spec_get(lines_recs(d.skip(idx as int)), key),
            decreases lines.len() - idx,
        {
            proof {
                assert(lines@[idx as int]@ == d[idx as int]);
            }
            let pr = parse_rec(lines[idx].as_str());
            proof {
                lemma_lines_recs_skip_step(d, idx as int);
            }
            match pr {
                Some(p) => {
                    let ghost rec = parse_line(d[idx as int])->Some_0;
                    proof {
                        assert((seq![rec] + lines_recs(d.skip(idx as int + 1)))[0] == rec);
                        assert((seq![rec] + lines_recs(d.skip(idx as int + 1))).skip(1)
                            =~= lines_recs(d.skip(idx as int + 1)));
                    }
                    if p.0 == key {
                        return Some(p.1);
                    }
                },
                None => {
                    proof {
                        assert(lines_recs(d.skip(idx as int)) =~= lines_recs(
                            d.skip(idx as int + 1),
                        ));
                    }
                },
            }
            idx = idx + 1;
        }
        proof {
            assert(d.skip(idx as int) =~= Seq::<Seq<char>>::empty());
        }
        None
    }

    /// Returns every record in the content, in file order, shadowed
    /// duplicates included.  Lines that do not parse are omitted.
    pub fn get_all(&self) -> (r: Vec<(u32, String)>)
        ensures
            r.deep_view() == records(self@),
    {
        let lines = lines_of(self.content.as_str());
        let ghost d = lines.deep_view();
        let mut r: Vec<(u32, String)> = Vec::new();
        proof {
            assert(d.skip(0) =~= d);
            assert(r.deep_view() + records(self@) =~= records(self@));
        }
        let mut idx: usize = 0;
        while idx < lines.len()
            invariant
                lines.deep_view() == d,
                d == split_lines(self@),
                idx <= lines.len(),
                d.len() == lines.len(),
                records(self@) == r.deep_view() + lines_recs(d.skip(idx as int)),
            decreases lines.len() - idx,
        {
            proof {
                assert(lines@[idx as int]@ == d[idx as int]);
            }
            let pr = parse_rec(lines[idx].as_str());
            proof {
                lemma_lines_recs_skip_step(d, idx as int);
            }
            match pr {
                Some(p) => {
                    let ghost rec = parse_line(d[idx as int])->Some_0;
                    let ghost prev = r.deep_view();
                    r.push(p);
                    proof {
                        assert(r.deep_view() =~= prev.push(rec));
                        assert(prev + (seq![rec] + lines_recs(d.skip(idx as int + 1)))
                            =~= prev.push(rec) + lines_recs(d.skip(idx as int + 1)));
                    }
                },
                None => {
                    proof {
                        assert(lines_recs(d.skip(idx as int)) =~= lines_recs(
                            d.skip(idx as int + 1),
                        ));
                    }
                },
            }
            idx = idx + 1;
        }
        proof {
            assert(d.skip(idx as int) =~= Seq::<Seq<char>>::empty());
            assert(r.deep_view() + Seq::<Rec>::empty() =~= r.deep_view());
        }
        r
    }

    /// Rewrites the whole content, replacing every line that parses to a
    /// record with this key by the line for the new record; all other
    /// lines, parsing or not, are copied unchanged, in order.  Shadowed
    /// duplicates of the key are all normalised to the new value.
    pub fn update(&mut self, key: u32, value: &str)
        requires
            no_newline(value@),
        ensures
            final(self)@ == update_content(old(self)@, key, value@),
            records(final(self)@) == update_recs(records(old(self)@), key, value@),
            line_terminated(final(self)@),
    {
        let ghost c0 = self@;
        let lines = lines_of(self.content.as_str());
        let ghost d = lines.deep_view();
        let mut out = String::new();
        let mut idx: usize = 0;
        proof {
            assert(d.take(0) =~= Seq::<Seq<char>>::empty());
            assert(update_lines(d.take(0), key, value@) =~= Seq::<Seq<char>>::empty());
        }
        while idx < lines.len()
            invariant
                self@ == c0,
                lines.deep_view() == d,
                d == split_lines(c0),
                idx <= lines.len(),
                d.len() == lines.len(),
                no_newline(value@),
                out@ == join_lines(update_lines(d.take(idx as int), key, value@)),
            decreases lines.len() - idx,
        {
            proof {
                assert(lines@[idx as int]@ == d[idx as int]);
            }
            let pr = parse_rec(lines[idx].as_str());
            let ghost prev_out = out@;
            let is_match = match &pr {
                Some(p) => p.0 == key,
                None => false,
            };
            if is_match {
                push_record_line(key, value, &mut out);
            } else {
                out.append(lines[idx].as_str());
            }
            out.append("\n");
            proof {
                reveal_strlit("\n");
                let ul = update_line(d[idx as int], key, value@);
                assert(out@ =~= prev_out + (ul + seq!['\n']));
                let taken = update_lines(d.take(idx as int), key, value@);
                assert(update_lines(d.take(idx as int + 1), key, value@) =~= taken + seq![ul]);
                lemma_join_lines_append(taken, seq![ul]);
                assert(seq![ul].skip(1) =~= Seq::<Seq<char>>::empty());
                assert(seq![ul][0] == ul);
                assert(join_lines(Seq::<Seq<char>>::empty()) == Seq::<char>::empty());
                assert(join_lines(seq![ul]) =~= ul + seq!['\n']);
            }
            idx = idx + 1;
        }
        proof {
            assert(d.take(d.len() as int) =~= d);
        }
        self.content = out;
        proof {
            lemma_update_content(c0, key, value@);
        }
    }

    /// Rewrites the whole content, dropping every line that parses to a
    /// record with this key; all other lines, parsing or not, are copied
    /// unchanged, in order.  Shadowed duplicates of the key go with it.
    pub fn delete(&mut self, key: u32)
        ensures
            final(self)@ == delete_content(old(self)@, key),
            records(final(self)@) == delete_recs(records(old(self)@), key),
            line_terminated(final(self)@),
    {
        let ghost c0 = self@;
        let lines = lines_of(self.content.as_str());
        let ghost d = lines.deep_view();
        let mut out = String::new();
        let mut idx: usize = 0;
        proof {
            assert(d.take(0) =~= Seq::<Seq<char>>::empty());
        }
        while idx < lines.len()
            invariant
                self@ == c0,
                lines.deep_view() == d,
                d == split_lines(c0),
                idx <= lines.len(),
                d.len() == lines.len(),
                out@ == join_lines(delete_lines(d.take(idx as int), key)),
            decreases lines.len() - idx,
        {
            proof {
                assert(lines@[idx as int]@ == d[idx as int]);
            }
            let pr = parse_rec(lines[idx].as_str());
            let ghost prev_out = out@;
            let keep = match &pr {
                Some(p) => p.0 != key,
                None => true,
            };
            if keep {
                out.append(lines[idx].as_str());
                out.append("\n");
            }
            proof {
                reveal_strlit("\n");
                assert(keep == keep_line(d[idx as int], key));
                assert(d.take(idx as int + 1) =~= d.take(idx as int).push(d[idx as int]));
                lemma_delete_lines_push(d.take(idx as int), d[idx as int], key);
                let taken = delete_lines(d.take(idx as int), key);
                if keep {
                    lemma_join_lines_append(taken, seq![d[idx as int]]);
                    assert(seq![d[idx as int]].skip(1) =~= Seq::<Seq<char>>::empty());
                    assert(seq![d[idx as int]][0] == d[idx as int]);
                    assert(join_lines(Seq::<Seq<char>>::empty()) == Seq::<char>::empty());
                    assert(join_lines(seq![d[idx as int]]) =~= d[idx as int] + seq!['\n']);
                    assert(out@ =~= prev_out + (d[idx as int] + seq!['\n']));
                } else {
                    assert(delete_lines(d.take(idx as int + 1), key) =~= taken);
                }
            }
            idx = idx + 1;
        }
        proof {
            assert(d.take(d.len() as int) =~= d);
        }
        self.content = out;
        proof {
            lemma_delete_content(c0, key);
        }
    }
}

} // verus!

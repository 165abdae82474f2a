//! The store's laws: how the operations relate across calls.
//!
//! Each proof function here states one guarantee of the engine over the
//! model of [`crate::model`], in terms of the same spec functions that the
//! operations' own contracts use: `insert` appends `enc_record`, `update`
//! rewrites to `update_content`, `delete` to `delete_content`, and `get`
//! reads `spec_get(records(..))`.

use vstd::prelude::*;

use crate::model::{
    delete_content, delete_recs, enc_record, line_terminated, no_newline, parse_line, records,
    spec_get, split_lines, update_content, update_line, update_lines, update_recs, Rec,
};
use crate::model::{
    lemma_delete_content, lemma_delete_recs_no_key, lemma_delete_recs_push,
    lemma_parse_enc_line, lemma_records_append, lemma_records_enc_record,
    lemma_spec_get_append, lemma_spec_get_none_iff, lemma_split_join,
    lemma_split_lines_no_newline, lemma_update_content,
};

verus! {

/// Round trip: on a newline-terminated content that holds no record with
/// the key yet, inserting `(key, value)` makes `get` return that value.
///
/// (On content whose last line is not closed by a newline the appended
/// record glues onto that line, and on a key already present `get` keeps
/// returning the first, earlier record: both are left out here.)
pub proof fn lemma_insert_get_round_trip(c: Seq<char>, key: u32, v: Seq<char>)
    requires
        line_terminated(c),
        no_newline(v),
        forall|i: int| 0 <= i < records(c).len() ==> (#[trigger] records(c)[i]).0 != key,
    ensures
        spec_get(records(c + enc_record(key, v)), key) == Some(v),
{
    lemma_records_enc_record(key, v);
    lemma_records_append(c, enc_record(key, v));
    lemma_spec_get_append(records(c), seq![(key, v)], key);
    lemma_spec_get_none_iff(records(c), key);
    assert(seq![(key, v)][0] == (key, v));
}

/// Updating a key twice is the same as updating it once with the second
/// value, both for the content and for the records: repeated updates do
/// not grow the store, and every record of the key ends at the last value.
pub proof fn lemma_update_idempotent(c: Seq<char>, key: u32, v1: Seq<char>, v2: Seq<char>)
    requires
        no_newline(v1),
        no_newline(v2),
    ensures
        update_content(update_content(c, key, v1), key, v2) == update_content(c, key, v2),
        records(update_content(update_content(c, key, v1), key, v2)) == update_recs(
            records(c),
            key,
            v2,
        ),
{
    let ls = split_lines(c);
    let u1 = update_lines(ls, key, v1);
    lemma_split_lines_no_newline(c);
    lemma_parse_enc_line(key, v1);
    assert(forall|j: int| 0 <= j < u1.len() ==> no_newline(#[trigger] u1[j]));
    lemma_split_join(u1);
    assert forall|j: int|
        0 <= j < u1.len() implies #[trigger] update_line(u1[j], key, v2) == update_line(
        ls[j],
        key,
        v2,
    ) by {
        lemma_parse_enc_line(key, v1);
    }
    assert(update_lines(u1, key, v2) =~= update_lines(ls, key, v2));
    lemma_update_content(c, key, v2);
}

/// What an update touches: every record of the key now holds the new
/// value, every other record is exactly as it was, at its old position;
/// no record is added or lost.  In particular the relative order of the
/// untouched records is preserved.
pub proof fn lemma_update_preserves_untouched(rs: Seq<Rec>, key: u32, v: Seq<char>)
    ensures
        update_recs(rs, key, v).len() == rs.len(),
        forall|i: int|
            0 <= i < rs.len() && rs[i].0 == key ==> #[trigger] update_recs(rs, key, v)[i] == (
            key,
            v,
            ),
        forall|i: int|
            0 <= i < rs.len() && rs[i].0 != key ==> #[trigger] update_recs(rs, key, v)[i]
                == rs[i],
{
}

/// Delete completeness: after a delete, `get` on the key misses, and no
/// record with the key is left anywhere in the store.
pub proof fn lemma_delete_completeness(c: Seq<char>, key: u32)
    ensures
        spec_get(records(delete_content(c, key)), key) is None,
        forall|i: int|
            0 <= i < records(delete_content(c, key)).len() ==> (#[trigger] records(
                delete_content(c, key),
            )[i]).0 != key,
{
    lemma_delete_content(c, key);
    lemma_delete_recs_no_key(records(c), key);
    lemma_spec_get_none_iff(delete_recs(records(c), key), key);
}

/// What a delete keeps: exactly the records of other keys, as the
/// order-preserving subsequence that `filter` defines.
pub proof fn lemma_delete_preserves_untouched(rs: Seq<Rec>, key: u32)
    ensures
        delete_recs(rs, key) == rs.filter(|r: Rec| r.0 != key),
    decreases rs.len(),
{
    reveal(Seq::filter);
    if rs.len() > 0 {
        lemma_delete_preserves_untouched(rs.drop_last(), key);
        lemma_delete_recs_push(rs.drop_last(), rs.last(), key);
        assert(rs.drop_last().push(rs.last()) =~= rs);
        if rs.last().0 != key {
            assert(delete_recs(rs.drop_last(), key) + seq![rs.last()] =~= delete_recs(
                rs.drop_last(),
                key,
            ).push(rs.last()));
        } else {
            assert(delete_recs(rs.drop_last(), key) + Seq::<Rec>::empty() =~= delete_recs(
                rs.drop_last(),
                key,
            ));
        }
    }
}

/// Duplicate keys: inserting a key that is already present appends the
/// record — a full listing shows both — while `get` keeps returning what
/// it returned before, the first record's value.
pub proof fn lemma_insert_shadowed(c: Seq<char>, key: u32, v: Seq<char>)
    requires
        line_terminated(c),
        no_newline(v),
        spec_get(records(c), key) is Some,
    ensures
        records(c + enc_record(key, v)) == records(c).push((key, v)),
        spec_get(records(c + enc_record(key, v)), key) == spec_get(records(c), key),
{
    lemma_records_enc_record(key, v);
    lemma_records_append(c, enc_record(key, v));
    assert(records(c) + seq![(key, v)] =~= records(c).push((key, v)));
    lemma_spec_get_append(records(c), seq![(key, v)], key);
}

/// Tolerant parsing: a line that does not parse as a record contributes
/// nothing — readers see exactly the records of the content around it.
pub proof fn lemma_malformed_line_skipped(x: Seq<char>, l: Seq<char>, y: Seq<char>)
    requires
        line_terminated(x),
        no_newline(l),
        parse_line(l) is None,
    ensures
        records(x + (l + seq!['\n']) + y) == records(x + y),
{
    let bad = l + seq!['\n'];
    lemma_records_enc_record_none(l);
    lemma_records_append(x, bad + y);
    lemma_records_append(bad, y);
    lemma_records_append(x, y);
    assert(x + (l + seq!['\n']) + y =~= x + (bad + y));
    assert(records(x) + (records(bad) + records(y)) =~= records(x) + records(y));
}

/// A closed line that does not parse yields no record at all.
proof fn lemma_records_enc_record_none(l: Seq<char>)
    requires
        no_newline(l),
        parse_line(l) is None,
    ensures
        records(l + seq!['\n']) == Seq::<Rec>::empty(),
        line_terminated(l + seq!['\n']),
{
    crate::model::lemma_split_lines_single(l);
    assert(seq![l].skip(1) =~= Seq::<Seq<char>>::empty());
    assert(crate::model::lines_recs(seq![l]) == crate::model::line_recs(l)
        + crate::model::lines_recs(seq![l].skip(1)));
    assert(crate::model::line_recs(l) =~= Seq::<Rec>::empty());
    assert(records(l + seq!['\n']) =~= Seq::<Rec>::empty());
}

/// Empty store: an empty content holds no records, so `get` misses on
/// every key and a full listing is empty.
pub proof fn lemma_empty_store(key: u32)
    ensures
        records(Seq::<char>::empty()) == Seq::<Rec>::empty(),
        spec_get(records(Seq::<char>::empty()), key) is None,
{
    assert(split_lines(Seq::<char>::empty()) == Seq::<Seq<char>>::empty());
    assert(records(Seq::<char>::empty()) =~= Seq::<Rec>::empty());
}

} // verus!

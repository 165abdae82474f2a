//! The request router.
//!
//! The server maps one request line onto the store: a path chooses the
//! operation, query parameters of the form `name=value`, separated by
//! `'&'`, carry the key and the value.  The router performs the operation
//! on the store and produces the response body, whose exact text is part
//! of the observable contract.  The spec functions here define both the
//! parameter lookup and every response.

use vstd::prelude::*;
use vstd::string::StrSliceExecFns;
use vstd::string::StringExecFns;

use crate::model::{
    dec_digits, delete_content, enc_record, first_occ, no_newline, parse_key, records,
    spec_get, update_content, Rec,
};
use crate::model::lemma_first_occ_is;
use crate::store::{parse_key_str, push_dec, str_eq, Db};

verus! {

/// The value a single `name=value` segment gives for `name`: the part
/// after the first `'='`, when the part before it is exactly `name`.
pub open spec fn seg_param(seg: Seq<char>, name: Seq<char>) -> Option<Seq<char>> {
    let t = first_occ(seg, '=');
    if 0 <= t < seg.len() && seg.take(t) == name {
        Some(seg.skip(t + 1))
    } else {
        None
    }
}

/// The value of the first `'&'`-separated query segment that assigns to
/// `name`, if any.
pub open spec fn param_value(q: Seq<char>, name: Seq<char>) -> Option<Seq<char>>
    decreases q.len(),
{
    let e = first_occ(q, '&');
    if 0 <= e < q.len() {
        if seg_param(q.take(e), name) is Some {
            seg_param(q.take(e), name)
        } else {
            param_value(q.skip(e + 1), name)
        }
    } else {
        seg_param(q, name)
    }
}

/// A parameter taken from a newline-free query is newline-free itself.
pub proof fn lemma_param_value_no_newline(q: Seq<char>, name: Seq<char>)
    requires
        no_newline(q),
    ensures
        (match param_value(q, name) {
            Some(v) => no_newline(v),
            None => true,
        }),
    decreases q.len(),
{
    let e = first_occ(q, '&');
    crate::model::lemma_first_occ(q, '&');
    if 0 <= e < q.len() {
        let seg = q.take(e);
        assert forall|k: int| 0 <= k < seg.len() implies seg[k] != '\n' by {
            assert(seg[k] == q[k]);
        }
        lemma_seg_param_no_newline(seg, name);
        let rest = q.skip(e + 1);
        assert forall|k: int| 0 <= k < rest.len() implies #[trigger] rest[k] != '\n' by {
            assert(rest[k] == q[e + 1 + k]);
        }
        lemma_param_value_no_newline(rest, name);
    } else {
        lemma_seg_param_no_newline(q, name);
    }
}

proof fn lemma_seg_param_no_newline(seg: Seq<char>, name: Seq<char>)
    requires
        no_newline(seg),
    ensures
        (match seg_param(seg, name) {
            Some(v) => no_newline(v),
            None => true,
        }),
{
    let t = first_occ(seg, '=');
    if 0 <= t < seg.len() && seg.take(t) == name {
        let v = seg.skip(t + 1);
        assert forall|k: int| 0 <= k < v.len() implies #[trigger] v[k] != '\n' by {
            assert(v[k] == seg[t + 1 + k]);
        }
    }
}

/// Looks a query parameter up, returning the first assignment to `name`.
fn param_of(query: &str, name: &str) -> (r: Option<String>)
    ensures
        (match param_value(query@, name@) {
            Some(v) => r matches Some(s) && s@ == v,
            None => r is None,
        }),
{
    let n = query.unicode_len();
    let mut j: usize = 0;
    proof {
        assert(query@.skip(0) =~= query@);
    }
    while j < n
        invariant
            n == query@.len(),
            j <= n,
            param_value(query@, name@) == param_value(query@.skip(j as int), name@),
        decreases n - j,
    {
        let ghost qj = query@.skip(j as int);
        let mut i = j;
        while i < n && query.get_char(i) != '&'
            invariant
                n == query@.len(),
                j <= i <= n,
                forall|k: int| j <= k < i ==> query@[k] != '&',
            decreases n - i,
        {
            i = i + 1;
        }
        proof {
            assert forall|k: int| 0 <= k < i - j implies qj[k] != '&' by {
                assert(qj[k] == query@[j + k]);
            }
            if i < n {
                assert(qj[i - j] == query@[i as int]);
            }
            lemma_first_occ_is(qj, '&', i - j);
        }
        let ghost seg = if i < n {
            qj.take(i - j)
        } else {
            qj
        };
        proof {
            assert(seg =~= query@.subrange(j as int, i as int));
        }
        let mut t = j;
        while t < i && query.get_char(t) != '='
            invariant
                n == query@.len(),
                j <= t <= i <= n,
                forall|k: int| j <= k < t ==> query@[k] != '=',
            decreases i - t,
        {
            t = t + 1;
        }
        proof {
            assert forall|k: int| 0 <= k < t - j implies seg[k] != '=' by {
                assert(seg[k] == query@[j + k]);
            }
            if t < i {
                assert(seg[t - j] == query@[t as int]);
            }
            lemma_first_occ_is(seg, '=', t - j);
        }
        if t < i {
            let name_part = query.substring_char(j, t);
            proof {
                assert(name_part@ =~= seg.take(t - j));
            }
            if str_eq(name_part, name) {
                let value = String::from_str(query.substring_char(t + 1, i));
                proof {
                    assert(value@ =~= seg.skip(t - j + 1));
                    assert(seg_param(seg, name@) == Some(value@));
                }
                return Some(value);
            }
        }
        proof {
            assert(seg_param(seg, name@) is None);
            if i < n {
                assert(qj.skip(i - j + 1) =~= query@.skip(i as int + 1));
            }
        }
        if i < n {
            j = i + 1;
        } else {
            proof {
                assert(seg =~= qj);
                assert(query@.skip(n as int) =~= Seq::<char>::empty());
            }
            j = n;
        }
    }
    proof {
        assert(query@.skip(j as int) =~= Seq::<char>::empty());
    }
    None
}

/// One line of the full dump: `<key>: <value>` closed by a newline.
pub open spec fn dump_line(r: Rec) -> Seq<char> {
    dec_digits(r.0 as nat) + ": "@ + r.1 + "\n"@
}

/// The dump of all records, one line each, in store order.
pub open spec fn dump_records(rs: Seq<Rec>) -> Seq<char>
    decreases rs.len(),
{
    if rs.len() == 0 {
        Seq::empty()
    } else {
        dump_line(rs[0]) + dump_records(rs.skip(1))
    }
}

pub proof fn lemma_dump_records_push(rs: Seq<Rec>, x: Rec)
    ensures
        dump_records(rs.push(x)) == dump_records(rs) + dump_line(x),
    decreases rs.len(),
{
    if rs.len() == 0 {
        assert(rs.push(x)[0] == x);
        assert(rs.push(x).skip(1) =~= Seq::<Rec>::empty());
        assert(dump_records(Seq::<Rec>::empty()) == Seq::<char>::empty());
        assert(dump_records(rs.push(x)) == dump_line(x) + Seq::<char>::empty());
        assert(dump_line(x) + Seq::<char>::empty() =~= Seq::<char>::empty() + dump_line(x));
    } else {
        assert(rs.push(x).skip(1) =~= rs.skip(1).push(x));
        lemma_dump_records_push(rs.skip(1), x);
        assert(rs.push(x)[0] == rs[0]);
        assert(dump_line(rs[0]) + (dump_records(rs.skip(1)) + dump_line(x)) =~= (dump_line(
            rs[0],
        ) + dump_records(rs.skip(1))) + dump_line(x));
        assert(dump_records(rs.push(x)) =~= dump_records(rs) + dump_line(x));
    }
}

/// The response to a `get` request.
pub open spec fn get_response(c: Seq<char>, q: Seq<char>) -> Seq<char> {
    match param_value(q, "key"@) {
        None => "Missing 'key' parameter"@,
        Some(ks) => match parse_key(ks) {
            None => "Invalid key (must be a number)"@,
            Some(k) => match spec_get(records(c), k) {
                Some(v) => "Value: "@ + v,
                None => "Key not found"@,
            },
        },
    }
}

/// The response to a `set` request.
pub open spec fn set_response(q: Seq<char>) -> Seq<char> {
    match (param_value(q, "key"@), param_value(q, "value"@)) {
        (Some(ks), Some(v)) => match parse_key(ks) {
            Some(k) => "Saved: "@ + dec_digits(k as nat) + " = "@ + v,
            None => "Invalid key (must be a number)"@,
        },
        _ => "Missing 'key' or 'value' parameter"@,
    }
}

/// The response to an `update` request.
pub open spec fn update_response(q: Seq<char>) -> Seq<char> {
    match (param_value(q, "key"@), param_value(q, "value"@)) {
        (Some(ks), Some(v)) => match parse_key(ks) {
            Some(k) => "Updated: "@ + dec_digits(k as nat) + " = "@ + v,
            None => "Invalid key (must be a number)"@,
        },
        _ => "Missing 'key' or 'value' parameter"@,
    }
}

/// The response to a `delete` request.
pub open spec fn delete_response(q: Seq<char>) -> Seq<char> {
    match param_value(q, "key"@) {
        None => "Missing 'key' parameter"@,
        Some(ks) => match parse_key(ks) {
            None => "Invalid key (must be a number)"@,
            Some(k) => "Deleted key: "@ + dec_digits(k as nat),
        },
    }
}

/// The response to a request for all records.
pub open spec fn all_response(c: Seq<char>) -> Seq<char> {
    if records(c).len() == 0 {
        "Database is empty"@
    } else {
        "All data:\n"@ + dump_records(records(c))
    }
}

/// The content the store holds after a request: `set` appends, `update`
/// and `delete` rewrite, every other request leaves it alone.  A request
/// with a missing or invalid key, or a missing value, changes nothing.
pub open spec fn route_new_content(c: Seq<char>, path: Seq<char>, q: Seq<char>) -> Seq<char> {
    if path == "/set"@ {
        match (param_value(q, "key"@), param_value(q, "value"@)) {
            (Some(ks), Some(v)) => match parse_key(ks) {
                Some(k) => c + enc_record(k, v),
                None => c,
            },
            _ => c,
        }
    } else if path == "/update"@ {
        match (param_value(q, "key"@), param_value(q, "value"@)) {
            (Some(ks), Some(v)) => match parse_key(ks) {
                Some(k) => update_content(c, k, v),
                None => c,
            },
            _ => c,
        }
    } else if path == "/delete"@ {
        match param_value(q, "key"@) {
            Some(ks) => match parse_key(ks) {
                Some(k) => delete_content(c, k),
                None => c,
            },
            None => c,
        }
    } else {
        c
    }
}

/// The response body for a request, over the content as it stood when the
/// request arrived.
pub open spec fn route_response(c: Seq<char>, path: Seq<char>, q: Seq<char>) -> Seq<char> {
    if path == "/"@ {
        "Welcome! Use /get?key=1 or /set?key=1&value=hello"@
    } else if path == "/get"@ {
        get_response(c, q)
    } else if path == "/set"@ {
        set_response(q)
    } else if path == "/update"@ {
        update_response(q)
    } else if path == "/delete"@ {
        delete_response(q)
    } else if path == "/all"@ {
        all_response(c)
    } else {
        "404 Not Found"@
    }
}

/// Performs one request on the store and produces the response body.
///
/// The query must be free of newlines, as one line of a request is; a
/// value drawn from it can then stand in a record.
pub fn respond(db: &mut Db, path: &str, query: &str) -> (body: String)
    requires
        no_newline(query@),
    ensures
        final(db)@ == route_new_content(old(db)@, path@, query@),
        body@ == route_response(old(db)@, path@, query@),
{
    proof {
        reveal_strlit("/");
        reveal_strlit("/get");
        reveal_strlit("/set");
        reveal_strlit("/update");
        reveal_strlit("/delete");
        reveal_strlit("/all");
        assert("/"@.len() == 1);
        assert("/get"@.len() == 4 && "/get"@[1] == 'g');
        assert("/set"@.len() == 4 && "/set"@[1] == 's');
        assert("/all"@.len() == 4 && "/all"@[1] == 'a');
        assert("/update"@.len() == 7 && "/update"@[1] == 'u');
        assert("/delete"@.len() == 7 && "/delete"@[1] == 'd');
    }
    if str_eq(path, "/") {
        return String::from_str("Welcome! Use /get?key=1 or /set?key=1&value=hello");
    }
    if str_eq(path, "/get") {
        return match param_of(query, "key") {
            None => String::from_str("Missing 'key' parameter"),
            Some(ks) => match parse_key_str(ks.as_str()) {
                None => String::from_str("Invalid key (must be a number)"),
                Some(k) => match db.get(k) {
                    Some(v) => {
                        let mut r = String::from_str("Value: ");
                        r.append(v.as_str());
                        r
                    },
                    None => String::from_str("Key not found"),
                },
            },
        };
    }
    if str_eq(path, "/set") {
        let k_opt = param_of(query, "key");
        let v_opt = param_of(query, "value");
        return match (k_opt, v_opt) {
            (Some(ks), Some(v)) => match parse_key_str(ks.as_str()) {
                Some(k) => {
                    proof {
                        lemma_param_value_no_newline(query@, "value"@);
                    }
                    db.insert(k, v.as_str());
                    let mut r = String::from_str("Saved: ");
                    push_dec(k, &mut r);
                    r.append(" = ");
                    r.append(v.as_str());
                    r
                },
                None => String::from_str("Invalid key (must be a number)"),
            },
            _ => String::from_str("Missing 'key' or 'value' parameter"),
        };
    }
    if str_eq(path, "/update") {
        let k_opt = param_of(query, "key");
        let v_opt = param_of(query, "value");
        return match (k_opt, v_opt) {
            (Some(ks), Some(v)) => match parse_key_str(ks.as_str()) {
                Some(k) => {
                    proof {
                        lemma_param_value_no_newline(query@, "value"@);
                    }
                    db.update(k, v.as_str());
                    let mut r = String::from_str("Updated: ");
                    push_dec(k, &mut r);
                    r.append(" = ");
                    r.append(v.as_str());
                    r
                },
                None => String::from_str("Invalid key (must be a number)"),
            },
            _ => String::from_str("Missing 'key' or 'value' parameter"),
        };
    }
    if str_eq(path, "/delete") {
        return match param_of(query, "key") {
            None => String::from_str("Missing 'key' parameter"),
            Some(ks) => match parse_key_str(ks.as_str()) {
                None => String::from_str("Invalid key (must be a number)"),
                Some(k) => {
                    db.delete(k);
                    let mut r = String::from_str("Deleted key: ");
                    push_dec(k, &mut r);
                    r
                },
            },
        };
    }
    if str_eq(path, "/all") {
        let all = db.get_all();
        if all.len() == 0 {
            proof {
                assert(records(db@).len() == 0);
            }
            return String::from_str("Database is empty");
        }
        let ghost rs = records(db@);
        let mut r = String::from_str("All data:\n");
        let mut idx: usize = 0;
        proof {
            assert(rs.take(0) =~= Seq::<Rec>::empty());
            assert(r@ + Seq::<char>::empty() =~= r@);
        }
        while idx < all.len()
            invariant
                all.deep_view() == records(db@),
                rs == records(db@),
                idx <= all.len(),
                all.len() == rs.len(),
                r@ == "All data:\n"@ + dump_records(rs.take(idx as int)),
            decreases all.len() - idx,
        {
            proof {
                assert(all.deep_view()[idx as int] == rs[idx as int]);
            }
            let kv = &all[idx];
            push_dec(kv.0, &mut r);
            r.append(": ");
            r.append(kv.1.as_str());
            r.append("\n");
            proof {
                lemma_dump_records_push(rs.take(idx as int), rs[idx as int]);
                assert(rs.take(idx as int + 1) =~= rs.take(idx as int).push(rs[idx as int]));
                assert(r@ =~= "All data:\n"@ + dump_records(rs.take(idx as int + 1)));
            }
            idx = idx + 1;
        }
        proof {
            assert(rs.take(rs.len() as int) =~= rs);
        }
        return r;
    }
    String::from_str("404 Not Found")
}

} // verus!

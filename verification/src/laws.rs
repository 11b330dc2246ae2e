//! The laws the library satisfies, proved from the spec grammar and the
//! canonical serialization: parsing a serialized tree gives the tree back,
//! parsing does not depend on whitespace between tokens, and read-only
//! navigation never fails.

use vstd::prelude::*;

use crate::grammar::fuel_for;
use crate::grammar::lemma_fuel_array;
use crate::grammar::lemma_fuel_obj_pairs;
use crate::grammar::lemma_fuel_object;
use crate::grammar::lemma_fuel_value;
use crate::grammar::lemma_fuel_arr_items;
use crate::grammar::lemma_string_bounds;
use crate::grammar::lemma_ws_bounds;
use crate::grammar::sp_arr_items_at;
use crate::grammar::sp_array_at;
use crate::grammar::sp_can_start_value;
use crate::grammar::sp_doc;
use crate::grammar::sp_keyword;
use crate::grammar::sp_arr_items;
use crate::grammar::sp_num_loop;
use crate::grammar::sp_obj_pairs;
use crate::grammar::sp_object;
use crate::grammar::sp_array;
use crate::grammar::sp_value;
use crate::grammar::sp_number;
use crate::grammar::sp_obj_pairs_at;
use crate::grammar::sp_object_at;
use crate::grammar::sp_str_body;
use crate::grammar::sp_string;
use crate::grammar::sp_value_at;
use crate::grammar::sp_walk_read;
use crate::grammar::sp_ws;
use crate::grammar::NumSt;
use crate::grammar::PFail;
use crate::grammar::PathTok;
use crate::model::digits_wf;
use crate::model::escape_char;
use crate::model::escape_seq;
use crate::model::exp_free;
use crate::model::is_digit_s;
use crate::model::is_space_s;
use crate::model::json_wf;
use crate::model::keys_distinct;
use crate::model::lemma_escape_front;
use crate::model::lemma_pairs_set_fresh;
use crate::model::lemma_ser_items_front;
use crate::model::lemma_ser_pairs_front;
use crate::model::num_wf;
use crate::model::pairs_has;
use crate::model::ser_json;
use crate::model::ser_items;
use crate::model::ser_num;
use crate::model::ser_pair;
use crate::model::ser_pairs;
use crate::model::ser_text;
use crate::model::Json;
use crate::model::Num;

verus! {

/// A character that would extend a numeric literal.
pub open spec fn num_cont(c: char) -> bool {
    is_digit_s(c) || c == '.'
}

/// The characters of `x` stand in `s` beginning at position `p`.
pub open spec fn at_seq(s: Seq<char>, p: int, x: Seq<char>) -> bool {
    forall|i: int| 0 <= i < x.len() ==> s[p + i] == #[trigger] x[i]
}

/// Splitting an embedded concatenation at its seam.
proof fn lemma_at_split(s: Seq<char>, p: int, a: Seq<char>, b: Seq<char>)
    requires
        at_seq(s, p, a + b),
    ensures
        at_seq(s, p, a),
        at_seq(s, p + a.len(), b),
{
    assert forall|i: int| 0 <= i < a.len() implies s[p + i] == #[trigger] a[i] by {
        assert((a + b)[i] == a[i]);
        assert(s[p + i] == (a + b)[i]);
    }
    assert forall|i: int| 0 <= i < b.len() implies s[p + a.len() + i] == #[trigger] b[i] by {
        assert((a + b)[a.len() + i] == b[i]);
        assert(s[p + (a.len() + i)] == (a + b)[a.len() + i]);
    }
}

/// Reading a serialized string body: the escaped text before the closing
/// quote comes back unescaped, appended to what was collected so far.
proof fn lemma_rt_strbody(s: Seq<char>, p: int, t: Seq<char>, acc: Seq<char>)
    requires
        0 <= p,
        p + escape_seq(t).len() + 1 <= s.len(),
        at_seq(s, p, escape_seq(t)),
        s[p + escape_seq(t).len()] == '"',
    ensures
        sp_str_body(s, p, acc) == Ok::<(Seq<char>, int), PFail>(
            (acc + t, p + escape_seq(t).len() + 1),
        ),
    decreases t.len(),
{
    if t.len() == 0 {
        assert(escape_seq(t).len() == 0);
        assert(s[p] == '"');
        assert(acc + t =~= acc);
    } else {
        lemma_escape_front(t);
        let e0 = escape_char(t[0]);
        let rest = escape_seq(t.drop_first());
        let l0 = e0.len() as int;
        let lr = rest.len() as int;
        lemma_at_split(s, p, e0, rest);
        assert(s[p + l0 + lr] == '"');
        if e0.len() == 1 {
            assert(s[p + 0] == e0[0]);
            assert(e0[0] == t[0]);
            assert(t[0] != '"' && t[0] != '\\');
            lemma_rt_strbody(s, p + 1, t.drop_first(), acc.push(t[0]));
            assert(acc.push(t[0]) + t.drop_first() =~= acc + t);
        } else {
            assert(s[p + 0] == e0[0]);
            assert(s[p + 1] == e0[1]);
            assert(e0[0] == '\\');
            assert(crate::grammar::unescape(e0[1]) == Some(t[0]));
            lemma_rt_strbody(s, p + 2, t.drop_first(), acc.push(t[0]));
            assert(acc.push(t[0]) + t.drop_first() =~= acc + t);
        }
    }
}

/// Reading a whole serialized string literal gives the text back.
proof fn lemma_rt_text(s: Seq<char>, p: int, t: Seq<char>)
    requires
        0 <= p,
        p + ser_text(t).len() <= s.len(),
        at_seq(s, p, ser_text(t)),
    ensures
        sp_string(s, p) == Ok::<(Seq<char>, int), PFail>((t, p + ser_text(t).len())),
{
    let le = escape_seq(t).len() as int;
    assert(ser_text(t) =~= seq!['"'] + (escape_seq(t) + seq!['"']));
    lemma_at_split(s, p, seq!['"'], escape_seq(t) + seq!['"']);
    lemma_at_split(s, p + 1, escape_seq(t), seq!['"']);
    assert(s[p + 0] == seq!['"'][0]);
    assert(s[p + 1 + le + 0] == seq!['"'][0]);
    lemma_rt_strbody(s, p + 1, t, Seq::empty());
    assert(Seq::<char>::empty() + t =~= t);
}

/// Reading a serialized keyword consumes exactly the word.
proof fn lemma_rt_kw(s: Seq<char>, p: int, w: Seq<char>)
    requires
        0 <= p,
        p + w.len() <= s.len(),
        at_seq(s, p, w),
    ensures
        sp_keyword(s, p, w) == Ok::<int, PFail>(p + w.len()),
    decreases w.len(),
{
    if w.len() > 0 {
        assert(w =~= seq![w[0]] + w.drop_first());
        lemma_at_split(s, p, seq![w[0]], w.drop_first());
        assert(s[p + 0] == seq![w[0]][0]);
        lemma_rt_kw(s, p + 1, w.drop_first());
    }
}

/// The number automaton consumes a run of integer digits, collecting them.
proof fn lemma_num_run_int(s: Seq<char>, p: int, neg: bool, done: Seq<char>, ds: Seq<char>)
    requires
        0 <= p,
        p + ds.len() <= s.len(),
        at_seq(s, p, ds),
        forall|i: int| 0 <= i < ds.len() ==> is_digit_s(#[trigger] ds[i]),
    ensures
        sp_num_loop(s, p, NumSt::Digits, neg, done, None) == sp_num_loop(
            s,
            p + ds.len(),
            NumSt::Digits,
            neg,
            done + ds,
            None,
        ),
    decreases ds.len(),
{
    if ds.len() == 0 {
        assert(done + ds =~= done);
    } else {
        assert(ds =~= seq![ds[0]] + ds.drop_first());
        lemma_at_split(s, p, seq![ds[0]], ds.drop_first());
        assert(s[p + 0] == seq![ds[0]][0]);
        lemma_num_run_int(s, p + 1, neg, done.push(ds[0]), ds.drop_first());
        assert(done.push(ds[0]) + ds.drop_first() =~= done + ds);
    }
}

/// The number automaton consumes a run of fraction digits, collecting them.
proof fn lemma_num_run_frac(
    s: Seq<char>,
    p: int,
    neg: bool,
    ip: Seq<char>,
    fdone: Seq<char>,
    ds: Seq<char>,
)
    requires
        0 <= p,
        p + ds.len() <= s.len(),
        at_seq(s, p, ds),
        forall|i: int| 0 <= i < ds.len() ==> is_digit_s(#[trigger] ds[i]),
    ensures
        sp_num_loop(s, p, NumSt::Frac, neg, ip, Some(fdone)) == sp_num_loop(
            s,
            p + ds.len(),
            NumSt::Frac,
            neg,
            ip,
            Some(fdone + ds),
        ),
    decreases ds.len(),
{
    if ds.len() == 0 {
        assert(fdone + ds =~= fdone);
    } else {
        assert(ds =~= seq![ds[0]] + ds.drop_first());
        lemma_at_split(s, p, seq![ds[0]], ds.drop_first());
        assert(s[p + 0] == seq![ds[0]][0]);
        lemma_num_run_frac(s, p + 1, neg, ip, fdone.push(ds[0]), ds.drop_first());
        assert(fdone.push(ds[0]) + ds.drop_first() =~= fdone + ds);
    }
}

/// Reading a serialized number gives the number back, provided the next
/// character (if any) could not extend it.
proof fn lemma_rt_num(s: Seq<char>, p: int, n: Num)
    requires
        num_wf(n),
        n.exponent is None,
        0 <= p,
        p + ser_num(n).len() <= s.len(),
        at_seq(s, p, ser_num(n)),
        p + ser_num(n).len() == s.len() || !num_cont(s[p + ser_num(n).len()]),
    ensures
        sp_number(s, p) == Ok::<(Num, int), PFail>((n, p + ser_num(n).len())),
{
    let sn = ser_num(n);
    let l = sn.len() as int;
    let end = p + l;
    let sign: Seq<char> = if n.negative {
        seq!['-']
    } else {
        Seq::empty()
    };
    let fracc: Seq<char> = match n.frac_part {
        Some(f) => seq!['.'] + f,
        None => Seq::empty(),
    };
    let ip = n.int_part;
    let li = ip.len() as int;
    assert(sn =~= sign + (ip + fracc));
    lemma_at_split(s, p, sign, ip + fracc);
    let q = p + sign.len();
    lemma_at_split(s, q, ip, fracc);
    // consume the sign, if present
    if n.negative {
        assert(s[p + 0] == sign[0]);
        assert(sp_number(s, p) == sp_num_loop(s, q, NumSt::Sign, true, Seq::empty(), None));
    } else {
        assert(sp_number(s, p) == sp_num_loop(s, q, NumSt::Start, false, Seq::empty(), None));
    }
    assert(s[q + 0] == ip[0]);
    let after_int = q + li;
    if ip[0] == '0' {
        assert(li == 1);
        assert(sp_number(s, p) == sp_num_loop(s, q + 1, NumSt::Zero, n.negative, seq!['0'], None));
        assert(seq!['0'] =~= ip);
        match n.frac_part {
            None => {
                assert(after_int == end);
                if end < s.len() {
                    assert(!num_cont(s[end]));
                }
                assert(sp_num_loop(s, end, NumSt::Zero, n.negative, ip, None) == Ok::<
                    (Num, int),
                    PFail,
                >((n, end)));
            },
            Some(f) => {
                lemma_at_split(s, after_int, seq!['.'], f);
                assert(s[after_int + 0] == seq!['.'][0]);
                assert(sp_num_loop(s, after_int, NumSt::Zero, n.negative, ip, None)
                    == sp_num_loop(s, after_int + 1, NumSt::Dot, n.negative, ip, Some(
                    Seq::empty(),
                )));
                lemma_rt_num_frac(s, p, n, after_int + 1, f);
            },
        }
    } else {
        assert(is_digit_s(ip[0]));
        assert(sp_number(s, p) == sp_num_loop(
            s,
            q + 1,
            NumSt::Digits,
            n.negative,
            seq![ip[0]],
            None,
        ));
        assert(ip =~= seq![ip[0]] + ip.drop_first());
        lemma_at_split(s, q, seq![ip[0]], ip.drop_first());
        lemma_num_run_int(s, q + 1, n.negative, seq![ip[0]], ip.drop_first());
        assert(seq![ip[0]] + ip.drop_first() =~= ip);
        assert(sp_number(s, p) == sp_num_loop(s, after_int, NumSt::Digits, n.negative, ip, None));
        match n.frac_part {
            None => {
                assert(after_int == end);
                if end < s.len() {
                    assert(!is_digit_s(s[end]) && s[end] != '.');
                }
                assert(sp_num_loop(s, end, NumSt::Digits, n.negative, ip, None) == Ok::<
                    (Num, int),
                    PFail,
                >((n, end)));
            },
            Some(f) => {
                lemma_at_split(s, after_int, seq!['.'], f);
                assert(s[after_int + 0] == seq!['.'][0]);
                assert(sp_num_loop(s, after_int, NumSt::Digits, n.negative, ip, None)
                    == sp_num_loop(s, after_int + 1, NumSt::Dot, n.negative, ip, Some(
                    Seq::empty(),
                )));
                lemma_rt_num_frac(s, p, n, after_int + 1, f);
            },
        }
    }
}

/// The fraction phase of reading a serialized number, from right after the
/// decimal point.
proof fn lemma_rt_num_frac(s: Seq<char>, p: int, n: Num, fq: int, f: Seq<char>)
    requires
        num_wf(n),
        n.exponent is None,
        n.frac_part == Some(f),
        0 <= p <= fq,
        p + ser_num(n).len() <= s.len(),
        fq == p + ser_num(n).len() - f.len(),
        at_seq(s, fq, f),
        p + ser_num(n).len() == s.len() || !num_cont(s[p + ser_num(n).len()]),
    ensures
        sp_num_loop(s, fq, NumSt::Dot, n.negative, n.int_part, Some(Seq::empty())) == Ok::<
            (Num, int),
            PFail,
        >((n, p + ser_num(n).len())),
{
    let end = p + ser_num(n).len();
    let lf = f.len() as int;
    assert(digits_wf(f));
    assert(s[fq + 0] == f[0]);
    assert(sp_num_loop(s, fq, NumSt::Dot, n.negative, n.int_part, Some(Seq::empty()))
        == sp_num_loop(s, fq + 1, NumSt::Frac, n.negative, n.int_part, Some(seq![f[0]])));
    assert(f =~= seq![f[0]] + f.drop_first());
    lemma_at_split(s, fq, seq![f[0]], f.drop_first());
    lemma_num_run_frac(s, fq + 1, n.negative, n.int_part, seq![f[0]], f.drop_first());
    assert(seq![f[0]] + f.drop_first() =~= f);
    if end < s.len() {
        assert(!is_digit_s(s[end]));
    }
    assert(sp_num_loop(s, end, NumSt::Frac, n.negative, n.int_part, Some(f)) == Ok::<
        (Num, int),
        PFail,
    >((n, end)));
}

/// What a well-formed value's serialization begins with: one character that
/// dispatches to the right production, never whitespace.
proof fn lemma_ser_first(v: Json)
    requires
        json_wf(v),
    ensures
        ser_json(v).len() > 0,
        sp_can_start_value(ser_json(v)[0]),
        !is_space_s(ser_json(v)[0]),
        v is Object ==> ser_json(v)[0] == '{',
        v is List ==> ser_json(v)[0] == '[',
        v is Text ==> ser_json(v)[0] == '"',
        v is Null ==> ser_json(v)[0] == 'n',
        v matches Json::Boolean(b) ==> ser_json(v)[0] == (if b {
            't'
        } else {
            'f'
        }),
        v matches Json::Number(n) ==> (if n.negative {
            ser_json(v)[0] == '-'
        } else {
            ser_json(v)[0] == n.int_part[0] && is_digit_s(ser_json(v)[0])
        }),
{
    match v {
        Json::Object(ps) => {
            assert(ser_json(v)[0] == (seq!['{'] + ser_pairs(ps) + seq!['}'])[0]);
            assert((seq!['{'] + ser_pairs(ps) + seq!['}'])[0] == '{');
        },
        Json::List(es) => {
            assert((seq!['['] + ser_items(es) + seq![']'])[0] == '[');
        },
        Json::Text(t) => {
            assert((seq!['"'] + escape_seq(t) + seq!['"'])[0] == '"');
        },
        Json::Number(n) => {
            let sign: Seq<char> = if n.negative {
                seq!['-']
            } else {
                Seq::empty()
            };
            let fracc: Seq<char> = match n.frac_part {
                Some(f) => seq!['.'] + f,
                None => Seq::empty(),
            };
            let expc: Seq<char> = match n.exponent {
                Some(e) => seq!['e'] + crate::model::ser_int(e),
                None => Seq::empty(),
            };
            assert(ser_num(n) =~= sign + (n.int_part + (fracc + expc)));
            if n.negative {
                assert((sign + (n.int_part + (fracc + expc)))[0] == '-');
            } else {
                assert((sign + (n.int_part + (fracc + expc)))[0] == n.int_part[0]);
                assert(is_digit_s(n.int_part[0]));
            }
        },
        Json::Boolean(b) => {},
        Json::Null => {},
    }
}

/// Reading the serialization of a well-formed, exponent-free value gives the
/// value back, provided the next character could not extend a number.
pub proof fn lemma_rt_value(s: Seq<char>, p: int, v: Json)
    requires
        json_wf(v),
        exp_free(v),
        0 <= p,
        p + ser_json(v).len() <= s.len(),
        at_seq(s, p, ser_json(v)),
        p + ser_json(v).len() == s.len() || !num_cont(s[p + ser_json(v).len()]),
    ensures
        sp_value_at(s, p) == Ok::<(Json, int), PFail>((v, p + ser_json(v).len())),
    decreases v, 1int,
{
    lemma_ser_first(v);
    assert(s[p + 0] == ser_json(v)[0]);
    match v {
        Json::Object(ps) => {
            lemma_rt_object(s, p, ps);
        },
        Json::List(es) => {
            lemma_rt_array(s, p, es);
        },
        Json::Text(t) => {
            lemma_rt_text(s, p, t);
        },
        Json::Number(n) => {
            lemma_rt_num(s, p, n);
        },
        Json::Boolean(b) => {
            if b {
                lemma_rt_kw(s, p, seq!['t', 'r', 'u', 'e']);
            } else {
                lemma_rt_kw(s, p, seq!['f', 'a', 'l', 's', 'e']);
            }
        },
        Json::Null => {
            lemma_rt_kw(s, p, seq!['n', 'u', 'l', 'l']);
        },
    }
}

/// Reading the serialization of a well-formed object gives its entries back.
proof fn lemma_rt_object(s: Seq<char>, p: int, ps: Seq<(Seq<char>, Json)>)
    requires
        json_wf(Json::Object(ps)),
        exp_free(Json::Object(ps)),
        0 <= p,
        p + ser_json(Json::Object(ps)).len() <= s.len(),
        at_seq(s, p, ser_json(Json::Object(ps))),
    ensures
        sp_object_at(s, p) == Ok::<(Seq<(Seq<char>, Json)>, int), PFail>(
            (ps, p + ser_json(Json::Object(ps)).len()),
        ),
    decreases Json::Object(ps), 0int,
{
    let body = ser_pairs(ps);
    let lb = body.len() as int;
    assert(ser_json(Json::Object(ps)) =~= seq!['{'] + (body + seq!['}']));
    lemma_at_split(s, p, seq!['{'], body + seq!['}']);
    lemma_at_split(s, p + 1, body, seq!['}']);
    assert(s[p + 0] == seq!['{'][0]);
    assert(s[p + 1 + lb + 0] == seq!['}'][0]);
    lemma_fuel_obj_pairs(
        s,
        p + 1,
        Seq::empty(),
        (fuel_for(s, p) - 1) as nat,
        fuel_for(s, p + 1),
    );
    lemma_rt_pairs(s, p + 1, Seq::empty(), ps);
    assert(Seq::<(Seq<char>, Json)>::empty() + ps =~= ps);
}

/// Reading serialized entries after `{` or `,`: the remaining entries are
/// appended to those already read.
proof fn lemma_rt_pairs(
    s: Seq<char>,
    p: int,
    done: Seq<(Seq<char>, Json)>,
    left: Seq<(Seq<char>, Json)>,
)
    requires
        0 <= p,
        p + ser_pairs(left).len() + 1 <= s.len(),
        at_seq(s, p, ser_pairs(left)),
        s[p + ser_pairs(left).len()] == '}',
        keys_distinct(done + left),
        forall|i: int|
            0 <= i < left.len() ==> json_wf(#[trigger] left[i].1) && exp_free(left[i].1),
    ensures
        sp_obj_pairs_at(s, p, done) == Ok::<(Seq<(Seq<char>, Json)>, int), PFail>(
            (done + left, p + ser_pairs(left).len() + 1),
        ),
    decreases left, 0int,
{
    let body = ser_pairs(left);
    let lb = body.len() as int;
    if left.len() == 0 {
        assert(lb == 0);
        assert(sp_ws(s, p) == p);
        assert(done + left =~= done);
    } else {
        lemma_ser_pairs_front(left);
        let kv = left[0];
        assert(json_wf(kv.1) && exp_free(kv.1));
        let key_ser = ser_text(kv.0);
        let val_ser = ser_json(kv.1);
        let lk = key_ser.len() as int;
        let lv = val_ser.len() as int;
        let pair_ser = ser_pair(kv);
        assert(pair_ser == key_ser + seq![':'] + val_ser);
        let tail: Seq<char> = if left.len() == 1 {
            Seq::empty()
        } else {
            seq![','] + ser_pairs(left.drop_first())
        };
        assert(body =~= (key_ser + (seq![':'] + val_ser)) + tail);
        lemma_at_split(s, p, key_ser + (seq![':'] + val_ser), tail);
        lemma_at_split(s, p, key_ser, seq![':'] + val_ser);
        lemma_at_split(s, p + lk, seq![':'], val_ser);
        let r = p + lk;
        let u = r + 1;
        let w = u + lv;
        assert(s[r + 0] == seq![':'][0]);
        lemma_ser_first(kv.1);
        assert(s[u + 0] == val_ser[0]);
        // the key begins with a quote, so no whitespace is skipped
        assert(key_ser =~= seq!['"'] + (escape_seq(kv.0) + seq!['"']));
        lemma_at_split(s, p, seq!['"'], escape_seq(kv.0) + seq!['"']);
        assert(s[p + 0] == seq!['"'][0]);
        assert(sp_ws(s, p) == p);
        lemma_rt_text(s, p, kv.0);
        assert(sp_ws(s, r) == r);
        assert(sp_ws(s, u) == u);
        // the value parses with any sufficient fuel
        lemma_fuel_value(s, u, fuel_for(s, u), fuel_for(s, p));
        // what follows the value is a comma or the closing brace
        if left.len() == 1 {
            assert(w == p + lb);
            assert(s[w] == '}');
            lemma_rt_value(s, u, kv.1);
            assert(sp_ws(s, w) == w);
            assert(!pairs_has(done, kv.0)) by {
                if pairs_has(done, kv.0) {
                    let j = choose|j: int|
                        0 <= j < done.len() && (#[trigger] done[j].0) == kv.0;
                    assert((done + left)[j].0 == kv.0);
                    assert((done + left)[done.len() as int].0 == kv.0);
                }
            }
            lemma_pairs_set_fresh(done, kv.0, kv.1);
            assert((kv.0, kv.1) == kv);
            assert(done.push(kv) =~= done + left);
        } else {
            lemma_at_split(s, w, seq![','], ser_pairs(left.drop_first()));
            assert(s[w + 0] == seq![','][0]);
            lemma_rt_value(s, u, kv.1);
            assert(sp_ws(s, w) == w);
            assert(!pairs_has(done, kv.0)) by {
                if pairs_has(done, kv.0) {
                    let j = choose|j: int|
                        0 <= j < done.len() && (#[trigger] done[j].0) == kv.0;
                    assert((done + left)[j].0 == kv.0);
                    assert((done + left)[done.len() as int].0 == kv.0);
                }
            }
            lemma_pairs_set_fresh(done, kv.0, kv.1);
            assert((kv.0, kv.1) == kv);
            lemma_fuel_obj_pairs(
                s,
                w + 1,
                done.push(kv),
                (fuel_for(s, p) - 1) as nat,
                fuel_for(s, w + 1),
            );
            assert(done.push(kv) + left.drop_first() =~= done + left);
            assert forall|i: int|
                0 <= i < left.drop_first().len() implies json_wf(
                #[trigger] left.drop_first()[i].1,
            ) && exp_free(left.drop_first()[i].1) by {
                assert(left.drop_first()[i] == left[i + 1]);
            }
            assert(w + 1 + ser_pairs(left.drop_first()).len() == p + lb);
            lemma_rt_pairs(s, w + 1, done.push(kv), left.drop_first());
        }
    }
}

/// Reading the serialization of a well-formed list gives its items back.
proof fn lemma_rt_array(s: Seq<char>, p: int, es: Seq<Json>)
    requires
        json_wf(Json::List(es)),
        exp_free(Json::List(es)),
        0 <= p,
        p + ser_json(Json::List(es)).len() <= s.len(),
        at_seq(s, p, ser_json(Json::List(es))),
    ensures
        sp_array_at(s, p) == Ok::<(Seq<Json>, int), PFail>(
            (es, p + ser_json(Json::List(es)).len()),
        ),
    decreases Json::List(es), 0int,
{
    let body = ser_items(es);
    let lb = body.len() as int;
    assert(ser_json(Json::List(es)) =~= seq!['['] + (body + seq![']']));
    lemma_at_split(s, p, seq!['['], body + seq![']']);
    lemma_at_split(s, p + 1, body, seq![']']);
    assert(s[p + 0] == seq!['['][0]);
    assert(s[p + 1 + lb + 0] == seq![']'][0]);
    lemma_fuel_arr_items(
        s,
        p + 1,
        Seq::empty(),
        (fuel_for(s, p) - 1) as nat,
        fuel_for(s, p + 1),
    );
    lemma_rt_items(s, p + 1, Seq::empty(), es);
    assert(Seq::<Json>::empty() + es =~= es);
}

/// Reading serialized items after `[` or `,`: the remaining items are
/// appended to those already read.
proof fn lemma_rt_items(s: Seq<char>, p: int, done: Seq<Json>, left: Seq<Json>)
    requires
        0 <= p,
        p + ser_items(left).len() + 1 <= s.len(),
        at_seq(s, p, ser_items(left)),
        s[p + ser_items(left).len()] == ']',
        forall|i: int| 0 <= i < left.len() ==> json_wf(#[trigger] left[i]) && exp_free(left[i]),
    ensures
        sp_arr_items_at(s, p, done) == Ok::<(Seq<Json>, int), PFail>(
            (done + left, p + ser_items(left).len() + 1),
        ),
    decreases left, 0int,
{
    let body = ser_items(left);
    let lb = body.len() as int;
    if left.len() == 0 {
        assert(lb == 0);
        assert(sp_ws(s, p) == p);
        assert(done + left =~= done);
    } else {
        lemma_ser_items_front(left);
        let v0 = left[0];
        assert(json_wf(v0) && exp_free(v0));
        let val_ser = ser_json(v0);
        let lv = val_ser.len() as int;
        let tail: Seq<char> = if left.len() == 1 {
            Seq::empty()
        } else {
            seq![','] + ser_items(left.drop_first())
        };
        assert(body =~= val_ser + tail);
        lemma_at_split(s, p, val_ser, tail);
        lemma_ser_first(v0);
        assert(s[p + 0] == val_ser[0]);
        assert(sp_ws(s, p) == p);
        let w = p + lv;
        lemma_fuel_value(s, p, fuel_for(s, p), fuel_for(s, p));
        if left.len() == 1 {
            assert(w == p + lb);
            assert(s[w] == ']');
            lemma_rt_value(s, p, v0);
            assert(sp_ws(s, w) == w);
            assert(done.push(v0) =~= done + left);
        } else {
            lemma_at_split(s, w, seq![','], ser_items(left.drop_first()));
            assert(s[w + 0] == seq![','][0]);
            lemma_rt_value(s, p, v0);
            assert(sp_ws(s, w) == w);
            lemma_fuel_arr_items(
                s,
                w + 1,
                done.push(v0),
                (fuel_for(s, p) - 1) as nat,
                fuel_for(s, w + 1),
            );
            assert(done.push(v0) + left.drop_first() =~= done + left);
            assert forall|i: int|
                0 <= i < left.drop_first().len() implies json_wf(
                #[trigger] left.drop_first()[i],
            ) && exp_free(left.drop_first()[i]) by {
                assert(left.drop_first()[i] == left[i + 1]);
            }
            assert(w + 1 + ser_items(left.drop_first()).len() == p + lb);
            lemma_rt_items(s, w + 1, done.push(v0), left.drop_first());
        }
    }
}

/// Round trip: serializing a well-formed, exponent-free document and parsing
/// the rendering gives the same entries back, consuming the whole text.
pub proof fn lemma_parse_serialize_round_trip(ps: Seq<(Seq<char>, Json)>)
    requires
        json_wf(Json::Object(ps)),
        exp_free(Json::Object(ps)),
    ensures
        sp_doc(ser_json(Json::Object(ps))) == Ok::<(Seq<(Seq<char>, Json)>, int), PFail>(
            (ps, ser_json(Json::Object(ps)).len() as int),
        ),
{
    let s = ser_json(Json::Object(ps));
    assert forall|i: int| 0 <= i < s.len() implies s[0 + i] == #[trigger] s[i] by {}
    assert(at_seq(s, 0, s));
    lemma_rt_object(s, 0, ps);
}

/// Reader safety: walking a reader along any path without malformed
/// segments always yields a result, never an error.
pub proof fn lemma_reader_safety(j: Option<Json>, toks: Seq<PathTok>)
    requires
        forall|i: int| 0 <= i < toks.len() ==> !((#[trigger] toks[i]) is ErrorTok),
    ensures
        sp_walk_read(j, toks) is Ok,
    decreases toks.len(),
{
    if toks.len() > 0 {
        let rest = toks.drop_first();
        assert forall|i: int| 0 <= i < rest.len() implies !((#[trigger] rest[i]) is ErrorTok) by {
            assert(rest[i] == toks[i + 1]);
        }
        match toks[0] {
            PathTok::Key(k) => {
                lemma_reader_safety(crate::grammar::sp_step_key(j, k), rest);
            },
            PathTok::Index(i) => {
                lemma_reader_safety(crate::grammar::sp_step_index(j, i), rest);
            },
            PathTok::ErrorTok(_) => {
                assert(!(toks[0] is ErrorTok));
            },
        }
    }
}

/// Reader safety: once a step of a path misses, the reader is empty and
/// stays empty, so the value it yields is the null sentinel.
pub proof fn lemma_reader_empty_stays(toks: Seq<PathTok>)
    ensures
        sp_walk_read(None, toks) matches Ok(o) ==> o is None,
{
    crate::grammar::lemma_walk_read_empty(toks);
}

/// One lexical token of the document grammar.
pub ghost enum Tok {
    LBrace,
    RBrace,
    LBrack,
    RBrack,
    Colon,
    Comma,
    StrTok(Seq<char>),
    NumTok(Num),
    TrueTok,
    FalseTok,
    NullTok,
}

/// One step of lexing: a token and the position after it, a clean end of
/// input, or a lexical failure.
pub ghost enum LexStep {
    LTok(Tok, int),
    LEnd,
    LFail,
}

/// Read one token, skipping whitespace before it.
pub open spec fn sp_lex_step(s: Seq<char>, p: int) -> LexStep {
    let q = sp_ws(s, p);
    if q >= s.len() {
        LexStep::LEnd
    } else {
        let c = s[q];
        if c == '{' {
            LexStep::LTok(Tok::LBrace, q + 1)
        } else if c == '}' {
            LexStep::LTok(Tok::RBrace, q + 1)
        } else if c == '[' {
            LexStep::LTok(Tok::LBrack, q + 1)
        } else if c == ']' {
            LexStep::LTok(Tok::RBrack, q + 1)
        } else if c == ':' {
            LexStep::LTok(Tok::Colon, q + 1)
        } else if c == ',' {
            LexStep::LTok(Tok::Comma, q + 1)
        } else if c == '"' {
            match sp_string(s, q) {
                Ok((t, n)) => LexStep::LTok(Tok::StrTok(t), n),
                Err(_) => LexStep::LFail,
            }
        } else if c == 'n' {
            match sp_keyword(s, q, seq!['n', 'u', 'l', 'l']) {
                Ok(n) => LexStep::LTok(Tok::NullTok, n),
                Err(_) => LexStep::LFail,
            }
        } else if c == 't' {
            match sp_keyword(s, q, seq!['t', 'r', 'u', 'e']) {
                Ok(n) => LexStep::LTok(Tok::TrueTok, n),
                Err(_) => LexStep::LFail,
            }
        } else if c == 'f' {
            match sp_keyword(s, q, seq!['f', 'a', 'l', 's', 'e']) {
                Ok(n) => LexStep::LTok(Tok::FalseTok, n),
                Err(_) => LexStep::LFail,
            }
        } else if is_digit_s(c) || c == '-' {
            match sp_number(s, q) {
                Ok((num, n)) => LexStep::LTok(Tok::NumTok(num), n),
                Err(_) => LexStep::LFail,
            }
        } else {
            LexStep::LFail
        }
    }
}

/// The whole token stream from a position: the tokens read, and whether the
/// input ended cleanly rather than at a lexical failure.
pub open spec fn sp_lex_all(s: Seq<char>, p: int) -> (Seq<Tok>, bool)
    decreases s.len() - p,
    when 0 <= p <= s.len()
{
    match sp_lex_step(s, p) {
        LexStep::LEnd => (Seq::empty(), true),
        LexStep::LFail => (Seq::empty(), false),
        LexStep::LTok(t, n) => if p < n <= s.len() {
            (seq![t] + sp_lex_all(s, n).0, sp_lex_all(s, n).1)
        } else {
            (Seq::empty(), false)
        },
    }
}

/// Skipping whitespace twice skips it once.
proof fn lemma_ws_idem(s: Seq<char>, p: int)
    requires
        0 <= p <= s.len(),
    ensures
        sp_ws(s, sp_ws(s, p)) == sp_ws(s, p),
{
    lemma_ws_bounds(s, p);
}

/// The token stream does not depend on leading whitespace.
proof fn lemma_lex_all_ws(s: Seq<char>, p: int)
    requires
        0 <= p <= s.len(),
    ensures
        sp_lex_step(s, sp_ws(s, p)) == sp_lex_step(s, p),
        sp_lex_all(s, sp_ws(s, p)) == sp_lex_all(s, p),
{
    lemma_ws_bounds(s, p);
    lemma_ws_idem(s, p);
    lemma_lex_step_bounds(s, p);
    lemma_lex_step_bounds(s, sp_ws(s, p));
}

/// A token step moves forward and stays inside the input.
proof fn lemma_lex_step_bounds(s: Seq<char>, p: int)
    requires
        0 <= p <= s.len(),
    ensures
        sp_lex_step(s, p) matches LexStep::LTok(t, n) ==> p < n <= s.len() && sp_ws(s, p) < n,
{
    lemma_ws_bounds(s, p);
    let q = sp_ws(s, p);
    if q < s.len() {
        let c = s[q];
        if c == '"' {
            lemma_string_bounds(s, q);
        } else if c == 'n' {
            crate::grammar::lemma_keyword_bounds(s, q, seq!['n', 'u', 'l', 'l']);
        } else if c == 't' {
            crate::grammar::lemma_keyword_bounds(s, q, seq!['t', 'r', 'u', 'e']);
        } else if c == 'f' {
            crate::grammar::lemma_keyword_bounds(s, q, seq!['f', 'a', 'l', 's', 'e']);
        } else if is_digit_s(c) || c == '-' {
            if c == '-' {
                crate::grammar::lemma_num_loop_bounds(
                    s,
                    q + 1,
                    NumSt::Sign,
                    true,
                    Seq::empty(),
                    None,
                );
            } else if c == '0' {
                crate::grammar::lemma_num_loop_bounds(s, q + 1, NumSt::Zero, false, seq![c], None);
            } else {
                crate::grammar::lemma_num_loop_bounds(
                    s,
                    q + 1,
                    NumSt::Digits,
                    false,
                    seq![c],
                    None,
                );
            }
        }
    }
}

/// Reading one token prepends it to the stream of what follows.
proof fn lemma_lex_cons(s: Seq<char>, p: int)
    requires
        0 <= p <= s.len(),
    ensures
        sp_lex_step(s, p) matches LexStep::LTok(t, n) ==> sp_lex_all(s, p).0 == seq![t]
            + sp_lex_all(s, n).0 && sp_lex_all(s, p).1 == sp_lex_all(s, n).1,
{
    lemma_lex_step_bounds(s, p);
}

/// Equal token streams begin with the same token, and their remainders are
/// again equal.
proof fn lemma_stream_head(s1: Seq<char>, p1: int, s2: Seq<char>, p2: int)
    requires
        0 <= p1 <= s1.len(),
        0 <= p2 <= s2.len(),
        sp_lex_all(s1, p1) == sp_lex_all(s2, p2),
        sp_lex_step(s1, p1) matches LexStep::LTok(t1, n1),
    ensures
        ({
            let t1 = sp_lex_step(s1, p1)->LTok_0;
            let n1 = sp_lex_step(s1, p1)->LTok_1;
            &&& sp_lex_step(s2, p2) matches LexStep::LTok(t2, n2)
            &&& sp_lex_step(s2, p2)->LTok_0 == t1
            &&& sp_lex_all(s2, sp_lex_step(s2, p2)->LTok_1) == sp_lex_all(s1, n1)
        }),
{
    lemma_lex_cons(s1, p1);
    lemma_lex_cons(s2, p2);
    lemma_lex_step_bounds(s1, p1);
    lemma_lex_step_bounds(s2, p2);
    let t1 = sp_lex_step(s1, p1)->LTok_0;
    let n1 = sp_lex_step(s1, p1)->LTok_1;
    assert(sp_lex_all(s1, p1).0.len() > 0) by {
        assert(sp_lex_all(s1, p1).0 == seq![t1] + sp_lex_all(s1, n1).0);
    }
    match sp_lex_step(s2, p2) {
        LexStep::LEnd => {
            assert(sp_lex_all(s2, p2).0.len() == 0);
        },
        LexStep::LFail => {
            assert(sp_lex_all(s2, p2).0.len() == 0);
        },
        LexStep::LTok(t2, n2) => {
            assert((seq![t1] + sp_lex_all(s1, n1).0)[0] == t1);
            assert((seq![t2] + sp_lex_all(s2, n2).0)[0] == t2);
            assert(t1 == t2);
            assert((seq![t1] + sp_lex_all(s1, n1).0).drop_first() =~= sp_lex_all(s1, n1).0);
            assert((seq![t2] + sp_lex_all(s2, n2).0).drop_first() =~= sp_lex_all(s2, n2).0);
        },
    }
}

/// Parsing a value depends only on the token stream: if two inputs lex to
/// the same tokens from aligned positions, a successful parse on one
/// succeeds on the other with the same value, and the streams stay aligned.
proof fn lemma_sim_value(s1: Seq<char>, p1: int, s2: Seq<char>, p2: int, d1: nat, d2: nat)
    requires
        0 <= p1 <= s1.len(),
        0 <= p2 <= s2.len(),
        d1 > s1.len() - p1,
        d2 > s2.len() - p2,
        sp_ws(s1, p1) == p1,
        sp_ws(s2, p2) == p2,
        sp_lex_all(s1, p1) == sp_lex_all(s2, p2),
        sp_value(s1, p1, d1) is Ok,
    ensures
        sp_value(s2, p2, d2) is Ok,
        sp_value(s2, p2, d2)->Ok_0.0 == sp_value(s1, p1, d1)->Ok_0.0,
        sp_lex_all(s2, sp_value(s2, p2, d2)->Ok_0.1) == sp_lex_all(
            s1,
            sp_value(s1, p1, d1)->Ok_0.1,
        ),
        p1 < sp_value(s1, p1, d1)->Ok_0.1 <= s1.len(),
        p2 < sp_value(s2, p2, d2)->Ok_0.1 <= s2.len(),
    decreases d1, 2int,
{
    lemma_fuel_value(s1, p1, d1, d1);
    let c1 = s1[p1];
    lemma_lex_step_bounds(s1, p1);
    lemma_lex_step_bounds(s2, p2);
    if c1 == '{' {
        lemma_stream_head(s1, p1, s2, p2);
        lemma_sim_object(s1, p1, s2, p2, d1, d2);
        lemma_fuel_object(s2, p2, d2, d2);
    } else if c1 == '[' {
        lemma_stream_head(s1, p1, s2, p2);
        lemma_sim_array(s1, p1, s2, p2, d1, d2);
        lemma_fuel_array(s2, p2, d2, d2);
    } else if c1 == '"' {
        lemma_string_bounds(s1, p1);
        lemma_stream_head(s1, p1, s2, p2);
        lemma_string_bounds(s2, p2);
    } else if c1 == 'n' || c1 == 't' || c1 == 'f' {
        lemma_stream_head(s1, p1, s2, p2);
        crate::grammar::lemma_keyword_bounds(s1, p1, seq!['n', 'u', 'l', 'l']);
        crate::grammar::lemma_keyword_bounds(s1, p1, seq!['t', 'r', 'u', 'e']);
        crate::grammar::lemma_keyword_bounds(s1, p1, seq!['f', 'a', 'l', 's', 'e']);
        crate::grammar::lemma_keyword_bounds(s2, p2, seq!['n', 'u', 'l', 'l']);
        crate::grammar::lemma_keyword_bounds(s2, p2, seq!['t', 'r', 'u', 'e']);
        crate::grammar::lemma_keyword_bounds(s2, p2, seq!['f', 'a', 'l', 's', 'e']);
    } else {
        assert(is_digit_s(c1) || c1 == '-');
        lemma_stream_head(s1, p1, s2, p2);
        lemma_fuel_value(s2, p2, d2, d2);
    }
}

/// Parsing an object depends only on the token stream.
proof fn lemma_sim_object(s1: Seq<char>, p1: int, s2: Seq<char>, p2: int, d1: nat, d2: nat)
    requires
        0 <= p1 <= s1.len(),
        0 <= p2 <= s2.len(),
        d1 > s1.len() - p1,
        d2 > s2.len() - p2,
        sp_ws(s1, p1) == p1,
        sp_ws(s2, p2) == p2,
        sp_lex_all(s1, p1) == sp_lex_all(s2, p2),
        sp_object(s1, p1, d1) is Ok,
    ensures
        sp_object(s2, p2, d2) is Ok,
        sp_object(s2, p2, d2)->Ok_0.0 == sp_object(s1, p1, d1)->Ok_0.0,
        sp_lex_all(s2, sp_object(s2, p2, d2)->Ok_0.1) == sp_lex_all(
            s1,
            sp_object(s1, p1, d1)->Ok_0.1,
        ),
        p1 < sp_object(s1, p1, d1)->Ok_0.1 <= s1.len(),
        p2 < sp_object(s2, p2, d2)->Ok_0.1 <= s2.len(),
    decreases d1, 1int,
{
    lemma_fuel_object(s1, p1, d1, d1);
    lemma_lex_step_bounds(s1, p1);
    lemma_stream_head(s1, p1, s2, p2);
    lemma_lex_step_bounds(s2, p2);
    lemma_sim_pairs(s1, p1 + 1, s2, p2 + 1, Seq::empty(), (d1 - 1) as nat, (d2 - 1) as nat);
    lemma_fuel_object(s2, p2, d2, d2);
}

/// Parsing an array depends only on the token stream.
proof fn lemma_sim_array(s1: Seq<char>, p1: int, s2: Seq<char>, p2: int, d1: nat, d2: nat)
    requires
        0 <= p1 <= s1.len(),
        0 <= p2 <= s2.len(),
        d1 > s1.len() - p1,
        d2 > s2.len() - p2,
        sp_ws(s1, p1) == p1,
        sp_ws(s2, p2) == p2,
        sp_lex_all(s1, p1) == sp_lex_all(s2, p2),
        sp_array(s1, p1, d1) is Ok,
    ensures
        sp_array(s2, p2, d2) is Ok,
        sp_array(s2, p2, d2)->Ok_0.0 == sp_array(s1, p1, d1)->Ok_0.0,
        sp_lex_all(s2, sp_array(s2, p2, d2)->Ok_0.1) == sp_lex_all(
            s1,
            sp_array(s1, p1, d1)->Ok_0.1,
        ),
        p1 < sp_array(s1, p1, d1)->Ok_0.1 <= s1.len(),
        p2 < sp_array(s2, p2, d2)->Ok_0.1 <= s2.len(),
    decreases d1, 1int,
{
    lemma_fuel_array(s1, p1, d1, d1);
    lemma_lex_step_bounds(s1, p1);
    lemma_stream_head(s1, p1, s2, p2);
    lemma_lex_step_bounds(s2, p2);
    lemma_sim_items(s1, p1 + 1, s2, p2 + 1, Seq::empty(), (d1 - 1) as nat, (d2 - 1) as nat);
    lemma_fuel_array(s2, p2, d2, d2);
}

/// Parsing the entries of an object depends only on the token stream.
proof fn lemma_sim_pairs(
    s1: Seq<char>,
    p1: int,
    s2: Seq<char>,
    p2: int,
    acc: Seq<(Seq<char>, Json)>,
    d1: nat,
    d2: nat,
)
    requires
        0 <= p1 <= s1.len(),
        0 <= p2 <= s2.len(),
        d1 > s1.len() - p1,
        d2 > s2.len() - p2,
        sp_lex_all(s1, p1) == sp_lex_all(s2, p2),
        sp_obj_pairs(s1, p1, acc, d1) is Ok,
    ensures
        sp_obj_pairs(s2, p2, acc, d2) is Ok,
        sp_obj_pairs(s2, p2, acc, d2)->Ok_0.0 == sp_obj_pairs(s1, p1, acc, d1)->Ok_0.0,
        sp_lex_all(s2, sp_obj_pairs(s2, p2, acc, d2)->Ok_0.1) == sp_lex_all(
            s1,
            sp_obj_pairs(s1, p1, acc, d1)->Ok_0.1,
        ),
        p1 < sp_obj_pairs(s1, p1, acc, d1)->Ok_0.1 <= s1.len(),
        p2 < sp_obj_pairs(s2, p2, acc, d2)->Ok_0.1 <= s2.len(),
    decreases d1, 3int,
{
    lemma_fuel_obj_pairs(s1, p1, acc, d1, d1);
    lemma_ws_bounds(s1, p1);
    lemma_ws_bounds(s2, p2);
    lemma_lex_all_ws(s1, p1);
    lemma_lex_all_ws(s2, p2);
    let q1 = sp_ws(s1, p1);
    let q2 = sp_ws(s2, p2);
    lemma_ws_idem(s1, p1);
    lemma_ws_idem(s2, p2);
    lemma_lex_step_bounds(s1, q1);
    lemma_lex_step_bounds(s2, q2);
    if s1[q1] == '}' {
        lemma_stream_head(s1, q1, s2, q2);
    } else {
        // a key string
        lemma_string_bounds(s1, q1);
        lemma_stream_head(s1, q1, s2, q2);
        lemma_string_bounds(s2, q2);
        let r1 = sp_string(s1, q1)->Ok_0.1;
        let r2 = sp_string(s2, q2)->Ok_0.1;
        // the colon
        lemma_ws_bounds(s1, r1);
        lemma_ws_bounds(s2, r2);
        lemma_lex_all_ws(s1, r1);
        lemma_lex_all_ws(s2, r2);
        let t1 = sp_ws(s1, r1);
        let t2 = sp_ws(s2, r2);
        lemma_ws_idem(s1, r1);
        lemma_ws_idem(s2, r2);
        lemma_lex_step_bounds(s1, t1);
        lemma_stream_head(s1, t1, s2, t2);
        lemma_lex_step_bounds(s2, t2);
        // the value
        lemma_ws_bounds(s1, t1 + 1);
        lemma_ws_bounds(s2, t2 + 1);
        lemma_lex_all_ws(s1, t1 + 1);
        lemma_lex_all_ws(s2, t2 + 1);
        let u1 = sp_ws(s1, t1 + 1);
        let u2 = sp_ws(s2, t2 + 1);
        lemma_ws_idem(s1, t1 + 1);
        lemma_ws_idem(s2, t2 + 1);
        lemma_sim_value(s1, u1, s2, u2, d1, d2);
        let w1 = sp_value(s1, u1, d1)->Ok_0.1;
        let w2 = sp_value(s2, u2, d2)->Ok_0.1;
        let acc2 = crate::model::pairs_set(acc, sp_string(s1, q1)->Ok_0.0, sp_value(s1, u1, d1)->Ok_0.0);
        // the comma or closing brace
        lemma_ws_bounds(s1, w1);
        lemma_ws_bounds(s2, w2);
        lemma_lex_all_ws(s1, w1);
        lemma_lex_all_ws(s2, w2);
        let x1 = sp_ws(s1, w1);
        let x2 = sp_ws(s2, w2);
        lemma_ws_idem(s1, w1);
        lemma_ws_idem(s2, w2);
        lemma_lex_step_bounds(s1, x1);
        lemma_stream_head(s1, x1, s2, x2);
        lemma_lex_step_bounds(s2, x2);
        if s1[x1] == ',' {
            lemma_sim_pairs(s1, x1 + 1, s2, x2 + 1, acc2, (d1 - 1) as nat, (d2 - 1) as nat);
        }
    }
    lemma_fuel_obj_pairs(s2, p2, acc, d2, d2);
}

/// Parsing the items of an array depends only on the token stream.
proof fn lemma_sim_items(
    s1: Seq<char>,
    p1: int,
    s2: Seq<char>,
    p2: int,
    es: Seq<Json>,
    d1: nat,
    d2: nat,
)
    requires
        0 <= p1 <= s1.len(),
        0 <= p2 <= s2.len(),
        d1 > s1.len() - p1,
        d2 > s2.len() - p2,
        sp_lex_all(s1, p1) == sp_lex_all(s2, p2),
        sp_arr_items(s1, p1, es, d1) is Ok,
    ensures
        sp_arr_items(s2, p2, es, d2) is Ok,
        sp_arr_items(s2, p2, es, d2)->Ok_0.0 == sp_arr_items(s1, p1, es, d1)->Ok_0.0,
        sp_lex_all(s2, sp_arr_items(s2, p2, es, d2)->Ok_0.1) == sp_lex_all(
            s1,
            sp_arr_items(s1, p1, es, d1)->Ok_0.1,
        ),
        p1 < sp_arr_items(s1, p1, es, d1)->Ok_0.1 <= s1.len(),
        p2 < sp_arr_items(s2, p2, es, d2)->Ok_0.1 <= s2.len(),
    decreases d1, 3int,
{
    lemma_fuel_arr_items(s1, p1, es, d1, d1);
    lemma_ws_bounds(s1, p1);
    lemma_ws_bounds(s2, p2);
    lemma_lex_all_ws(s1, p1);
    lemma_lex_all_ws(s2, p2);
    let q1 = sp_ws(s1, p1);
    let q2 = sp_ws(s2, p2);
    lemma_ws_idem(s1, p1);
    lemma_ws_idem(s2, p2);
    lemma_lex_step_bounds(s1, q1);
    lemma_lex_step_bounds(s2, q2);
    if s1[q1] == ']' {
        lemma_stream_head(s1, q1, s2, q2);
    } else {
        lemma_sim_value(s1, q1, s2, q2, d1, d2);
        let w1 = sp_value(s1, q1, d1)->Ok_0.1;
        let w2 = sp_value(s2, q2, d2)->Ok_0.1;
        let es2 = es.push(sp_value(s1, q1, d1)->Ok_0.0);
        lemma_ws_bounds(s1, w1);
        lemma_ws_bounds(s2, w2);
        lemma_lex_all_ws(s1, w1);
        lemma_lex_all_ws(s2, w2);
        let x1 = sp_ws(s1, w1);
        let x2 = sp_ws(s2, w2);
        lemma_ws_idem(s1, w1);
        lemma_ws_idem(s2, w2);
        lemma_lex_step_bounds(s1, x1);
        lemma_stream_head(s1, x1, s2, x2);
        lemma_lex_step_bounds(s2, x2);
        if s1[x1] == ',' {
            lemma_sim_items(s1, x1 + 1, s2, x2 + 1, es2, (d1 - 1) as nat, (d2 - 1) as nat);
        }
    }
    lemma_fuel_arr_items(s2, p2, es, d2, d2);
}

/// Whitespace insensitivity: two inputs that hold the same tokens, and do
/// not begin with whitespace, parse to the same document.
pub proof fn lemma_whitespace_insensitive(s1: Seq<char>, s2: Seq<char>)
    requires
        sp_lex_all(s1, 0) == sp_lex_all(s2, 0),
        sp_ws(s1, 0) == 0,
        sp_ws(s2, 0) == 0,
        sp_doc(s1) is Ok,
    ensures
        sp_doc(s2) is Ok,
        sp_doc(s2)->Ok_0.0 == sp_doc(s1)->Ok_0.0,
{
    lemma_sim_object(s1, 0, s2, 0, fuel_for(s1, 0), fuel_for(s2, 0));
}

/// A number the automaton accepts is well formed and has no exponent.
proof fn lemma_num_loop_wf(
    s: Seq<char>,
    p: int,
    st: NumSt,
    neg: bool,
    ip: Seq<char>,
    fp: Option<Seq<char>>,
)
    requires
        0 <= p <= s.len(),
        st is Start || st is Sign ==> ip.len() == 0 && fp is None,
        st is Zero ==> ip == seq!['0'] && fp is None,
        st is Digits ==> digits_wf(ip) && ip[0] != '0' && fp is None,
        st is Dot ==> digits_wf(ip) && (ip.len() > 1 ==> ip[0] != '0') && fp == Some(
            Seq::<char>::empty(),
        ),
        st is Frac ==> digits_wf(ip) && (ip.len() > 1 ==> ip[0] != '0') && (fp matches Some(f)
            && digits_wf(f)),
    ensures
        sp_num_loop(s, p, st, neg, ip, fp) matches Ok(o) ==> num_wf(o.0) && o.0.exponent is None,
    decreases s.len() - p,
{
    if p < s.len() {
        let c = s[p];
        match st {
            NumSt::Start => {
                if c == '-' {
                    lemma_num_loop_wf(s, p + 1, NumSt::Sign, true, ip, fp);
                } else if c == '0' {
                    assert(ip.push(c) =~= seq!['0']);
                    lemma_num_loop_wf(s, p + 1, NumSt::Zero, neg, ip.push(c), fp);
                } else if is_digit_s(c) {
                    assert(digits_wf(ip.push(c)));
                    lemma_num_loop_wf(s, p + 1, NumSt::Digits, neg, ip.push(c), fp);
                }
            },
            NumSt::Sign => {
                if c == '0' {
                    assert(ip.push(c) =~= seq!['0']);
                    lemma_num_loop_wf(s, p + 1, NumSt::Zero, neg, ip.push(c), fp);
                } else if is_digit_s(c) {
                    assert(digits_wf(ip.push(c)));
                    lemma_num_loop_wf(s, p + 1, NumSt::Digits, neg, ip.push(c), fp);
                }
            },
            NumSt::Zero => {
                if c == '.' {
                    lemma_num_loop_wf(s, p + 1, NumSt::Dot, neg, ip, Some(Seq::empty()));
                }
            },
            NumSt::Digits => {
                if is_digit_s(c) {
                    lemma_num_loop_wf(s, p + 1, NumSt::Digits, neg, ip.push(c), fp);
                } else if c == '.' {
                    lemma_num_loop_wf(s, p + 1, NumSt::Dot, neg, ip, Some(Seq::empty()));
                }
            },
            NumSt::Dot => {
                if is_digit_s(c) {
                    lemma_num_loop_wf(s, p + 1, NumSt::Frac, neg, ip, Some(fp->Some_0.push(c)));
                }
            },
            NumSt::Frac => {
                if is_digit_s(c) {
                    lemma_num_loop_wf(s, p + 1, NumSt::Frac, neg, ip, Some(fp->Some_0.push(c)));
                }
            },
        }
    }
}

/// A value the parser accepts is well formed and exponent-free.
proof fn lemma_wf_value(s: Seq<char>, p: int, d: nat)
    requires
        0 <= p <= s.len(),
        d > s.len() - p,
    ensures
        sp_value(s, p, d) matches Ok(o) ==> json_wf(o.0) && exp_free(o.0),
    decreases d, 2int,
{
    if p < s.len() {
        let c = s[p];
        if c == '{' {
            lemma_wf_object(s, p, d);
        } else if c == '[' {
            lemma_wf_array(s, p, d);
        } else if c == '"' || c == 'n' || c == 't' || c == 'f' {
        } else if is_digit_s(c) || c == '-' {
            if 0 <= p <= s.len() {
                lemma_num_loop_wf(s, p, NumSt::Start, false, Seq::empty(), None);
            }
        }
    }
}

/// An object the parser accepts has distinct keys and well-formed values.
proof fn lemma_wf_object(s: Seq<char>, p: int, d: nat)
    requires
        0 <= p <= s.len(),
        d > s.len() - p,
    ensures
        sp_object(s, p, d) matches Ok(o) ==> json_wf(Json::Object(o.0)) && exp_free(
            Json::Object(o.0),
        ),
    decreases d, 1int,
{
    if p < s.len() && s[p] == '{' && d != 0 {
        lemma_wf_pairs(s, p + 1, Seq::empty(), (d - 1) as nat);
    }
}

/// A list the parser accepts holds well-formed items.
proof fn lemma_wf_array(s: Seq<char>, p: int, d: nat)
    requires
        0 <= p <= s.len(),
        d > s.len() - p,
    ensures
        sp_array(s, p, d) matches Ok(o) ==> json_wf(Json::List(o.0)) && exp_free(
            Json::List(o.0),
        ),
    decreases d, 1int,
{
    if p < s.len() && s[p] == '[' && d != 0 {
        lemma_wf_items(s, p + 1, Seq::empty(), (d - 1) as nat);
    }
}

/// Entries accumulated by the parser keep their keys distinct and their
/// values well formed.
proof fn lemma_wf_pairs(s: Seq<char>, p: int, acc: Seq<(Seq<char>, Json)>, d: nat)
    requires
        0 <= p <= s.len(),
        d > s.len() - p,
        keys_distinct(acc),
        forall|i: int|
            0 <= i < acc.len() ==> json_wf(#[trigger] acc[i].1) && exp_free(acc[i].1),
    ensures
        sp_obj_pairs(s, p, acc, d) matches Ok(o) ==> json_wf(Json::Object(o.0)) && exp_free(
            Json::Object(o.0),
        ),
    decreases d, 3int,
{
    lemma_ws_bounds(s, p);
    let q = sp_ws(s, p);
    if q < s.len() && s[q] != '}' && s[q] == '"' {
        lemma_string_bounds(s, q);
        if let Ok((key, r)) = sp_string(s, q) {
            lemma_ws_bounds(s, r);
            let t = sp_ws(s, r);
            if t < s.len() && s[t] == ':' {
                lemma_ws_bounds(s, t + 1);
                let u = sp_ws(s, t + 1);
                if u < s.len() && sp_can_start_value(s[u]) {
                    lemma_wf_value(s, u, d);
                    lemma_fuel_value(s, u, d, d);
                    if let Ok((v, w)) = sp_value(s, u, d) {
                        lemma_ws_bounds(s, w);
                        let acc2 = crate::model::pairs_set(acc, key, v);
                        crate::model::lemma_pairs_set_distinct(acc, key, v);
                        assert forall|i: int|
                            0 <= i < acc2.len() implies json_wf(#[trigger] acc2[i].1)
                            && exp_free(acc2[i].1) by {
                            if pairs_has(acc, key) {
                                crate::model::lemma_pairs_idx(acc, key);
                            }
                        }
                        let x = sp_ws(s, w);
                        if x < s.len() && s[x] != '}' && s[x] == ',' && d != 0 {
                            lemma_wf_pairs(s, x + 1, acc2, (d - 1) as nat);
                        }
                    }
                }
            }
        }
    }
}

/// Items accumulated by the parser stay well formed.
proof fn lemma_wf_items(s: Seq<char>, p: int, es: Seq<Json>, d: nat)
    requires
        0 <= p <= s.len(),
        d > s.len() - p,
        forall|i: int| 0 <= i < es.len() ==> json_wf(#[trigger] es[i]) && exp_free(es[i]),
    ensures
        sp_arr_items(s, p, es, d) matches Ok(o) ==> json_wf(Json::List(o.0)) && exp_free(
            Json::List(o.0),
        ),
    decreases d, 3int,
{
    lemma_ws_bounds(s, p);
    let q = sp_ws(s, p);
    if q < s.len() && s[q] != ']' && sp_can_start_value(s[q]) {
        lemma_wf_value(s, q, d);
        lemma_fuel_value(s, q, d, d);
        if let Ok((v, w)) = sp_value(s, q, d) {
            lemma_ws_bounds(s, w);
            let es2 = es.push(v);
            let x = sp_ws(s, w);
            if x < s.len() && s[x] != ']' && s[x] == ',' && d != 0 {
                lemma_wf_items(s, x + 1, es2, (d - 1) as nat);
            }
        }
    }
}

/// A freshly parsed document is fully formed: its keys are pairwise
/// distinct at every level, its numbers satisfy the numeric grammar, and it
/// carries no exponents — so it satisfies the round-trip law's premises.
pub proof fn lemma_parse_wf(s: Seq<char>)
    ensures
        sp_doc(s) matches Ok(o) ==> json_wf(Json::Object(o.0)) && exp_free(Json::Object(o.0)),
{
    lemma_wf_object(s, 0, fuel_for(s, 0));
}

} // verus!

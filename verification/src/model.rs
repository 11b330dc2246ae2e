//! The mathematical model of a document: a ghost value tree, its
//! well-formedness conditions, and the canonical compact serialization.

use vstd::prelude::*;

verus! {

/// Spec-level image of a document value.  An object is kept as a sequence of
/// key/value pairs in insertion order (the executable tree keeps its entries
/// in a vector), a list as a sequence of values.
pub ghost enum Json {
    Object(Seq<(Seq<char>, Json)>),
    List(Seq<Json>),
    Text(Seq<char>),
    Number(Num),
    Boolean(bool),
    Null,
}

/// Spec-level image of a numeric scalar: a sign, the integer digits, the
/// optional fraction digits, and the optional decimal exponent.
pub ghost struct Num {
    pub negative: bool,
    pub int_part: Seq<char>,
    pub frac_part: Option<Seq<char>>,
    pub exponent: Option<int>,
}

pub open spec fn is_space_s(c: char) -> bool {
    c == ' ' || c == '\t' || c == '\n' || c == '\r'
}

pub open spec fn is_digit_s(c: char) -> bool {
    '0' <= c && c <= '9'
}

pub open spec fn is_alpha_s(c: char) -> bool {
    ('a' <= c && c <= 'z') || ('A' <= c && c <= 'Z')
}

pub open spec fn digits_wf(ds: Seq<char>) -> bool {
    ds.len() > 0 && forall|i: int| 0 <= i < ds.len() ==> is_digit_s(#[trigger] ds[i])
}

/// A well-formed number has non-empty integer digits without a superfluous
/// leading zero, and, if a fraction is present, at least one fraction digit.
pub open spec fn num_wf(n: Num) -> bool {
    &&& digits_wf(n.int_part)
    &&& (n.int_part.len() > 1 ==> n.int_part[0] != '0')
    &&& (n.frac_part is Some ==> digits_wf(n.frac_part->Some_0))
    &&& (n.exponent is Some ==> i32::MIN <= n.exponent->Some_0 <= i32::MAX)
}

pub open spec fn keys_distinct(ps: Seq<(Seq<char>, Json)>) -> bool {
    forall|i: int, j: int| 0 <= i < j < ps.len() ==> (#[trigger] ps[i].0) != (#[trigger] ps[j].0)
}

/// Well-formedness of a whole value tree: object keys are pairwise distinct
/// and every numeric scalar is well formed.
pub open spec fn json_wf(j: Json) -> bool
    decreases j,
{
    match j {
        Json::Object(ps) => keys_distinct(ps) && (forall|i: int|
            0 <= i < ps.len() ==> json_wf(#[trigger] ps[i].1)),
        Json::List(es) => forall|i: int| 0 <= i < es.len() ==> json_wf(#[trigger] es[i]),
        Json::Number(n) => num_wf(n),
        _ => true,
    }
}

/// Holds when no numeric scalar in the tree carries an exponent.  The parser
/// reads plain decimal numbers only, so only exponent-free trees take part in
/// the parse/serialize round trip.
pub open spec fn exp_free(j: Json) -> bool
    decreases j,
{
    match j {
        Json::Object(ps) => forall|i: int| 0 <= i < ps.len() ==> exp_free(#[trigger] ps[i].1),
        Json::List(es) => forall|i: int| 0 <= i < es.len() ==> exp_free(#[trigger] es[i]),
        Json::Number(n) => n.exponent is None,
        _ => true,
    }
}

/// How one character is rendered inside a serialized string literal.
pub open spec fn escape_char(c: char) -> Seq<char> {
    if c == '"' {
        seq!['\\', '"']
    } else if c == '\\' {
        seq!['\\', '\\']
    } else if c == '\n' {
        seq!['\\', 'n']
    } else if c == '\r' {
        seq!['\\', 'r']
    } else if c == '\t' {
        seq!['\\', 't']
    } else {
        seq![c]
    }
}

pub open spec fn escape_seq(t: Seq<char>) -> Seq<char>
    decreases t.len(),
{
    if t.len() == 0 {
        Seq::empty()
    } else {
        escape_seq(t.drop_last()) + escape_char(t.last())
    }
}

/// A serialized string literal: the escaped text between double quotes.
pub open spec fn ser_text(t: Seq<char>) -> Seq<char> {
    seq!['"'] + escape_seq(t) + seq!['"']
}

pub open spec fn digit_char(n: nat) -> char {
    if n == 0 {
        '0'
    } else if n == 1 {
        '1'
    } else if n == 2 {
        '2'
    } else if n == 3 {
        '3'
    } else if n == 4 {
        '4'
    } else if n == 5 {
        '5'
    } else if n == 6 {
        '6'
    } else if n == 7 {
        '7'
    } else if n == 8 {
        '8'
    } else {
        '9'
    }
}

/// Decimal digits of a natural number, most significant first.
pub open spec fn dec_digits(n: nat) -> Seq<char>
    decreases n,
{
    if n < 10 {
        seq![digit_char(n)]
    } else {
        dec_digits(n / 10).push(digit_char(n % 10))
    }
}

/// Decimal rendering of an integer, with a leading minus sign when negative.
pub open spec fn ser_int(i: int) -> Seq<char> {
    if i < 0 {
        seq!['-'] + dec_digits((-i) as nat)
    } else {
        dec_digits(i as nat)
    }
}

/// A serialized number: sign, integer digits, optional fraction, optional
/// exponent.
pub open spec fn ser_num(n: Num) -> Seq<char> {
    (if n.negative {
        seq!['-']
    } else {
        Seq::<char>::empty()
    }) + n.int_part + (match n.frac_part {
        Some(f) => seq!['.'] + f,
        None => Seq::<char>::empty(),
    }) + (match n.exponent {
        Some(e) => seq!['e'] + ser_int(e),
        None => Seq::<char>::empty(),
    })
}

/// Canonical compact serialization of a value tree.  No whitespace is
/// emitted; object entries appear in insertion order.
pub open spec fn ser_json(j: Json) -> Seq<char>
    decreases j, 1int,
{
    match j {
        Json::Object(ps) => seq!['{'] + ser_pairs(ps) + seq!['}'],
        Json::List(es) => seq!['['] + ser_items(es) + seq![']'],
        Json::Text(t) => ser_text(t),
        Json::Number(n) => ser_num(n),
        Json::Boolean(b) => if b {
            seq!['t', 'r', 'u', 'e']
        } else {
            seq!['f', 'a', 'l', 's', 'e']
        },
        Json::Null => seq!['n', 'u', 'l', 'l'],
    }
}

pub open spec fn ser_pair(kv: (Seq<char>, Json)) -> Seq<char>
    decreases kv, 2int,
{
    ser_text(kv.0) + seq![':'] + ser_json(kv.1)
}

pub open spec fn ser_pairs(ps: Seq<(Seq<char>, Json)>) -> Seq<char>
    decreases ps, 3int,
{
    if ps.len() == 0 {
        Seq::empty()
    } else if ps.len() == 1 {
        ser_pair(ps[0])
    } else {
        ser_pairs(ps.drop_last()) + seq![','] + ser_pair(ps.last())
    }
}

pub open spec fn ser_items(es: Seq<Json>) -> Seq<char>
    decreases es, 3int,
{
    if es.len() == 0 {
        Seq::empty()
    } else if es.len() == 1 {
        ser_json(es[0])
    } else {
        ser_items(es.drop_last()) + seq![','] + ser_json(es.last())
    }
}

/// Looking a key up among the entries of an object: the value of the first
/// entry carrying that key, if any.
pub open spec fn pairs_get(ps: Seq<(Seq<char>, Json)>, k: Seq<char>) -> Option<Json>
    decreases ps.len(),
{
    if ps.len() == 0 {
        None
    } else if ps[0].0 == k {
        Some(ps[0].1)
    } else {
        pairs_get(ps.drop_first(), k)
    }
}

/// Whether some entry carries the key.
pub open spec fn pairs_has(ps: Seq<(Seq<char>, Json)>, k: Seq<char>) -> bool {
    exists|i: int| 0 <= i < ps.len() && (#[trigger] ps[i].0) == k
}

/// Index of the first entry carrying the key.
pub open spec fn pairs_idx(ps: Seq<(Seq<char>, Json)>, k: Seq<char>) -> int
    decreases ps.len(),
{
    if ps.len() == 0 {
        0
    } else if ps[0].0 == k {
        0
    } else {
        1 + pairs_idx(ps.drop_first(), k)
    }
}

/// Overwrite-or-insert: replace the value of the first entry carrying the
/// key, or append a fresh entry.
pub open spec fn pairs_set(ps: Seq<(Seq<char>, Json)>, k: Seq<char>, v: Json) -> Seq<
    (Seq<char>, Json),
> {
    if pairs_has(ps, k) {
        ps.update(pairs_idx(ps, k), (k, v))
    } else {
        ps.push((k, v))
    }
}

/// Remove the first entry carrying the key, keeping the order of the rest.
pub open spec fn pairs_remove(ps: Seq<(Seq<char>, Json)>, k: Seq<char>) -> Seq<
    (Seq<char>, Json),
> {
    if pairs_has(ps, k) {
        ps.remove(pairs_idx(ps, k))
    } else {
        ps
    }
}

/// `pairs_idx` names the first entry carrying the key.
pub proof fn lemma_pairs_idx(ps: Seq<(Seq<char>, Json)>, k: Seq<char>)
    requires
        pairs_has(ps, k),
    ensures
        0 <= pairs_idx(ps, k) < ps.len(),
        ps[pairs_idx(ps, k)].0 == k,
        forall|j: int| 0 <= j < pairs_idx(ps, k) ==> (#[trigger] ps[j].0) != k,
    decreases ps.len(),
{
    if ps.len() > 0 && ps[0].0 != k {
        assert(pairs_has(ps.drop_first(), k)) by {
            let i = choose|i: int| 0 <= i < ps.len() && (#[trigger] ps[i].0) == k;
            assert(ps.drop_first()[i - 1].0 == k);
        }
        lemma_pairs_idx(ps.drop_first(), k);
        assert forall|j: int| 0 <= j < pairs_idx(ps, k) implies (#[trigger] ps[j].0) != k by {
            if j > 0 {
                assert(ps.drop_first()[j - 1].0 != k);
            }
        }
    }
}

/// `pairs_get` returns the value at `pairs_idx`, or nothing when no entry
/// carries the key.
pub proof fn lemma_pairs_get(ps: Seq<(Seq<char>, Json)>, k: Seq<char>)
    ensures
        pairs_has(ps, k) ==> pairs_get(ps, k) == Some(ps[pairs_idx(ps, k)].1),
        !pairs_has(ps, k) ==> pairs_get(ps, k) is None,
    decreases ps.len(),
{
    if ps.len() == 0 {
        assert(!pairs_has(ps, k));
    } else if ps[0].0 == k {
        assert(pairs_has(ps, k));
    } else {
        lemma_pairs_get(ps.drop_first(), k);
        assert(pairs_has(ps, k) ==> pairs_has(ps.drop_first(), k)) by {
            if pairs_has(ps, k) {
                let i = choose|i: int| 0 <= i < ps.len() && (#[trigger] ps[i].0) == k;
                assert(ps.drop_first()[i - 1].0 == k);
            }
        }
        assert(pairs_has(ps.drop_first(), k) ==> pairs_has(ps, k)) by {
            if pairs_has(ps.drop_first(), k) {
                let i = choose|i: int|
                    0 <= i < ps.drop_first().len() && (#[trigger] ps.drop_first()[i].0) == k;
                assert(ps[i + 1].0 == k);
            }
        }
        if pairs_has(ps, k) {
            lemma_pairs_idx(ps.drop_first(), k);
        }
    }
}

/// After an overwrite-or-insert, the key maps to the new value.
pub proof fn lemma_pairs_get_set(ps: Seq<(Seq<char>, Json)>, k: Seq<char>, v: Json)
    ensures
        pairs_get(pairs_set(ps, k, v), k) == Some(v),
{
    let ps2 = pairs_set(ps, k, v);
    if pairs_has(ps, k) {
        lemma_pairs_idx(ps, k);
        let i = pairs_idx(ps, k);
        assert(ps2[i].0 == k);
        assert(pairs_has(ps2, k));
        lemma_pairs_idx(ps2, k);
        assert(pairs_idx(ps2, k) == i) by {
            if pairs_idx(ps2, k) < i {
                assert(ps[pairs_idx(ps2, k)].0 == k);
            }
        }
        lemma_pairs_get(ps2, k);
    } else {
        assert(ps2[ps.len() as int].0 == k);
        assert(pairs_has(ps2, k));
        lemma_pairs_idx(ps2, k);
        assert(pairs_idx(ps2, k) == ps.len()) by {
            if pairs_idx(ps2, k) < ps.len() {
                assert(ps[pairs_idx(ps2, k)].0 == k);
            }
        }
        lemma_pairs_get(ps2, k);
    }
}

/// Setting the same key twice keeps only the second value.
pub proof fn lemma_pairs_set_set(ps: Seq<(Seq<char>, Json)>, k: Seq<char>, v1: Json, v2: Json)
    ensures
        pairs_set(pairs_set(ps, k, v1), k, v2) == pairs_set(ps, k, v2),
{
    let ps1 = pairs_set(ps, k, v1);
    if pairs_has(ps, k) {
        lemma_pairs_idx(ps, k);
        let i = pairs_idx(ps, k);
        assert(ps1[i].0 == k);
        assert(pairs_has(ps1, k));
        lemma_pairs_idx(ps1, k);
        assert(pairs_idx(ps1, k) == i) by {
            if pairs_idx(ps1, k) < i {
                assert(ps[pairs_idx(ps1, k)].0 == k);
            }
        }
        assert(pairs_set(ps1, k, v2) =~= pairs_set(ps, k, v2));
    } else {
        let n = ps.len() as int;
        assert(ps1[n].0 == k);
        assert(pairs_has(ps1, k));
        lemma_pairs_idx(ps1, k);
        assert(pairs_idx(ps1, k) == n) by {
            if pairs_idx(ps1, k) < n {
                assert(ps[pairs_idx(ps1, k)].0 == k);
            }
        }
        assert(pairs_set(ps1, k, v2) =~= pairs_set(ps, k, v2));
    }
}

/// Overwriting keeps keys pairwise distinct, and a fresh key is appended.
pub proof fn lemma_pairs_set_distinct(ps: Seq<(Seq<char>, Json)>, k: Seq<char>, v: Json)
    requires
        keys_distinct(ps),
    ensures
        keys_distinct(pairs_set(ps, k, v)),
{
    if pairs_has(ps, k) {
        lemma_pairs_idx(ps, k);
    }
}

/// Serialization of object entries, extended by one entry at the end.
pub proof fn lemma_ser_pairs_take(ps: Seq<(Seq<char>, Json)>, i: int)
    requires
        0 <= i < ps.len(),
    ensures
        ser_pairs(ps.take(i + 1)) == ser_pairs(ps.take(i)) + (if i > 0 {
            seq![',']
        } else {
            Seq::<char>::empty()
        }) + ser_pair(ps[i]),
{
    let a = ps.take(i + 1);
    assert(a.drop_last() =~= ps.take(i));
    assert(a.last() == ps[i]);
    if i == 0 {
        assert(ser_pairs(ps.take(1)) == ser_pair(ps[0]));
        assert(ser_pairs(ps.take(0)) + Seq::<char>::empty() + ser_pair(ps[0]) =~= ser_pair(
            ps[0],
        ));
    }
}

/// Serialization of list items, extended by one item at the end.
pub proof fn lemma_ser_items_take(es: Seq<Json>, i: int)
    requires
        0 <= i < es.len(),
    ensures
        ser_items(es.take(i + 1)) == ser_items(es.take(i)) + (if i > 0 {
            seq![',']
        } else {
            Seq::<char>::empty()
        }) + ser_json(es[i]),
{
    let a = es.take(i + 1);
    assert(a.drop_last() =~= es.take(i));
    assert(a.last() == es[i]);
    if i == 0 {
        assert(ser_items(es.take(1)) == ser_json(es[0]));
        assert(ser_items(es.take(0)) + Seq::<char>::empty() + ser_json(es[0]) =~= ser_json(
            es[0],
        ));
    }
}

/// Escaped text, taken apart at its first character.
pub proof fn lemma_escape_front(t: Seq<char>)
    requires
        t.len() > 0,
    ensures
        escape_seq(t) == escape_char(t[0]) + escape_seq(t.drop_first()),
    decreases t.len(),
{
    if t.len() == 1 {
        assert(t.drop_last() =~= Seq::<char>::empty());
        assert(t.drop_first() =~= Seq::<char>::empty());
        assert(escape_seq(t) =~= escape_char(t[0]) + escape_seq(t.drop_first()));
    } else {
        lemma_escape_front(t.drop_last());
        assert(t.drop_last()[0] == t[0]);
        assert(t.drop_last().drop_first() =~= t.drop_first().drop_last());
        assert(t.drop_first().last() == t.last());
        assert(escape_char(t[0]) + escape_seq(t.drop_last().drop_first()) + escape_char(t.last())
            =~= escape_char(t[0]) + (escape_seq(t.drop_first().drop_last()) + escape_char(
            t.drop_first().last(),
        )));
    }
}

/// Serialized object entries, taken apart at the first entry.
pub proof fn lemma_ser_pairs_front(ps: Seq<(Seq<char>, Json)>)
    requires
        ps.len() > 0,
    ensures
        ps.len() == 1 ==> ser_pairs(ps) == ser_pair(ps[0]),
        ps.len() > 1 ==> ser_pairs(ps) == ser_pair(ps[0]) + seq![','] + ser_pairs(
            ps.drop_first(),
        ),
    decreases ps.len(),
{
    if ps.len() == 2 {
        assert(ps.drop_last() =~= seq![ps[0]]);
        assert(ps.drop_first() =~= seq![ps[1]]);
        assert(ps.last() == ps[1]);
        assert(ser_pairs(seq![ps[0]]) == ser_pair(seq![ps[0]][0]));
        assert(seq![ps[0]][0] == ps[0]);
        assert(ser_pairs(seq![ps[1]]) == ser_pair(seq![ps[1]][0]));
        assert(seq![ps[1]][0] == ps[1]);
    } else if ps.len() > 2 {
        lemma_ser_pairs_front(ps.drop_last());
        assert(ps.drop_last()[0] == ps[0]);
        assert(ps.drop_last().drop_first() =~= ps.drop_first().drop_last());
        assert(ps.drop_first().last() == ps.last());
        assert(ser_pair(ps[0]) + seq![','] + ser_pairs(ps.drop_last().drop_first()) + seq![',']
            + ser_pair(ps.last()) =~= ser_pair(ps[0]) + seq![','] + (ser_pairs(
            ps.drop_first().drop_last(),
        ) + seq![','] + ser_pair(ps.drop_first().last())));
    }
}

/// Serialized list items, taken apart at the first item.
pub proof fn lemma_ser_items_front(es: Seq<Json>)
    requires
        es.len() > 0,
    ensures
        es.len() == 1 ==> ser_items(es) == ser_json(es[0]),
        es.len() > 1 ==> ser_items(es) == ser_json(es[0]) + seq![','] + ser_items(
            es.drop_first(),
        ),
    decreases es.len(),
{
    if es.len() == 2 {
        assert(es.drop_last() =~= seq![es[0]]);
        assert(es.drop_first() =~= seq![es[1]]);
        assert(es.last() == es[1]);
        assert(ser_items(seq![es[0]]) == ser_json(seq![es[0]][0]));
        assert(seq![es[0]][0] == es[0]);
        assert(ser_items(seq![es[1]]) == ser_json(seq![es[1]][0]));
        assert(seq![es[1]][0] == es[1]);
    } else if es.len() > 2 {
        lemma_ser_items_front(es.drop_last());
        assert(es.drop_last()[0] == es[0]);
        assert(es.drop_last().drop_first() =~= es.drop_first().drop_last());
        assert(es.drop_first().last() == es.last());
        assert(ser_json(es[0]) + seq![','] + ser_items(es.drop_last().drop_first()) + seq![',']
            + ser_json(es.last()) =~= ser_json(es[0]) + seq![','] + (ser_items(
            es.drop_first().drop_last(),
        ) + seq![','] + ser_json(es.drop_first().last())));
    }
}

/// An overwrite with a key no entry carries is an append.
pub proof fn lemma_pairs_set_fresh(ps: Seq<(Seq<char>, Json)>, k: Seq<char>, v: Json)
    requires
        !pairs_has(ps, k),
    ensures
        pairs_set(ps, k, v) == ps.push((k, v)),
{
}

/// Escaped text, extended by one character at the end.
pub proof fn lemma_escape_take(t: Seq<char>, i: int)
    requires
        0 <= i < t.len(),
    ensures
        escape_seq(t.take(i + 1)) == escape_seq(t.take(i)) + escape_char(t[i]),
{
    let a = t.take(i + 1);
    assert(a.drop_last() =~= t.take(i));
    assert(a.last() == t[i]);
}

} // verus!

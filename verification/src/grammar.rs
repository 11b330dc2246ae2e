//! The specification of the character-level grammar: what each automaton of
//! the parser consumes and produces, stated as recursive spec functions over
//! a character sequence and a position.
//!
//! A failure records `at`, the number of characters the parser had consumed
//! when it gave up, and the diagnostic message.  A success records the value
//! read and the position of the first character that does not belong to it.
//!
//! The mutually recursive value/object/array functions carry a fuel argument
//! `d` for termination; any fuel larger than the remaining input gives the
//! same answer (`lemma_fuel_value` and friends), and the `_at` wrappers fix
//! one such fuel so that contracts need not mention it.

use vstd::prelude::*;

use crate::model::is_alpha_s;
use crate::model::is_digit_s;
use crate::model::is_space_s;
use crate::model::Json;
use crate::model::Num;

verus! {

/// A parse failure: how many characters were consumed, and the message.
pub ghost struct PFail {
    pub at: int,
    pub msg: Seq<char>,
}

/// First position at or after `p` holding no whitespace.
pub open spec fn sp_ws(s: Seq<char>, p: int) -> int
    decreases s.len() - p,
{
    if 0 <= p < s.len() && is_space_s(s[p]) {
        sp_ws(s, p + 1)
    } else {
        p
    }
}

/// The character an escape introducer maps to, if the escape is valid.
pub open spec fn unescape(c: char) -> Option<char> {
    if c == '\\' {
        Some('\\')
    } else if c == 'n' {
        Some('\n')
    } else if c == 'r' {
        Some('\r')
    } else if c == 't' {
        Some('\t')
    } else if c == '"' {
        Some('"')
    } else {
        None
    }
}

/// The body of a string literal, after the opening quote: accumulate
/// characters until an unescaped closing quote.
pub open spec fn sp_str_body(s: Seq<char>, p: int, acc: Seq<char>) -> Result<
    (Seq<char>, int),
    PFail,
>
    decreases s.len() - p,
{
    if p >= s.len() {
        Err(PFail { at: s.len() as int, msg: "End Str iterator"@ })
    } else if s[p] == '"' {
        Ok((acc, p + 1))
    } else if s[p] == '\\' {
        if p + 1 >= s.len() {
            Err(PFail { at: s.len() as int, msg: "End Str iterator"@ })
        } else {
            match unescape(s[p + 1]) {
                Some(c) => sp_str_body(s, p + 2, acc.push(c)),
                None => Err(PFail { at: p + 2, msg: "Invalid escape"@ }),
            }
        }
    } else {
        sp_str_body(s, p + 1, acc.push(s[p]))
    }
}

/// A whole string literal: an opening quote, the body, the closing quote.
pub open spec fn sp_string(s: Seq<char>, p: int) -> Result<(Seq<char>, int), PFail> {
    if p >= s.len() {
        Err(PFail { at: s.len() as int, msg: "End Str iterator"@ })
    } else if s[p] != '"' {
        Err(PFail { at: p + 1, msg: "Invalid char in node n1"@ })
    } else {
        sp_str_body(s, p + 1, Seq::empty())
    }
}

/// A fixed keyword, matched character by character.
pub open spec fn sp_keyword(s: Seq<char>, p: int, w: Seq<char>) -> Result<int, PFail>
    decreases w.len(),
{
    if w.len() == 0 {
        Ok(p)
    } else if p >= s.len() {
        Err(PFail { at: s.len() as int, msg: "Invalid StringAutoma parse."@ })
    } else if s[p] == w[0] {
        sp_keyword(s, p + 1, w.drop_first())
    } else {
        Err(PFail { at: p + 1, msg: "Erro String match. Char not equal"@ })
    }
}

/// States of the number automaton: nothing read, a minus sign read, a single
/// leading zero read, integer digits read, a decimal point read, fraction
/// digits read.
pub ghost enum NumSt {
    Start,
    Sign,
    Zero,
    Digits,
    Dot,
    Frac,
}

/// States in which the input is allowed to end.
pub open spec fn num_accepting(st: NumSt) -> bool {
    st is Zero || st is Digits || st is Frac
}

pub open spec fn num_of(neg: bool, ip: Seq<char>, fp: Option<Seq<char>>) -> Num {
    Num { negative: neg, int_part: ip, frac_part: fp, exponent: None }
}

/// The number automaton.  On success the returned position is that of the
/// terminating character, which is handed back to the caller unconsumed; at
/// the end of input it is the input length.
pub open spec fn sp_num_loop(
    s: Seq<char>,
    p: int,
    st: NumSt,
    neg: bool,
    ip: Seq<char>,
    fp: Option<Seq<char>>,
) -> Result<(Num, int), PFail>
    decreases s.len() - p,
{
    if p >= s.len() {
        if num_accepting(st) {
            Ok((num_of(neg, ip, fp), s.len() as int))
        } else {
            Err(PFail { at: s.len() as int, msg: "Invalid number..."@ })
        }
    } else {
        let c = s[p];
        match st {
            NumSt::Start => if c == '-' {
                sp_num_loop(s, p + 1, NumSt::Sign, true, ip, fp)
            } else if c == '0' {
                sp_num_loop(s, p + 1, NumSt::Zero, neg, ip.push(c), fp)
            } else if is_digit_s(c) {
                sp_num_loop(s, p + 1, NumSt::Digits, neg, ip.push(c), fp)
            } else {
                Err(PFail { at: p + 1, msg: "Invalid input, default"@ })
            },
            NumSt::Sign => if c == '0' {
                sp_num_loop(s, p + 1, NumSt::Zero, neg, ip.push(c), fp)
            } else if is_digit_s(c) {
                sp_num_loop(s, p + 1, NumSt::Digits, neg, ip.push(c), fp)
            } else {
                Err(PFail { at: p + 1, msg: "Invalid input, default"@ })
            },
            NumSt::Zero => if c == '.' {
                sp_num_loop(s, p + 1, NumSt::Dot, neg, ip, Some(Seq::empty()))
            } else {
                Ok((num_of(neg, ip, fp), p))
            },
            NumSt::Digits => if is_digit_s(c) {
                sp_num_loop(s, p + 1, NumSt::Digits, neg, ip.push(c), fp)
            } else if c == '.' {
                sp_num_loop(s, p + 1, NumSt::Dot, neg, ip, Some(Seq::empty()))
            } else {
                Ok((num_of(neg, ip, fp), p))
            },
            NumSt::Dot => if is_digit_s(c) {
                sp_num_loop(s, p + 1, NumSt::Frac, neg, ip, Some(fp->Some_0.push(c)))
            } else {
                Err(PFail { at: p + 1, msg: "Invalid input, default"@ })
            },
            NumSt::Frac => if is_digit_s(c) {
                sp_num_loop(s, p + 1, NumSt::Frac, neg, ip, Some(fp->Some_0.push(c)))
            } else {
                Ok((num_of(neg, ip, fp), p))
            },
        }
    }
}

pub open spec fn sp_number(s: Seq<char>, p: int) -> Result<(Num, int), PFail> {
    sp_num_loop(s, p, NumSt::Start, false, Seq::empty(), None)
}

/// Whether a value production can begin with this character.
pub open spec fn sp_can_start_value(c: char) -> bool {
    c == '{' || c == '[' || c == '"' || c == 'n' || c == 't' || c == 'f' || is_digit_s(c) || c
        == '-'
}

/// One value, dispatched on its first character.  Callers check
/// `sp_can_start_value` first; the final arm is never reached from them.
pub open spec fn sp_value(s: Seq<char>, p: int, d: nat) -> Result<(Json, int), PFail>
    decreases d, 2int,
{
    if p >= s.len() {
        Err(PFail { at: s.len() as int, msg: Seq::empty() })
    } else {
        let c = s[p];
        if c == '{' {
            match sp_object(s, p, d) {
                Ok((ps, n)) => Ok((Json::Object(ps), n)),
                Err(e) => Err(e),
            }
        } else if c == '[' {
            match sp_array(s, p, d) {
                Ok((es, n)) => Ok((Json::List(es), n)),
                Err(e) => Err(e),
            }
        } else if c == '"' {
            match sp_string(s, p) {
                Ok((t, n)) => Ok((Json::Text(t), n)),
                Err(e) => Err(e),
            }
        } else if c == 'n' {
            match sp_keyword(s, p, seq!['n', 'u', 'l', 'l']) {
                Ok(n) => Ok((Json::Null, n)),
                Err(e) => Err(e),
            }
        } else if c == 't' {
            match sp_keyword(s, p, seq!['t', 'r', 'u', 'e']) {
                Ok(n) => Ok((Json::Boolean(true), n)),
                Err(e) => Err(e),
            }
        } else if c == 'f' {
            match sp_keyword(s, p, seq!['f', 'a', 'l', 's', 'e']) {
                Ok(n) => Ok((Json::Boolean(false), n)),
                Err(e) => Err(e),
            }
        } else if is_digit_s(c) || c == '-' {
            match sp_number(s, p) {
                Ok((num, n)) => Ok((Json::Number(num), n)),
                Err(e) => Err(e),
            }
        } else {
            Err(PFail { at: p + 1, msg: Seq::empty() })
        }
    }
}

/// An object: an opening brace, then its entries.
pub open spec fn sp_object(s: Seq<char>, p: int, d: nat) -> Result<
    (Seq<(Seq<char>, Json)>, int),
    PFail,
>
    decreases d, 1int,
{
    if p >= s.len() {
        Err(PFail { at: s.len() as int, msg: "invalid json automa"@ })
    } else if s[p] != '{' {
        Err(PFail { at: p + 1, msg: "invalid from node: N1"@ })
    } else if d == 0 {
        Err(PFail { at: p, msg: Seq::empty() })
    } else {
        sp_obj_pairs(s, p + 1, Seq::empty(), (d - 1) as nat)
    }
}

/// The entries of an object, starting right after `{` or `,`: either a
/// closing brace, or a quoted key, a colon, a value, and then a comma or the
/// closing brace.  A repeated key overwrites the entry it repeats.
pub open spec fn sp_obj_pairs(
    s: Seq<char>,
    p: int,
    acc: Seq<(Seq<char>, Json)>,
    d: nat,
) -> Result<(Seq<(Seq<char>, Json)>, int), PFail>
    decreases d, 3int,
{
    let q = sp_ws(s, p);
    if q >= s.len() {
        Err(PFail { at: s.len() as int, msg: "invalid json automa"@ })
    } else if s[q] == '}' {
        Ok((acc, q + 1))
    } else if s[q] == '"' {
        match sp_string(s, q) {
            Err(e) => Err(e),
            Ok((key, r)) => {
                let t = sp_ws(s, r);
                if t >= s.len() {
                    Err(PFail { at: s.len() as int, msg: "invalid json automa"@ })
                } else if s[t] != ':' {
                    Err(PFail { at: t + 1, msg: "invalid from node: N3. Value: "@ + seq![s[t]] })
                } else {
                    let u = sp_ws(s, t + 1);
                    if u >= s.len() {
                        Err(PFail { at: s.len() as int, msg: "invalid json automa"@ })
                    } else if !sp_can_start_value(s[u]) {
                        Err(PFail { at: u + 1, msg: "invalid from node: N4"@ })
                    } else {
                        match sp_value(s, u, d) {
                            Err(e) => Err(e),
                            Ok((v, w)) => {
                                let acc2 = crate::model::pairs_set(acc, key, v);
                                let x = sp_ws(s, w);
                                if x >= s.len() {
                                    Err(
                                        PFail {
                                            at: s.len() as int,
                                            msg: "invalid json automa"@,
                                        },
                                    )
                                } else if s[x] == '}' {
                                    Ok((acc2, x + 1))
                                } else if s[x] == ',' {
                                    if d == 0 {
                                        Err(PFail { at: x, msg: Seq::empty() })
                                    } else {
                                        sp_obj_pairs(s, x + 1, acc2, (d - 1) as nat)
                                    }
                                } else {
                                    Err(PFail { at: x + 1, msg: "invalid from node: N5"@ })
                                }
                            },
                        }
                    }
                }
            },
        }
    } else {
        Err(PFail { at: q + 1, msg: "invalid from node: N2"@ })
    }
}

/// An array: an opening bracket, then its items.
pub open spec fn sp_array(s: Seq<char>, p: int, d: nat) -> Result<(Seq<Json>, int), PFail>
    decreases d, 1int,
{
    if p >= s.len() {
        Err(PFail { at: s.len() as int, msg: "unable to retrieve array"@ })
    } else if s[p] != '[' {
        Err(PFail { at: p + 1, msg: "Invalid ArrayAtm::N1"@ })
    } else if d == 0 {
        Err(PFail { at: p, msg: Seq::empty() })
    } else {
        sp_arr_items(s, p + 1, Seq::empty(), (d - 1) as nat)
    }
}

/// The items of an array, starting right after `[` or `,`: either a closing
/// bracket, or a value and then a comma or the closing bracket.
pub open spec fn sp_arr_items(s: Seq<char>, p: int, es: Seq<Json>, d: nat) -> Result<
    (Seq<Json>, int),
    PFail,
>
    decreases d, 3int,
{
    let q = sp_ws(s, p);
    if q >= s.len() {
        Err(PFail { at: s.len() as int, msg: "unable to retrieve array"@ })
    } else if s[q] == ']' {
        Ok((es, q + 1))
    } else if !sp_can_start_value(s[q]) {
        Err(PFail { at: q + 1, msg: "Invalid ArrayAtm::N2"@ })
    } else {
        match sp_value(s, q, d) {
            Err(e) => Err(e),
            Ok((v, w)) => {
                let x = sp_ws(s, w);
                if x >= s.len() {
                    Err(PFail { at: s.len() as int, msg: "unable to retrieve array"@ })
                } else if s[x] == ']' {
                    Ok((es.push(v), x + 1))
                } else if s[x] == ',' {
                    if d == 0 {
                        Err(PFail { at: x, msg: Seq::empty() })
                    } else {
                        sp_arr_items(s, x + 1, es.push(v), (d - 1) as nat)
                    }
                } else {
                    Err(PFail { at: x + 1, msg: "Invalid ArrayAtm::N3"@ })
                }
            },
        }
    }
}

/// Fuel that always suffices when parsing from position `p`.
pub open spec fn fuel_for(s: Seq<char>, p: int) -> nat {
    (s.len() - p + 1) as nat
}

pub open spec fn sp_value_at(s: Seq<char>, p: int) -> Result<(Json, int), PFail> {
    sp_value(s, p, fuel_for(s, p))
}

pub open spec fn sp_object_at(s: Seq<char>, p: int) -> Result<(Seq<(Seq<char>, Json)>, int), PFail> {
    sp_object(s, p, fuel_for(s, p))
}

pub open spec fn sp_array_at(s: Seq<char>, p: int) -> Result<(Seq<Json>, int), PFail> {
    sp_array(s, p, fuel_for(s, p))
}

pub open spec fn sp_obj_pairs_at(s: Seq<char>, p: int, acc: Seq<(Seq<char>, Json)>) -> Result<
    (Seq<(Seq<char>, Json)>, int),
    PFail,
> {
    sp_obj_pairs(s, p, acc, fuel_for(s, p))
}

pub open spec fn sp_arr_items_at(s: Seq<char>, p: int, es: Seq<Json>) -> Result<
    (Seq<Json>, int),
    PFail,
> {
    sp_arr_items(s, p, es, fuel_for(s, p))
}

/// One token of a path expression: a field name, a list index, or the
/// diagnostic that ended tokenization.
pub ghost enum PathTok {
    Key(Seq<char>),
    Index(nat),
    ErrorTok(Seq<char>),
}

/// States of the path tokenizer: between segments, after a dot, inside a
/// bare key, after an opening bracket, inside index digits, and finished.
pub ghost enum QSt {
    N1,
    N2,
    N3,
    N4,
    N5,
    N6,
}

pub open spec fn char_digit(c: char) -> nat {
    if c == '1' {
        1
    } else if c == '2' {
        2
    } else if c == '3' {
        3
    } else if c == '4' {
        4
    } else if c == '5' {
        5
    } else if c == '6' {
        6
    } else if c == '7' {
        7
    } else if c == '8' {
        8
    } else if c == '9' {
        9
    } else {
        0
    }
}

/// The numeric value of a digit string, most significant digit first.
pub open spec fn digits_val(ds: Seq<char>) -> nat
    decreases ds.len(),
{
    if ds.len() == 0 {
        0
    } else {
        digits_val(ds.drop_last()) * 10 + char_digit(ds.last())
    }
}

/// The value of a digit string, extended by one digit at the end.
pub proof fn lemma_digits_take(ds: Seq<char>, i: int)
    requires
        0 <= i < ds.len(),
    ensures
        digits_val(ds.take(i + 1)) == digits_val(ds.take(i)) * 10 + char_digit(ds[i]),
{
    let a = ds.take(i + 1);
    assert(a.drop_last() =~= ds.take(i));
    assert(a.last() == ds[i]);
}

/// A prefix of a digit string never has a larger value than the whole.
pub proof fn lemma_digits_prefix(ds: Seq<char>, i: int)
    requires
        0 <= i <= ds.len(),
    ensures
        digits_val(ds.take(i)) <= digits_val(ds),
    decreases ds.len() - i,
{
    if i < ds.len() {
        lemma_digits_take(ds, i);
        lemma_digits_prefix(ds, i + 1);
    } else {
        assert(ds.take(i) =~= ds);
    }
}

/// One step of the path tokenizer: the token it hands out (if any), and the
/// position, state and collected characters it leaves behind.
pub open spec fn sp_q_next(s: Seq<char>, p: int, st: QSt, buf: Seq<char>) -> (
    Option<PathTok>,
    int,
    QSt,
    Seq<char>,
)
    decreases s.len() - p,
{
    if p >= s.len() {
        match st {
            QSt::N1 => (None, p, QSt::N1, buf),
            QSt::N6 => (None, p, QSt::N6, buf),
            QSt::N3 => (Some(PathTok::Key(buf)), p, QSt::N6, Seq::empty()),
            _ => (Some(PathTok::ErrorTok("Invalid EOF status"@)), p, st, buf),
        }
    } else {
        let c = s[p];
        match st {
            QSt::N1 => if c == '.' {
                sp_q_next(s, p + 1, QSt::N2, buf)
            } else if c == '[' {
                sp_q_next(s, p + 1, QSt::N4, buf)
            } else {
                (
                    Some(PathTok::ErrorTok("Invalid starter character. Valid: /"@)),
                    p + 1,
                    QSt::N1,
                    buf,
                )
            },
            QSt::N2 => if is_alpha_s(c) || is_digit_s(c) {
                sp_q_next(s, p + 1, QSt::N3, buf.push(c))
            } else if c == '"' {
                match sp_string(s, p) {
                    Ok((key, r)) => (Some(PathTok::Key(key)), r, QSt::N1, buf),
                    Err(pe) => (
                        Some(PathTok::ErrorTok("Error reading "@ + pe.msg)),
                        pe.at,
                        QSt::N2,
                        buf,
                    ),
                }
            } else {
                (
                    Some(PathTok::ErrorTok("Invalid key string reference. Valid: char"@)),
                    p + 1,
                    QSt::N2,
                    buf,
                )
            },
            QSt::N3 => if is_alpha_s(c) || is_digit_s(c) {
                sp_q_next(s, p + 1, QSt::N3, buf.push(c))
            } else if c == '.' {
                (Some(PathTok::Key(buf)), p + 1, QSt::N2, Seq::empty())
            } else if c == '[' {
                (Some(PathTok::Key(buf)), p + 1, QSt::N4, Seq::empty())
            } else {
                (Some(PathTok::ErrorTok("Invalid key string reference."@)), p + 1, QSt::N3, buf)
            },
            QSt::N4 => if is_digit_s(c) {
                sp_q_next(s, p + 1, QSt::N5, buf.push(c))
            } else {
                (Some(PathTok::ErrorTok("Invalid key index reference."@)), p + 1, QSt::N4, buf)
            },
            QSt::N5 => if is_digit_s(c) {
                sp_q_next(s, p + 1, QSt::N5, buf.push(c))
            } else if c == ']' {
                if digits_val(buf) <= usize::MAX as nat {
                    (Some(PathTok::Index(digits_val(buf))), p + 1, QSt::N1, Seq::empty())
                } else {
                    (
                        Some(PathTok::ErrorTok("number too large to fit in target type"@)),
                        p + 1,
                        QSt::N1,
                        Seq::empty(),
                    )
                }
            } else {
                (Some(PathTok::ErrorTok("Invalid key index reference."@)), p + 1, QSt::N5, buf)
            },
            QSt::N6 => (None, p + 1, QSt::N6, buf),
        }
    }
}

/// A step of the tokenizer stays inside the input, and only the final
/// flushed key token leaves the position where it was.
pub proof fn lemma_q_next_bounds(s: Seq<char>, p: int, st: QSt, buf: Seq<char>)
    requires
        0 <= p <= s.len(),
    ensures
        p <= sp_q_next(s, p, st, buf).1 <= s.len(),
        (sp_q_next(s, p, st, buf).0 matches Some(t) && !(t is ErrorTok) && sp_q_next(
            s,
            p,
            st,
            buf,
        ).1 == p) ==> sp_q_next(s, p, st, buf).2 is N6 && !(st is N6),
    decreases s.len() - p,
{
    if p < s.len() {
        let c = s[p];
        match st {
            QSt::N1 => {
                if c == '.' {
                    lemma_q_next_bounds(s, p + 1, QSt::N2, buf);
                } else if c == '[' {
                    lemma_q_next_bounds(s, p + 1, QSt::N4, buf);
                }
            },
            QSt::N2 => {
                if is_alpha_s(c) || is_digit_s(c) {
                    lemma_q_next_bounds(s, p + 1, QSt::N3, buf.push(c));
                } else if c == '"' {
                    lemma_string_bounds(s, p);
                }
            },
            QSt::N3 => {
                if is_alpha_s(c) || is_digit_s(c) {
                    lemma_q_next_bounds(s, p + 1, QSt::N3, buf.push(c));
                }
            },
            QSt::N4 => {
                if is_digit_s(c) {
                    lemma_q_next_bounds(s, p + 1, QSt::N5, buf.push(c));
                }
            },
            QSt::N5 => {
                if is_digit_s(c) {
                    lemma_q_next_bounds(s, p + 1, QSt::N5, buf.push(c));
                }
            },
            QSt::N6 => {},
        }
    }
}

pub open spec fn q_aux(st: QSt) -> int {
    if st is N6 {
        0
    } else {
        1
    }
}

/// The tokens the tokenizer hands out from a given state, up to and
/// including the first error token, if any.
pub open spec fn sp_q_toks(s: Seq<char>, p: int, st: QSt, buf: Seq<char>) -> Seq<PathTok>
    decreases s.len() - p, q_aux(st),
    when 0 <= p <= s.len()
{
    let step = sp_q_next(s, p, st, buf);
    match step.0 {
        None => Seq::empty(),
        Some(t) => if t is ErrorTok {
            seq![t]
        } else {
            if step.1 <= s.len() && (step.1 > p || (step.1 == p && step.2 is N6 && !(st
                is N6))) {
                seq![t] + sp_q_toks(s, step.1, step.2, step.3)
            } else {
                seq![t]
            }
        },
    }
}

/// The token sequence of a whole path expression.
pub open spec fn sp_path_toks(s: Seq<char>) -> Seq<PathTok> {
    sp_q_toks(s, 0, QSt::N1, Seq::empty())
}

/// Walking a value along path tokens, as the destructive traverse does:
/// any missing key, out-of-range index or mismatched case is an error, and
/// a tokenizer error is handed through.
pub open spec fn sp_walk(j: crate::model::Json, toks: Seq<PathTok>) -> Result<
    crate::model::Json,
    Seq<char>,
>
    decreases toks.len(),
{
    if toks.len() == 0 {
        Ok(j)
    } else {
        match toks[0] {
            PathTok::ErrorTok(m) => Err(m),
            PathTok::Key(k) => match j {
                crate::model::Json::Object(ps) => match crate::model::pairs_get(ps, k) {
                    Some(v) => sp_walk(v, toks.drop_first()),
                    None => Err("Unable to traverse"@),
                },
                _ => Err("Unable to traverse"@),
            },
            PathTok::Index(i) => match j {
                crate::model::Json::List(es) => if i < es.len() {
                    sp_walk(es[i as int], toks.drop_first())
                } else {
                    Err("Unable to traverse"@)
                },
                _ => Err("Unable to traverse"@),
            },
        }
    }
}

/// One read-only step: a missing key, out-of-range index or mismatched case
/// yields the empty result rather than an error.
pub open spec fn sp_step_key(j: Option<crate::model::Json>, k: Seq<char>) -> Option<
    crate::model::Json,
> {
    match j {
        Some(crate::model::Json::Object(ps)) => crate::model::pairs_get(ps, k),
        _ => None,
    }
}

pub open spec fn sp_step_index(j: Option<crate::model::Json>, i: nat) -> Option<
    crate::model::Json,
> {
    match j {
        Some(crate::model::Json::List(es)) => if i < es.len() {
            Some(es[i as int])
        } else {
            None
        },
        _ => None,
    }
}

/// Walking read-only along path tokens: absence propagates, and only a
/// tokenizer error is reported.
pub open spec fn sp_walk_read(j: Option<crate::model::Json>, toks: Seq<PathTok>) -> Result<
    Option<crate::model::Json>,
    Seq<char>,
>
    decreases toks.len(),
{
    if toks.len() == 0 {
        Ok(j)
    } else {
        match toks[0] {
            PathTok::ErrorTok(m) => Err(m),
            PathTok::Key(k) => sp_walk_read(sp_step_key(j, k), toks.drop_first()),
            PathTok::Index(i) => sp_walk_read(sp_step_index(j, i), toks.drop_first()),
        }
    }
}

/// A reader that points at nothing stays empty however far it is walked.
pub proof fn lemma_walk_read_empty(toks: Seq<PathTok>)
    ensures
        sp_walk_read(None, toks) matches Ok(o) ==> o is None,
    decreases toks.len(),
{
    if toks.len() > 0 {
        match toks[0] {
            PathTok::ErrorTok(_) => {},
            PathTok::Key(k) => {
                lemma_walk_read_empty(toks.drop_first());
            },
            PathTok::Index(i) => {
                lemma_walk_read_empty(toks.drop_first());
            },
        }
    }
}

/// The tail of the consumed input that a failed parse reports: the last nine
/// characters read, or all of them when fewer were consumed.
pub open spec fn read_context(s: Seq<char>, at: int) -> Seq<char> {
    s.subrange(
        if at > 9 {
            at - 9
        } else {
            0
        },
        at,
    )
}

/// What a whole parse of `s` yields: the top-level value must be an object;
/// characters after its closing brace are not read.
pub open spec fn sp_doc(s: Seq<char>) -> Result<(Seq<(Seq<char>, Json)>, int), PFail> {
    sp_object_at(s, 0)
}

pub proof fn lemma_ws_bounds(s: Seq<char>, p: int)
    requires
        0 <= p <= s.len(),
    ensures
        p <= sp_ws(s, p) <= s.len(),
        sp_ws(s, p) == s.len() || !is_space_s(s[sp_ws(s, p)]),
    decreases s.len() - p,
{
    if p < s.len() && is_space_s(s[p]) {
        lemma_ws_bounds(s, p + 1);
    }
}

pub proof fn lemma_str_body_bounds(s: Seq<char>, p: int, acc: Seq<char>)
    requires
        0 <= p <= s.len(),
    ensures
        sp_str_body(s, p, acc) matches Ok((t, n)) ==> p < n <= s.len(),
        sp_str_body(s, p, acc) matches Err(e) ==> p <= e.at <= s.len(),
    decreases s.len() - p,
{
    if p < s.len() && s[p] != '"' {
        if s[p] == '\\' {
            if p + 1 < s.len() && unescape(s[p + 1]) is Some {
                lemma_str_body_bounds(s, p + 2, acc.push(unescape(s[p + 1])->Some_0));
            }
        } else {
            lemma_str_body_bounds(s, p + 1, acc.push(s[p]));
        }
    }
}

pub proof fn lemma_string_bounds(s: Seq<char>, p: int)
    requires
        0 <= p <= s.len(),
    ensures
        sp_string(s, p) matches Ok((t, n)) ==> p + 2 <= n <= s.len(),
        sp_string(s, p) matches Err(e) ==> p <= e.at <= s.len(),
{
    if p < s.len() && s[p] == '"' {
        lemma_str_body_bounds(s, p + 1, Seq::empty());
    }
}

pub proof fn lemma_keyword_bounds(s: Seq<char>, p: int, w: Seq<char>)
    requires
        0 <= p <= s.len(),
    ensures
        sp_keyword(s, p, w) matches Ok(n) ==> n == p + w.len() && n <= s.len(),
        sp_keyword(s, p, w) matches Err(e) ==> p <= e.at <= s.len(),
    decreases w.len(),
{
    if w.len() > 0 && p < s.len() && s[p] == w[0] {
        lemma_keyword_bounds(s, p + 1, w.drop_first());
    }
}

pub proof fn lemma_num_loop_bounds(
    s: Seq<char>,
    p: int,
    st: NumSt,
    neg: bool,
    ip: Seq<char>,
    fp: Option<Seq<char>>,
)
    requires
        0 <= p <= s.len(),
    ensures
        sp_num_loop(s, p, st, neg, ip, fp) matches Ok((num, n)) ==> p <= n <= s.len(),
        sp_num_loop(s, p, st, neg, ip, fp) matches Err(e) ==> p <= e.at <= s.len(),
    decreases s.len() - p,
{
    if p < s.len() {
        let c = s[p];
        match st {
            NumSt::Start => {
                if c == '-' {
                    lemma_num_loop_bounds(s, p + 1, NumSt::Sign, true, ip, fp);
                } else if c == '0' {
                    lemma_num_loop_bounds(s, p + 1, NumSt::Zero, neg, ip.push(c), fp);
                } else if is_digit_s(c) {
                    lemma_num_loop_bounds(s, p + 1, NumSt::Digits, neg, ip.push(c), fp);
                }
            },
            NumSt::Sign => {
                if c == '0' {
                    lemma_num_loop_bounds(s, p + 1, NumSt::Zero, neg, ip.push(c), fp);
                } else if is_digit_s(c) {
                    lemma_num_loop_bounds(s, p + 1, NumSt::Digits, neg, ip.push(c), fp);
                }
            },
            NumSt::Zero => {
                if c == '.' {
                    lemma_num_loop_bounds(s, p + 1, NumSt::Dot, neg, ip, Some(Seq::empty()));
                }
            },
            NumSt::Digits => {
                if is_digit_s(c) {
                    lemma_num_loop_bounds(s, p + 1, NumSt::Digits, neg, ip.push(c), fp);
                } else if c == '.' {
                    lemma_num_loop_bounds(s, p + 1, NumSt::Dot, neg, ip, Some(Seq::empty()));
                }
            },
            NumSt::Dot => {
                if is_digit_s(c) {
                    lemma_num_loop_bounds(s, p + 1, NumSt::Frac, neg, ip, Some(fp->Some_0.push(c)));
                }
            },
            NumSt::Frac => {
                if is_digit_s(c) {
                    lemma_num_loop_bounds(s, p + 1, NumSt::Frac, neg, ip, Some(fp->Some_0.push(c)));
                }
            },
        }
    }
}

/// Any two sufficient fuels give the same parse, and the positions a parse
/// returns stay inside the input.
pub proof fn lemma_fuel_value(s: Seq<char>, p: int, d1: nat, d2: nat)
    requires
        0 <= p <= s.len(),
        d1 > s.len() - p,
        d2 > s.len() - p,
    ensures
        sp_value(s, p, d1) == sp_value(s, p, d2),
        sp_value(s, p, d1) matches Ok((v, n)) ==> p < n <= s.len(),
        sp_value(s, p, d1) matches Err(e) ==> p <= e.at <= s.len(),
    decreases d1, 2int,
{
    if p < s.len() {
        let c = s[p];
        if c == '{' {
            lemma_fuel_object(s, p, d1, d2);
        } else if c == '[' {
            lemma_fuel_array(s, p, d1, d2);
        } else if c == '"' {
            lemma_string_bounds(s, p);
        } else if c == 'n' {
            lemma_keyword_bounds(s, p, seq!['n', 'u', 'l', 'l']);
        } else if c == 't' {
            lemma_keyword_bounds(s, p, seq!['t', 'r', 'u', 'e']);
        } else if c == 'f' {
            lemma_keyword_bounds(s, p, seq!['f', 'a', 'l', 's', 'e']);
        } else if is_digit_s(c) || c == '-' {
            if c == '-' {
                lemma_num_loop_bounds(s, p + 1, NumSt::Sign, true, Seq::empty(), None);
            } else if c == '0' {
                lemma_num_loop_bounds(s, p + 1, NumSt::Zero, false, seq![c], None);
            } else {
                lemma_num_loop_bounds(s, p + 1, NumSt::Digits, false, seq![c], None);
            }
        }
    }
}

pub proof fn lemma_fuel_object(s: Seq<char>, p: int, d1: nat, d2: nat)
    requires
        0 <= p <= s.len(),
        d1 > s.len() - p,
        d2 > s.len() - p,
    ensures
        sp_object(s, p, d1) == sp_object(s, p, d2),
        sp_object(s, p, d1) matches Ok((ps, n)) ==> p < n <= s.len(),
        sp_object(s, p, d1) matches Err(e) ==> p <= e.at <= s.len(),
    decreases d1, 1int,
{
    if p < s.len() && s[p] == '{' {
        lemma_fuel_obj_pairs(s, p + 1, Seq::empty(), (d1 - 1) as nat, (d2 - 1) as nat);
    }
}

pub proof fn lemma_fuel_array(s: Seq<char>, p: int, d1: nat, d2: nat)
    requires
        0 <= p <= s.len(),
        d1 > s.len() - p,
        d2 > s.len() - p,
    ensures
        sp_array(s, p, d1) == sp_array(s, p, d2),
        sp_array(s, p, d1) matches Ok((es, n)) ==> p < n <= s.len(),
        sp_array(s, p, d1) matches Err(e) ==> p <= e.at <= s.len(),
    decreases d1, 1int,
{
    if p < s.len() && s[p] == '[' {
        lemma_fuel_arr_items(s, p + 1, Seq::empty(), (d1 - 1) as nat, (d2 - 1) as nat);
    }
}

pub proof fn lemma_fuel_obj_pairs(
    s: Seq<char>,
    p: int,
    acc: Seq<(Seq<char>, Json)>,
    d1: nat,
    d2: nat,
)
    requires
        0 <= p <= s.len(),
        d1 > s.len() - p,
        d2 > s.len() - p,
    ensures
        sp_obj_pairs(s, p, acc, d1) == sp_obj_pairs(s, p, acc, d2),
        sp_obj_pairs(s, p, acc, d1) matches Ok((ps, n)) ==> p < n <= s.len(),
        sp_obj_pairs(s, p, acc, d1) matches Err(e) ==> p <= e.at <= s.len(),
    decreases d1, 3int,
{
    lemma_ws_bounds(s, p);
    let q = sp_ws(s, p);
    if q < s.len() && s[q] != '}' && s[q] == '"' {
        lemma_string_bounds(s, q);
        if let Ok((key, r)) = sp_string(s, q) {
            lemma_ws_bounds(s, r);
            let t = sp_ws(s, r);
            if t < s.len() && s[t] == ':' {
                lemma_ws_bounds(s, t + 1);
                let u = sp_ws(s, t + 1);
                if u < s.len() && sp_can_start_value(s[u]) {
                    lemma_fuel_value(s, u, d1, d2);
                    if let Ok((v, w)) = sp_value(s, u, d1) {
                        let acc2 = crate::model::pairs_set(acc, key, v);
                        lemma_ws_bounds(s, w);
                        let x = sp_ws(s, w);
                        if x < s.len() && s[x] != '}' && s[x] == ',' {
                            lemma_fuel_obj_pairs(
                                s,
                                x + 1,
                                acc2,
                                (d1 - 1) as nat,
                                (d2 - 1) as nat,
                            );
                        }
                    }
                }
            }
        }
    }
}

pub proof fn lemma_fuel_arr_items(s: Seq<char>, p: int, es: Seq<Json>, d1: nat, d2: nat)
    requires
        0 <= p <= s.len(),
        d1 > s.len() - p,
        d2 > s.len() - p,
    ensures
        sp_arr_items(s, p, es, d1) == sp_arr_items(s, p, es, d2),
        sp_arr_items(s, p, es, d1) matches Ok((r, n)) ==> p < n <= s.len(),
        sp_arr_items(s, p, es, d1) matches Err(e) ==> p <= e.at <= s.len(),
    decreases d1, 3int,
{
    lemma_ws_bounds(s, p);
    let q = sp_ws(s, p);
    if q < s.len() && s[q] != ']' && sp_can_start_value(s[q]) {
        lemma_fuel_value(s, q, d1, d2);
        if let Ok((v, w)) = sp_value(s, q, d1) {
            lemma_ws_bounds(s, w);
            let x = sp_ws(s, w);
            if x < s.len() && s[x] != ']' && s[x] == ',' {
                lemma_fuel_arr_items(s, x + 1, es.push(v), (d1 - 1) as nat, (d2 - 1) as nat);
            }
        }
    }
}

} // verus!

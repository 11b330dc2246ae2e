//! The parsing engine: one automaton per grammar production, composed by
//! mutual recursion into a whole-document parser.  Every automaton is proved
//! against the corresponding spec function of `crate::grammar`.

use vstd::prelude::*;

use crate::grammar::fuel_for;
use crate::grammar::lemma_fuel_arr_items;
use crate::grammar::lemma_fuel_obj_pairs;
use crate::grammar::lemma_digits_prefix;
use crate::grammar::lemma_digits_take;
use crate::grammar::lemma_fuel_value;
use crate::grammar::lemma_ws_bounds;
use crate::grammar::read_context;
use crate::grammar::sp_arr_items_at;
use crate::grammar::sp_array_at;
use crate::grammar::sp_can_start_value;
use crate::grammar::sp_doc;
use crate::grammar::sp_keyword;
use crate::grammar::sp_num_loop;
use crate::grammar::sp_number;
use crate::grammar::digits_val;
use crate::grammar::q_aux;
use crate::grammar::sp_obj_pairs_at;
use crate::grammar::sp_q_next;
use crate::grammar::PathTok;
use crate::grammar::QSt;
use crate::grammar::sp_object_at;
use crate::grammar::sp_str_body;
use crate::grammar::sp_string;
use crate::grammar::sp_value_at;
use crate::grammar::sp_ws;
use crate::grammar::NumSt;
use crate::grammar::PFail;
use crate::model::digits_wf;
use crate::model::is_alpha_s;
use crate::model::is_digit_s;
use crate::model::is_space_s;
use crate::model::num_wf;
use crate::model::Json;
use crate::model::Num;
use crate::objects::group_view_lemmas;
use crate::objects::lemma_view_null;
use crate::objects::object;
use crate::objects::ListJson;
use crate::objects::Number;
use crate::objects::ObjectJson;
use crate::objects::TypeJson;
use crate::strutil::chars_to_string;
use crate::strutil::str_to_chars;
use crate::strutil::string_push_char;

verus! {

broadcast use group_view_lemmas;

/// Whether the character is blank space between tokens.
pub fn is_space(c: char) -> (r: bool)
    ensures
        r == is_space_s(c),
{
    match c {
        ' ' | '\t' | '\n' | '\r' => true,
        _ => false,
    }
}

/// Whether the character is a decimal digit.
pub fn is_number(c: char) -> (r: bool)
    ensures
        r == is_digit_s(c),
{
    c >= '0' && c <= '9'
}

/// Whether the character is an ASCII letter.
pub fn is_char(c: char) -> (r: bool)
    ensures
        r == is_alpha_s(c),
{
    (c >= 'a' && c <= 'z') || (c >= 'A' && c <= 'Z')
}

/// Advance past whitespace.
fn skip_ws(input: &[char], pos: usize) -> (r: usize)
    requires
        pos <= input@.len(),
    ensures
        r as int == sp_ws(input@, pos as int),
        pos <= r <= input@.len(),
        r == input@.len() || !is_space_s(input@[r as int]),
    decreases input@.len() - pos,
{
    if pos < input.len() && is_space(input[pos]) {
        skip_ws(input, pos + 1)
    } else {
        pos
    }
}

/// The characters a bounded lookback buffer holds after `p` characters of
/// `s` have passed through it: the most recent ones, fewer than `size`.
pub open spec fn buffer_model(s: Seq<char>, p: int, size: int) -> Seq<char> {
    if size <= 0 {
        Seq::empty()
    } else {
        s.subrange(
            if p - (size - 1) > 0 {
                p - (size - 1)
            } else {
                0
            },
            p,
        )
    }
}

/// A character source that remembers the tail of what it has handed out, for
/// error diagnostics: a FIFO of fixed capacity wrapped around the input.
pub struct StoreBufferIterator {
    size: usize,
    store: Vec<char>,
    input: Vec<char>,
    pos: usize,
}

impl StoreBufferIterator {
    pub closed spec fn input_seq(&self) -> Seq<char> {
        self.input@
    }

    pub closed spec fn position(&self) -> int {
        self.pos as int
    }

    pub closed spec fn capacity(&self) -> int {
        self.size as int
    }

    pub closed spec fn stored(&self) -> Seq<char> {
        self.store@
    }

    /// The buffer holds exactly the tail of what was handed out.
    pub closed spec fn wf(&self) -> bool {
        self.pos <= self.input@.len() && self.store@ == buffer_model(
            self.input@,
            self.pos as int,
            self.size as int,
        )
    }

    pub fn new(size: usize, input: Vec<char>) -> (r: StoreBufferIterator)
        ensures
            r.wf(),
            r.input_seq() == input@,
            r.position() == 0,
            r.capacity() == size as int,
            r.stored() == Seq::<char>::empty(),
    {
        let r = StoreBufferIterator { size, store: Vec::new(), input, pos: 0 };
        proof {
            assert(buffer_model(r.input@, 0, size as int) =~= Seq::<char>::empty());
        }
        r
    }

    /// Remember one character, discarding the oldest if the buffer is full.
    fn store_c(&mut self, c: char)
        ensures
            final(self).store@ == (if old(self).store@.push(c).len() >= old(self).size {
                old(self).store@.push(c).drop_first()
            } else {
                old(self).store@.push(c)
            }),
            final(self).size == old(self).size,
            final(self).input == old(self).input,
            final(self).pos == old(self).pos,
    {
        self.store.push(c);
        if self.store.len() >= self.size {
            let _dropped = self.store.remove(0);
            proof {
                assert(self.store@ =~= old(self).store@.push(c).drop_first());
            }
        }
    }

    /// The next character of the input, remembered in the buffer.
    pub fn next(&mut self) -> (r: Option<char>)
        requires
            old(self).wf(),
        ensures
            final(self).wf(),
            final(self).input_seq() == old(self).input_seq(),
            final(self).capacity() == old(self).capacity(),
            if old(self).position() < old(self).input_seq().len() {
                r == Some(old(self).input_seq()[old(self).position()]) && final(self).position()
                    == old(self).position() + 1
            } else {
                r is None && final(self).position() == old(self).position()
            },
            final(self).stored() == buffer_model(
                final(self).input_seq(),
                final(self).position(),
                final(self).capacity(),
            ),
    {
        if self.pos < self.input.len() {
            let c = self.input[self.pos];
            self.store_c(c);
            self.pos = self.pos + 1;
            proof {
                let s = self.input@;
                let p = self.pos as int;
                let z = self.size as int;
                assert(self.store@ =~= buffer_model(s, p, z));
            }
            Some(c)
        } else {
            None
        }
    }

    /// Hand the remembered characters out, oldest first.
    pub fn into_iter(self) -> (r: Vec<char>)
        ensures
            r@ == self.stored(),
    {
        self.store
    }
}

/// A diagnostic from one automaton: the message names the production and
/// state that gave up.
#[derive(Debug)]
pub struct ParserError {
    message: String,
}

impl View for ParserError {
    type V = Seq<char>;

    closed spec fn view(&self) -> Seq<char> {
        self.message@
    }
}

impl ParserError {
    pub fn new(message: String) -> (r: ParserError)
        ensures
            r@ == message@,
    {
        ParserError { message }
    }

    pub fn message(&self) -> (r: &str)
        ensures
            r@ == self@,
    {
        self.message.as_str()
    }
}

/// The cause kept inside a top-level error.
#[derive(Debug)]
pub enum DetailError {
    Parser(ParserError),
}

impl View for DetailError {
    type V = Seq<char>;

    closed spec fn view(&self) -> Seq<char> {
        match self {
            DetailError::Parser(e) => e@,
        }
    }
}

impl DetailError {
    /// The message of the underlying cause.
    pub fn message(&self) -> (r: &str)
        ensures
            r@ == self@,
    {
        match self {
            DetailError::Parser(e) => e.message(),
        }
    }
}

/// A top-level error: its own message and the cause it carries.
#[derive(Debug)]
pub struct AutomaError {
    message: String,
    source: DetailError,
}

impl View for AutomaError {
    type V = (Seq<char>, Seq<char>);

    closed spec fn view(&self) -> (Seq<char>, Seq<char>) {
        (self.message@, self.source@)
    }
}

impl AutomaError {
    pub fn new(message: String, source: DetailError) -> (r: AutomaError)
        ensures
            r@ == (message@, source@),
    {
        AutomaError { message, source }
    }

    /// The top-level message.
    pub fn to_string(&self) -> (r: String)
        ensures
            r@ == self@.0,
    {
        let mut m = String::new();
        m.append(self.message.as_str());
        m
    }

    /// The cause carried inside.
    pub fn source(&self) -> (r: &DetailError)
        ensures
            r@ == self@.1,
    {
        &self.source
    }
}

/// Wrap an automaton's diagnostic as a top-level error.
fn automa_error_of(e: ParserError) -> (r: AutomaError)
    ensures
        r@.0 == "Automa error"@,
        r@.1 == e@,
{
    AutomaError::new(String::from_str("Automa error"), DetailError::Parser(e))
}

fn perr(m: &str) -> (r: ParserError)
    ensures
        r@ == m@,
{
    ParserError::new(String::from_str(m))
}

/// The string automaton: an opening quote, body characters with escapes, a
/// closing quote.
pub(crate) fn str_start(input: &[char], pos: usize) -> (r: Result<
    (String, usize),
    (ParserError, usize),
>)
    requires
        pos <= input@.len(),
    ensures
        match r {
            Ok((t, n)) => sp_string(input@, pos as int) == Ok::<(Seq<char>, int), PFail>(
                (t@, n as int),
            ) && pos < n <= input@.len(),
            Err((e, at)) => (sp_string(input@, pos as int) matches Err(pe) && pe.at == at as int
                && pe.msg == e@) && at <= input@.len(),
        },
{
    if pos >= input.len() {
        return Err((perr("End Str iterator"), input.len()));
    }
    if input[pos] != '"' {
        return Err((perr("Invalid char in node n1"), pos + 1));
    }
    let mut acc: Vec<char> = Vec::new();
    let mut p = pos + 1;
    while p < input.len()
        invariant
            pos + 1 <= p <= input@.len(),
            pos < input@.len(),
            input@[pos as int] == '"',
            sp_str_body(input@, pos as int + 1, Seq::empty()) == sp_str_body(
                input@,
                p as int,
                acc@,
            ),
        decreases input@.len() - p,
    {
        let c = input[p];
        if c == '"' {
            return Ok((chars_to_string(&acc), p + 1));
        } else if c == '\\' {
            if p + 1 >= input.len() {
                return Err((perr("End Str iterator"), input.len()));
            }
            let e = input[p + 1];
            if e == '\\' {
                acc.push('\\');
            } else if e == 'n' {
                acc.push('\n');
            } else if e == 'r' {
                acc.push('\r');
            } else if e == 't' {
                acc.push('\t');
            } else if e == '"' {
                acc.push('"');
            } else {
                return Err((perr("Invalid escape"), p + 2));
            }
            p = p + 2;
        } else {
            acc.push(c);
            p = p + 1;
        }
    }
    Err((perr("End Str iterator"), input.len()))
}

/// The keyword automaton: the input must continue with the given word.
pub(crate) fn kw_start(input: &[char], pos: usize, word: &Vec<char>) -> (r: Result<
    usize,
    (ParserError, usize),
>)
    requires
        pos <= input@.len(),
    ensures
        match r {
            Ok(n) => sp_keyword(input@, pos as int, word@) == Ok::<int, PFail>(n as int) && n
                == pos + word@.len() && n <= input@.len(),
            Err((e, at)) => (sp_keyword(input@, pos as int, word@) matches Err(pe) && pe.at
                == at as int && pe.msg == e@) && at <= input@.len(),
        },
{
    proof {
        assert(word@.skip(0) =~= word@);
    }
    let mut i: usize = 0;
    let mut p = pos;
    while i < word.len()
        invariant
            0 <= i <= word@.len(),
            p == pos + i,
            p <= input@.len(),
            sp_keyword(input@, pos as int, word@) == sp_keyword(
                input@,
                p as int,
                word@.skip(i as int),
            ),
        decreases word@.len() - i,
    {
        proof {
            assert(word@.skip(i as int).len() > 0);
            assert(word@.skip(i as int)[0] == word@[i as int]);
            assert(word@.skip(i as int).drop_first() =~= word@.skip(i as int + 1));
        }
        if p >= input.len() {
            return Err((perr("Invalid StringAutoma parse."), input.len()));
        }
        if input[p] == word[i] {
            i = i + 1;
            p = p + 1;
        } else {
            return Err((perr("Erro String match. Char not equal"), p + 1));
        }
    }
    proof {
        assert(word@.skip(word@.len() as int).len() == 0);
    }
    Ok(p)
}

/// Executable states of the number automaton.
enum NumState {
    Start,
    Sign,
    Zero,
    Digits,
    Dot,
    Frac,
}

spec fn num_st_view(st: NumState) -> NumSt {
    match st {
        NumState::Start => NumSt::Start,
        NumState::Sign => NumSt::Sign,
        NumState::Zero => NumSt::Zero,
        NumState::Digits => NumSt::Digits,
        NumState::Dot => NumSt::Dot,
        NumState::Frac => NumSt::Frac,
    }
}

/// The number automaton: sign, integer digits with the leading-zero rule,
/// optional fraction.  On success the terminating character, if any, is
/// returned unconsumed, and the returned position points at it.
pub(crate) fn num_start(input: &[char], pos: usize) -> (r: Result<
    ((Number, Option<char>), usize),
    (ParserError, usize),
>)
    requires
        pos <= input@.len(),
    ensures
        match r {
            Ok(((num, extra), n)) => sp_number(input@, pos as int) == Ok::<(Num, int), PFail>(
                (num@, n as int),
            ) && pos < n <= input@.len() && num_wf(num@) && num@.exponent is None && extra == (
            if n < input@.len() {
                Some(input@[n as int])
            } else {
                None
            }),
            Err((e, at)) => (sp_number(input@, pos as int) matches Err(pe) && pe.at == at as int
                && pe.msg == e@) && at <= input@.len(),
        },
{
    let ghost s = input@;
    let mut st = NumState::Start;
    let mut neg = false;
    let mut ip: Vec<char> = Vec::new();
    let mut fp: Vec<char> = Vec::new();
    let mut has_fp = false;
    let mut p = pos;
    while p < input.len()
        invariant
            pos <= p <= s.len(),
            s == input@,
            sp_number(s, pos as int) == sp_num_loop(
                s,
                p as int,
                num_st_view(st),
                neg,
                ip@,
                if has_fp {
                    Some(fp@)
                } else {
                    None
                },
            ),
            !has_fp ==> fp@ == Seq::<char>::empty(),
            !(st matches NumState::Start) ==> p > pos,
            st matches NumState::Start ==> ip@.len() == 0 && !has_fp,
            st matches NumState::Sign ==> ip@.len() == 0 && !has_fp,
            st matches NumState::Zero ==> ip@ =~= seq!['0'] && !has_fp,
            st matches NumState::Digits ==> digits_wf(ip@) && ip@[0] != '0' && !has_fp,
            st matches NumState::Dot ==> digits_wf(ip@) && (ip@.len() > 1 ==> ip@[0] != '0')
                && has_fp && fp@.len() == 0,
            st matches NumState::Frac ==> digits_wf(ip@) && (ip@.len() > 1 ==> ip@[0] != '0')
                && has_fp && digits_wf(fp@),
        decreases s.len() - p,
    {
        let c = input[p];
        match st {
            NumState::Start => {
                if c == '-' {
                    neg = true;
                    st = NumState::Sign;
                } else if c == '0' {
                    ip.push(c);
                    st = NumState::Zero;
                } else if is_number(c) {
                    ip.push(c);
                    st = NumState::Digits;
                } else {
                    return Err((perr("Invalid input, default"), p + 1));
                }
            },
            NumState::Sign => {
                if c == '0' {
                    ip.push(c);
                    st = NumState::Zero;
                } else if is_number(c) {
                    ip.push(c);
                    st = NumState::Digits;
                } else {
                    return Err((perr("Invalid input, default"), p + 1));
                }
            },
            NumState::Zero => {
                if c == '.' {
                    has_fp = true;
                    st = NumState::Dot;
                } else {
                    let num = Number::new(
                        neg,
                        chars_to_string(&ip),
                        None,
                        None,
                    );
                    return Ok(((num, Some(c)), p));
                }
            },
            NumState::Digits => {
                if is_number(c) {
                    ip.push(c);
                } else if c == '.' {
                    has_fp = true;
                    st = NumState::Dot;
                } else {
                    let num = Number::new(neg, chars_to_string(&ip), None, None);
                    return Ok(((num, Some(c)), p));
                }
            },
            NumState::Dot => {
                if is_number(c) {
                    fp.push(c);
                    st = NumState::Frac;
                } else {
                    return Err((perr("Invalid input, default"), p + 1));
                }
            },
            NumState::Frac => {
                if is_number(c) {
                    fp.push(c);
                } else {
                    let num = Number::new(
                        neg,
                        chars_to_string(&ip),
                        Some(chars_to_string(&fp)),
                        None,
                    );
                    return Ok(((num, Some(c)), p));
                }
            },
        }
        p = p + 1;
    }
    match st {
        NumState::Zero | NumState::Digits => {
            let num = Number::new(neg, chars_to_string(&ip), None, None);
            Ok(((num, None), p))
        },
        NumState::Frac => {
            let num = Number::new(
                neg,
                chars_to_string(&ip),
                Some(chars_to_string(&fp)),
                None,
            );
            Ok(((num, None), p))
        },
        _ => Err((perr("Invalid number..."), input.len())),
    }
}

/// Whether a value production can begin with this character.
fn can_start_value(c: char) -> (r: bool)
    ensures
        r == sp_can_start_value(c),
{
    c == '{' || c == '[' || c == '"' || c == 'n' || c == 't' || c == 'f' || is_number(c) || c
        == '-'
}

/// One value, dispatched by its first character.
pub(crate) fn value_start(input: &[char], pos: usize) -> (r: Result<
    (TypeJson, usize),
    (ParserError, usize),
>)
    requires
        pos < input@.len(),
        sp_can_start_value(input@[pos as int]),
    ensures
        match r {
            Ok((t, n)) => sp_value_at(input@, pos as int) == Ok::<(Json, int), PFail>(
                (t@, n as int),
            ) && pos < n <= input@.len(),
            Err((e, at)) => (sp_value_at(input@, pos as int) matches Err(pe) && pe.at == at as int
                && pe.msg == e@) && at <= input@.len(),
        },
    decreases input@.len() - pos, 1int,
{
    let ghost s = input@;
    let c = input[pos];
    if c == '{' {
        match object_start(input, pos) {
            Ok((o, n)) => Ok((TypeJson::Object(o), n)),
            Err(e) => Err(e),
        }
    } else if c == '[' {
        match array_start(input, pos) {
            Ok((l, n)) => Ok((TypeJson::List(l), n)),
            Err(e) => Err(e),
        }
    } else if c == '"' {
        match str_start(input, pos) {
            Ok((t, n)) => Ok((TypeJson::Text(t), n)),
            Err(e) => Err(e),
        }
    } else if c == 'n' {
        let w = str_to_chars("null");
        proof {
            reveal_strlit("null");
            assert(w@ =~= seq!['n', 'u', 'l', 'l']);
        }
        match kw_start(input, pos, &w) {
            Ok(n) => {
                proof {
                    lemma_view_null();
                }
                Ok((TypeJson::Null, n))
            },
            Err(e) => Err(e),
        }
    } else if c == 't' {
        let w = str_to_chars("true");
        proof {
            reveal_strlit("true");
            assert(w@ =~= seq!['t', 'r', 'u', 'e']);
        }
        match kw_start(input, pos, &w) {
            Ok(n) => Ok((TypeJson::Boolean(true), n)),
            Err(e) => Err(e),
        }
    } else if c == 'f' {
        let w = str_to_chars("false");
        proof {
            reveal_strlit("false");
            assert(w@ =~= seq!['f', 'a', 'l', 's', 'e']);
        }
        match kw_start(input, pos, &w) {
            Ok(n) => Ok((TypeJson::Boolean(false), n)),
            Err(e) => Err(e),
        }
    } else {
        match num_start(input, pos) {
            Ok(((num, _extra), n)) => Ok((TypeJson::Number(num), n)),
            Err(e) => Err(e),
        }
    }
}

/// The object automaton: `{`, then keys, colons and values, separated by
/// commas, up to `}`.
pub(crate) fn object_start(input: &[char], pos: usize) -> (r: Result<
    (ObjectJson, usize),
    (ParserError, usize),
>)
    requires
        pos <= input@.len(),
    ensures
        match r {
            Ok((o, n)) => sp_object_at(input@, pos as int) == Ok::<
                (Seq<(Seq<char>, Json)>, int),
                PFail,
            >((o@, n as int)) && pos < n <= input@.len(),
            Err((e, at)) => (sp_object_at(input@, pos as int) matches Err(pe) && pe.at == at as int
                && pe.msg == e@) && at <= input@.len(),
        },
    decreases input@.len() - pos, 0int,
{
    let ghost s = input@;
    if pos >= input.len() {
        return Err((perr("invalid json automa"), input.len()));
    }
    if input[pos] != '{' {
        return Err((perr("invalid from node: N1"), pos + 1));
    }
    let mut obj = object();
    let mut p = pos + 1;
    proof {
        lemma_fuel_obj_pairs(
            s,
            p as int,
            Seq::empty(),
            (fuel_for(s, pos as int) - 1) as nat,
            fuel_for(s, p as int),
        );
    }
    loop
        invariant
            pos < p <= s.len(),
            s == input@,
            sp_object_at(s, pos as int) == sp_obj_pairs_at(s, p as int, obj@),
        decreases s.len() - p,
    {
        let ghost acc = obj@;
        let q = skip_ws(input, p);
        proof {
            lemma_ws_bounds(s, p as int);
        }
        if q >= input.len() {
            return Err((perr("invalid json automa"), input.len()));
        }
        let c = input[q];
        if c == '}' {
            return Ok((obj, q + 1));
        }
        if c != '"' {
            return Err((perr("invalid from node: N2"), q + 1));
        }
        match str_start(input, q) {
            Err(e) => {
                return Err(e);
            },
            Ok((key, r)) => {
                let t = skip_ws(input, r);
                proof {
                    lemma_ws_bounds(s, r as int);
                }
                if t >= input.len() {
                    return Err((perr("invalid json automa"), input.len()));
                }
                if input[t] != ':' {
                    let mut m = String::from_str("invalid from node: N3. Value: ");
                    string_push_char(&mut m, input[t]);
                    return Err((ParserError::new(m), t + 1));
                }
                let u = skip_ws(input, t + 1);
                proof {
                    lemma_ws_bounds(s, t as int + 1);
                }
                if u >= input.len() {
                    return Err((perr("invalid json automa"), input.len()));
                }
                if !can_start_value(input[u]) {
                    return Err((perr("invalid from node: N4"), u + 1));
                }
                proof {
                    lemma_fuel_value(
                        s,
                        u as int,
                        fuel_for(s, u as int),
                        fuel_for(s, p as int),
                    );
                }
                match value_start(input, u) {
                    Err(e) => {
                        return Err(e);
                    },
                    Ok((v, w)) => {
                        obj.set(key.as_str(), v);
                        let x = skip_ws(input, w);
                        proof {
                            lemma_ws_bounds(s, w as int);
                        }
                        if x >= input.len() {
                            return Err((perr("invalid json automa"), input.len()));
                        }
                        if input[x] == '}' {
                            return Ok((obj, x + 1));
                        }
                        if input[x] == ',' {
                            proof {
                                lemma_fuel_obj_pairs(
                                    s,
                                    x as int + 1,
                                    obj@,
                                    (fuel_for(s, p as int) - 1) as nat,
                                    fuel_for(s, x as int + 1),
                                );
                            }
                            p = x + 1;
                        } else {
                            return Err((perr("invalid from node: N5"), x + 1));
                        }
                    },
                }
            },
        }
    }
}

/// The array automaton: `[`, then values separated by commas, up to `]`.
pub(crate) fn array_start(input: &[char], pos: usize) -> (r: Result<
    (ListJson, usize),
    (ParserError, usize),
>)
    requires
        pos <= input@.len(),
    ensures
        match r {
            Ok((l, n)) => sp_array_at(input@, pos as int) == Ok::<(Seq<Json>, int), PFail>(
                (l@, n as int),
            ) && pos < n <= input@.len(),
            Err((e, at)) => (sp_array_at(input@, pos as int) matches Err(pe) && pe.at == at as int
                && pe.msg == e@) && at <= input@.len(),
        },
    decreases input@.len() - pos, 0int,
{
    let ghost s = input@;
    if pos >= input.len() {
        return Err((perr("unable to retrieve array"), input.len()));
    }
    if input[pos] != '[' {
        return Err((perr("Invalid ArrayAtm::N1"), pos + 1));
    }
    let mut arr = crate::objects::array();
    let mut p = pos + 1;
    proof {
        lemma_fuel_arr_items(
            s,
            p as int,
            Seq::empty(),
            (fuel_for(s, pos as int) - 1) as nat,
            fuel_for(s, p as int),
        );
    }
    loop
        invariant
            pos < p <= s.len(),
            s == input@,
            sp_array_at(s, pos as int) == sp_arr_items_at(s, p as int, arr@),
        decreases s.len() - p,
    {
        let q = skip_ws(input, p);
        proof {
            lemma_ws_bounds(s, p as int);
        }
        if q >= input.len() {
            return Err((perr("unable to retrieve array"), input.len()));
        }
        if input[q] == ']' {
            return Ok((arr, q + 1));
        }
        if !can_start_value(input[q]) {
            return Err((perr("Invalid ArrayAtm::N2"), q + 1));
        }
        proof {
            lemma_fuel_value(s, q as int, fuel_for(s, q as int), fuel_for(s, p as int));
        }
        match value_start(input, q) {
            Err(e) => {
                return Err(e);
            },
            Ok((v, w)) => {
                arr.add(v);
                let x = skip_ws(input, w);
                proof {
                    lemma_ws_bounds(s, w as int);
                }
                if x >= input.len() {
                    return Err((perr("unable to retrieve array"), input.len()));
                }
                if input[x] == ']' {
                    return Ok((arr, x + 1));
                }
                if input[x] == ',' {
                    proof {
                        lemma_fuel_arr_items(
                            s,
                            x as int + 1,
                            arr@,
                            (fuel_for(s, p as int) - 1) as nat,
                            fuel_for(s, x as int + 1),
                        );
                    }
                    p = x + 1;
                } else {
                    return Err((perr("Invalid ArrayAtm::N3"), x + 1));
                }
            },
        }
    }
}

/// One grammar production: a single-character dispatch test and a parse of
/// the production from a position in the input.  Each implementor states in
/// `start_ok` and `start_err` which spec parse it implements.
pub trait Automa {
    type Output;

    spec fn can_start_spec(&self, c: char) -> bool;

    spec fn start_ok(&self, s: Seq<char>, pos: int, out: Self::Output, next: int) -> bool;

    spec fn start_err(&self, s: Seq<char>, pos: int, msg: Seq<char>) -> bool;

    fn can_start(&self, input: char) -> (r: bool)
        ensures
            r == self.can_start_spec(input),
    ;

    fn start(&self, input: &[char], pos: usize) -> (r: Result<(Self::Output, usize), AutomaError>)
        requires
            pos <= input@.len(),
        ensures
            match r {
                Ok((out, next)) => self.start_ok(input@, pos as int, out, next as int) && next
                    <= input@.len(),
                Err(e) => self.start_err(input@, pos as int, e@.1) && e@.0 == "Automa error"@,
            },
    ;
}

/// The string-literal automaton.
pub struct StrAutoma {}

impl StrAutoma {
    pub fn new() -> StrAutoma {
        StrAutoma {  }
    }
}

impl Automa for StrAutoma {
    type Output = String;

    open spec fn can_start_spec(&self, c: char) -> bool {
        c == '"'
    }

    open spec fn start_ok(&self, s: Seq<char>, pos: int, out: String, next: int) -> bool {
        sp_string(s, pos) == Ok::<(Seq<char>, int), PFail>((out@, next))
    }

    open spec fn start_err(&self, s: Seq<char>, pos: int, msg: Seq<char>) -> bool {
        sp_string(s, pos) matches Err(pe) && pe.msg == msg
    }

    fn can_start(&self, input: char) -> bool {
        input == '"'
    }

    fn start(&self, input: &[char], pos: usize) -> (r: Result<(String, usize), AutomaError>) {
        match str_start(input, pos) {
            Ok((t, n)) => Ok((t, n)),
            Err((e, _at)) => Err(automa_error_of(e)),
        }
    }
}

/// The keyword automaton: matches one fixed word.
pub struct StringAutoma {
    value: Vec<char>,
}

impl View for StringAutoma {
    type V = Seq<char>;

    closed spec fn view(&self) -> Seq<char> {
        self.value@
    }
}

impl StringAutoma {
    /// The automaton that matches exactly this word.
    pub fn from(value: &str) -> (r: StringAutoma)
        ensures
            r@ == value@,
    {
        StringAutoma { value: str_to_chars(value) }
    }
}

impl Automa for StringAutoma {
    type Output = ();

    open spec fn can_start_spec(&self, c: char) -> bool {
        self@.len() > 0 && c == self@[0]
    }

    open spec fn start_ok(&self, s: Seq<char>, pos: int, out: (), next: int) -> bool {
        sp_keyword(s, pos, self@) == Ok::<int, PFail>(next)
    }

    open spec fn start_err(&self, s: Seq<char>, pos: int, msg: Seq<char>) -> bool {
        sp_keyword(s, pos, self@) matches Err(pe) && pe.msg == msg
    }

    fn can_start(&self, input: char) -> bool {
        if self.value.len() > 0 {
            self.value[0] == input
        } else {
            false
        }
    }

    fn start(&self, input: &[char], pos: usize) -> (r: Result<((), usize), AutomaError>) {
        match kw_start(input, pos, &self.value) {
            Ok(n) => Ok(((), n)),
            Err((e, _at)) => Err(automa_error_of(e)),
        }
    }
}

/// The numeric-literal automaton.
pub struct NumberAutoma {}

impl NumberAutoma {
    pub fn new() -> NumberAutoma {
        NumberAutoma {  }
    }
}

impl Automa for NumberAutoma {
    type Output = (Number, Option<char>);

    open spec fn can_start_spec(&self, c: char) -> bool {
        is_digit_s(c) || c == '-'
    }

    open spec fn start_ok(
        &self,
        s: Seq<char>,
        pos: int,
        out: (Number, Option<char>),
        next: int,
    ) -> bool {
        sp_number(s, pos) == Ok::<(Num, int), PFail>((out.0@, next)) && num_wf(out.0@) && out.1
            == (if next < s.len() {
            Some(s[next])
        } else {
            None
        })
    }

    open spec fn start_err(&self, s: Seq<char>, pos: int, msg: Seq<char>) -> bool {
        sp_number(s, pos) matches Err(pe) && pe.msg == msg
    }

    fn can_start(&self, input: char) -> bool {
        is_number(input) || input == '-'
    }

    fn start(&self, input: &[char], pos: usize) -> (r: Result<
        ((Number, Option<char>), usize),
        AutomaError,
    >) {
        match num_start(input, pos) {
            Ok((out, n)) => Ok((out, n)),
            Err((e, _at)) => Err(automa_error_of(e)),
        }
    }
}

/// The object automaton.
pub struct ObjectAutoma {}

impl ObjectAutoma {
    pub fn new() -> ObjectAutoma {
        ObjectAutoma {  }
    }
}

impl Automa for ObjectAutoma {
    type Output = ObjectJson;

    open spec fn can_start_spec(&self, c: char) -> bool {
        c == '{'
    }

    open spec fn start_ok(&self, s: Seq<char>, pos: int, out: ObjectJson, next: int) -> bool {
        sp_object_at(s, pos) == Ok::<(Seq<(Seq<char>, Json)>, int), PFail>((out@, next))
    }

    open spec fn start_err(&self, s: Seq<char>, pos: int, msg: Seq<char>) -> bool {
        sp_object_at(s, pos) matches Err(pe) && pe.msg == msg
    }

    fn can_start(&self, input: char) -> bool {
        input == '{'
    }

    fn start(&self, input: &[char], pos: usize) -> (r: Result<(ObjectJson, usize), AutomaError>) {
        match object_start(input, pos) {
            Ok((o, n)) => Ok((o, n)),
            Err((e, _at)) => Err(automa_error_of(e)),
        }
    }
}

/// The array automaton.
pub struct ArrayAutoma {}

impl ArrayAutoma {
    pub fn new() -> ArrayAutoma {
        ArrayAutoma {  }
    }
}

impl Automa for ArrayAutoma {
    type Output = ListJson;

    open spec fn can_start_spec(&self, c: char) -> bool {
        c == '['
    }

    open spec fn start_ok(&self, s: Seq<char>, pos: int, out: ListJson, next: int) -> bool {
        sp_array_at(s, pos) == Ok::<(Seq<Json>, int), PFail>((out@, next))
    }

    open spec fn start_err(&self, s: Seq<char>, pos: int, msg: Seq<char>) -> bool {
        sp_array_at(s, pos) matches Err(pe) && pe.msg == msg
    }

    fn can_start(&self, input: char) -> bool {
        input == '['
    }

    fn start(&self, input: &[char], pos: usize) -> (r: Result<(ListJson, usize), AutomaError>) {
        match array_start(input, pos) {
            Ok((l, n)) => Ok((l, n)),
            Err((e, _at)) => Err(automa_error_of(e)),
        }
    }
}

/// One token of a path expression.
#[derive(Debug)]
pub enum KeyParseQueryToken {
    Key(String),
    Index(usize),
    Error(String),
}

impl View for KeyParseQueryToken {
    type V = PathTok;

    open spec fn view(&self) -> PathTok {
        match self {
            KeyParseQueryToken::Key(k) => PathTok::Key(k@),
            KeyParseQueryToken::Index(i) => PathTok::Index(*i as nat),
            KeyParseQueryToken::Error(m) => PathTok::ErrorTok(m@),
        }
    }
}

/// Executable states of the path tokenizer.
enum QState {
    N1,
    N2,
    N3,
    N4,
    N5,
    N6,
}

spec fn q_st_view(st: QState) -> QSt {
    match st {
        QState::N1 => QSt::N1,
        QState::N2 => QSt::N2,
        QState::N3 => QSt::N3,
        QState::N4 => QSt::N4,
        QState::N5 => QSt::N5,
        QState::N6 => QSt::N6,
    }
}

/// The value of a digit string as an index, unless it does not fit.
fn digits_to_index(ds: &Vec<char>) -> (r: Option<usize>)
    requires
        forall|i: int| 0 <= i < ds@.len() ==> is_digit_s(#[trigger] ds@[i]),
    ensures
        match r {
            Some(v) => digits_val(ds@) == v as nat,
            None => digits_val(ds@) > usize::MAX as nat,
        },
{
    let n = ds.len();
    let mut val: usize = 0;
    let mut i: usize = 0;
    proof {
        assert(ds@.take(0) =~= Seq::<char>::empty());
    }
    while i < n
        invariant
            n == ds@.len(),
            0 <= i <= n,
            forall|j: int| 0 <= j < n ==> is_digit_s(#[trigger] ds@[j]),
            val as nat == digits_val(ds@.take(i as int)),
        decreases n - i,
    {
        let c = ds[i];
        let d: usize = if c == '1' {
            1
        } else if c == '2' {
            2
        } else if c == '3' {
            3
        } else if c == '4' {
            4
        } else if c == '5' {
            5
        } else if c == '6' {
            6
        } else if c == '7' {
            7
        } else if c == '8' {
            8
        } else if c == '9' {
            9
        } else {
            0
        };
        proof {
            lemma_digits_take(ds@, i as int);
        }
        if val > (usize::MAX - d) / 10 {
            proof {
                lemma_digits_prefix(ds@, i as int + 1);
            }
            return None;
        }
        val = val * 10 + d;
        i = i + 1;
    }
    proof {
        assert(ds@.take(n as int) =~= ds@);
    }
    Some(val)
}

/// The path tokenizer: lexes a path expression into key and index tokens,
/// one per call, stopping at the first malformed segment.
pub struct KeyParseQueryAutoma<'a> {
    status: QState,
    chars: Vec<char>,
    input: &'a [char],
    pos: usize,
}

impl<'a> KeyParseQueryAutoma<'a> {
    pub closed spec fn src(&self) -> Seq<char> {
        self.input@
    }

    pub closed spec fn at(&self) -> int {
        self.pos as int
    }

    pub closed spec fn st(&self) -> QSt {
        q_st_view(self.status)
    }

    pub closed spec fn buf(&self) -> Seq<char> {
        self.chars@
    }

    /// The position stays inside the input and the collected characters fit
    /// the state: empty between segments, digits inside an index.
    pub closed spec fn wf(&self) -> bool {
        &&& self.pos <= self.input@.len()
        &&& (self.st() is N1 || self.st() is N2 ==> self.chars@.len() == 0)
        &&& (self.st() is N4 || self.st() is N5 ==> forall|i: int|
            0 <= i < self.chars@.len() ==> is_digit_s(#[trigger] self.chars@[i]))
    }

    pub fn new(input: &'a [char]) -> (r: KeyParseQueryAutoma<'a>)
        ensures
            r.wf(),
            r.src() == input@,
            r.at() == 0,
            r.st() == QSt::N1,
            r.buf() == Seq::<char>::empty(),
    {
        KeyParseQueryAutoma { status: QState::N1, chars: Vec::new(), input, pos: 0 }
    }

    /// Collect one character of the segment in progress.
    fn collect_c(&mut self, c: char)
        ensures
            final(self).chars@ == old(self).chars@.push(c),
            final(self).status == old(self).status,
            final(self).input == old(self).input,
            final(self).pos == old(self).pos,
    {
        self.chars.push(c);
    }

    /// Hand out the collected characters as a key token.
    fn retrieve_field(&mut self) -> (r: KeyParseQueryToken)
        ensures
            r@ == PathTok::Key(old(self).chars@),
            final(self).chars@ == Seq::<char>::empty(),
            final(self).status == old(self).status,
            final(self).input == old(self).input,
            final(self).pos == old(self).pos,
    {
        let k = chars_to_string(&self.chars);
        self.chars = Vec::new();
        KeyParseQueryToken::Key(k)
    }

    /// Hand out the collected digits as an index token, or the diagnostic
    /// when they do not fit an index.
    fn retrieve_number(&mut self) -> (r: KeyParseQueryToken)
        requires
            forall|i: int| 0 <= i < old(self).chars@.len() ==> is_digit_s(
                #[trigger] old(self).chars@[i],
            ),
        ensures
            r@ == (if digits_val(old(self).chars@) <= usize::MAX as nat {
                PathTok::Index(digits_val(old(self).chars@))
            } else {
                PathTok::ErrorTok("number too large to fit in target type"@)
            }),
            final(self).chars@ == Seq::<char>::empty(),
            final(self).status == old(self).status,
            final(self).input == old(self).input,
            final(self).pos == old(self).pos,
    {
        let r = digits_to_index(&self.chars);
        self.chars = Vec::new();
        match r {
            Some(v) => KeyParseQueryToken::Index(v),
            None => KeyParseQueryToken::Error(
                String::from_str("number too large to fit in target type"),
            ),
        }
    }

    /// The next token of the path, or nothing at a clean end.
    pub fn next(&mut self) -> (r: Option<KeyParseQueryToken>)
        requires
            old(self).wf(),
        ensures
            final(self).wf(),
            final(self).src() == old(self).src(),
            ({
                let step = sp_q_next(old(self).src(), old(self).at(), old(self).st(), old(self).buf());
                &&& (match r {
                    None => step.0 is None,
                    Some(t) => step.0 == Some(t@),
                })
                &&& final(self).at() == step.1
                &&& final(self).st() == step.2
                &&& final(self).buf() == step.3
            }),
    {
        let ghost s = self.input@;
        let ghost p0 = self.pos as int;
        let ghost st0 = q_st_view(self.status);
        let ghost buf0 = self.chars@;
        loop
            invariant
                self.wf(),
                self.input@ == s,
                s == old(self).src(),
                p0 == old(self).at(),
                st0 == old(self).st(),
                buf0 == old(self).buf(),
                sp_q_next(s, p0, st0, buf0) == sp_q_next(
                    s,
                    self.pos as int,
                    q_st_view(self.status),
                    self.chars@,
                ),
            decreases s.len() - self.pos, q_aux(q_st_view(self.status)),
        {
            if self.pos >= self.input.len() {
                match self.status {
                    QState::N1 => {
                        return None;
                    },
                    QState::N6 => {
                        return None;
                    },
                    QState::N3 => {
                        self.status = QState::N6;
                        let k = self.retrieve_field();
                        return Some(k);
                    },
                    _ => {
                        return Some(
                            KeyParseQueryToken::Error(String::from_str("Invalid EOF status")),
                        );
                    },
                }
            }
            let c = self.input[self.pos];
            match self.status {
                QState::N1 => {
                    if c == '.' {
                        self.status = QState::N2;
                        self.pos = self.pos + 1;
                    } else if c == '[' {
                        self.status = QState::N4;
                        self.pos = self.pos + 1;
                    } else {
                        self.pos = self.pos + 1;
                        return Some(
                            KeyParseQueryToken::Error(
                                String::from_str("Invalid starter character. Valid: /"),
                            ),
                        );
                    }
                },
                QState::N2 => {
                    if is_char(c) || is_number(c) {
                        self.collect_c(c);
                        self.status = QState::N3;
                        self.pos = self.pos + 1;
                    } else if c == '"' {
                        match str_start(self.input, self.pos) {
                            Ok((key, r2)) => {
                                self.pos = r2;
                                self.status = QState::N1;
                                return Some(KeyParseQueryToken::Key(key));
                            },
                            Err((e, at)) => {
                                self.pos = at;
                                let mut m = String::from_str("Error reading ");
                                m.append(e.message());
                                return Some(KeyParseQueryToken::Error(m));
                            },
                        }
                    } else {
                        self.pos = self.pos + 1;
                        return Some(
                            KeyParseQueryToken::Error(
                                String::from_str("Invalid key string reference. Valid: char"),
                            ),
                        );
                    }
                },
                QState::N3 => {
                    if is_char(c) || is_number(c) {
                        self.collect_c(c);
                        self.pos = self.pos + 1;
                    } else if c == '.' {
                        self.status = QState::N2;
                        self.pos = self.pos + 1;
                        let k = self.retrieve_field();
                        return Some(k);
                    } else if c == '[' {
                        self.status = QState::N4;
                        self.pos = self.pos + 1;
                        let k = self.retrieve_field();
                        return Some(k);
                    } else {
                        self.pos = self.pos + 1;
                        return Some(
                            KeyParseQueryToken::Error(
                                String::from_str("Invalid key string reference."),
                            ),
                        );
                    }
                },
                QState::N4 => {
                    if is_number(c) {
                        self.collect_c(c);
                        self.status = QState::N5;
                        self.pos = self.pos + 1;
                    } else {
                        self.pos = self.pos + 1;
                        return Some(
                            KeyParseQueryToken::Error(
                                String::from_str("Invalid key index reference."),
                            ),
                        );
                    }
                },
                QState::N5 => {
                    if is_number(c) {
                        self.collect_c(c);
                        self.pos = self.pos + 1;
                    } else if c == ']' {
                        self.status = QState::N1;
                        self.pos = self.pos + 1;
                        let k = self.retrieve_number();
                        return Some(k);
                    } else {
                        self.pos = self.pos + 1;
                        return Some(
                            KeyParseQueryToken::Error(
                                String::from_str("Invalid key index reference."),
                            ),
                        );
                    }
                },
                QState::N6 => {
                    self.pos = self.pos + 1;
                    return None;
                },
            }
        }
    }
}

/// Parse a whole document.  The input must begin directly with the top-level
/// object; characters after its closing brace are not read.  On failure the
/// error message carries the tail of what was consumed, as
/// `Stream read: <context>`.
pub fn parser(input: &[char]) -> (r: Result<ObjectJson, AutomaError>)
    ensures
        match r {
            Ok(o) => sp_doc(input@) matches Ok((ps, n)) && o@ == ps && crate::model::json_wf(
                Json::Object(o@),
            ) && crate::model::exp_free(Json::Object(o@)),
            Err(e) => sp_doc(input@) matches Err(pe) && e@.1 == pe.msg && e@.0 == "Stream read: "@
                + read_context(input@, pe.at),
        },
{
    proof {
        crate::laws::lemma_parse_wf(input@);
    }
    match object_start(input, 0) {
        Ok((o, _n)) => Ok(o),
        Err((pe, at)) => {
            let ghost s = input@;
            let start: usize = if at > 9 {
                at - 9
            } else {
                0
            };
            let mut m = String::from_str("Stream read: ");
            let mut i = start;
            while i < at
                invariant
                    start <= i <= at,
                    at <= s.len(),
                    s == input@,
                    m@ == "Stream read: "@ + s.subrange(start as int, i as int),
                decreases at - i,
            {
                string_push_char(&mut m, input[i]);
                proof {
                    assert(s.subrange(start as int, i as int).push(s[i as int]) =~= s.subrange(
                        start as int,
                        i as int + 1,
                    ));
                }
                i = i + 1;
            }
            proof {
                assert(m@ == "Stream read: "@ + read_context(s, at as int));
            }
            Err(AutomaError::new(m, DetailError::Parser(pe)))
        },
    }
}

} // verus!

//! The document model: the tagged-union value tree, its two containers, and
//! their accessors, builders and removal.  Each type's view lives in
//! `crate::model`; every mutation states how it changes the view.

use vstd::prelude::*;

use crate::grammar::lemma_q_next_bounds;
use crate::grammar::q_aux;
use crate::grammar::sp_path_toks;
use crate::grammar::sp_q_next;
use crate::grammar::sp_q_toks;
use crate::grammar::sp_step_index;
use crate::grammar::sp_step_key;
use crate::grammar::sp_walk;
use crate::grammar::sp_walk_read;
use crate::grammar::PathTok;
use crate::model::num_wf;
use crate::model::pairs_get;
use crate::model::pairs_has;
use crate::model::pairs_idx;
use crate::model::pairs_remove;
use crate::model::pairs_set;
use crate::model::Json;
use crate::model::Num;
use crate::strutil::chars_to_string;
use crate::strutil::str_to_chars;

verus! {

/// A document value: exactly one case is active at a time.
#[derive(Debug)]
pub enum TypeJson {
    Object(ObjectJson),
    List(ListJson),
    Text(String),
    Number(Number),
    Boolean(bool),
    Null,
}

/// An optional decimal exponent of a number, rendered as `e<value>`.
#[derive(Debug)]
pub struct NumberExponent {
    number: i32,
}

/// A numeric scalar, kept as the decimal text the grammar admits: a sign,
/// integer digits, optional fraction digits, and an optional exponent.
#[derive(Debug)]
pub struct Number {
    negative: bool,
    int_part: String,
    frac_part: Option<String>,
    exponent: Option<NumberExponent>,
}

/// A keyed mapping from string keys to values.  Entries are kept in
/// insertion order and keys stay pairwise distinct.
#[derive(Debug)]
pub struct ObjectJson {
    parameters: Vec<(String, TypeJson)>,
}

/// An ordered, index-addressable sequence of values.
#[derive(Debug)]
pub struct ListJson {
    list: Vec<TypeJson>,
}

/// The unit value.
#[derive(Debug)]
pub struct NullJson;

pub closed spec fn view_json(t: TypeJson) -> Json
    decreases t,
{
    match t {
        TypeJson::Object(o) => Json::Object(view_pairs(o.parameters@)),
        TypeJson::List(l) => Json::List(view_items(l.list@)),
        TypeJson::Text(s) => Json::Text(s@),
        TypeJson::Number(n) => Json::Number(view_num(n)),
        TypeJson::Boolean(b) => Json::Boolean(b),
        TypeJson::Null => Json::Null,
    }
}

pub closed spec fn view_pairs(ps: Seq<(String, TypeJson)>) -> Seq<(Seq<char>, Json)>
    decreases ps,
{
    if ps.len() == 0 {
        Seq::empty()
    } else {
        view_pairs(ps.drop_last()).push((ps.last().0@, view_json(ps.last().1)))
    }
}

pub closed spec fn view_items(es: Seq<TypeJson>) -> Seq<Json>
    decreases es,
{
    if es.len() == 0 {
        Seq::empty()
    } else {
        view_items(es.drop_last()).push(view_json(es.last()))
    }
}

pub closed spec fn view_num(n: Number) -> Num {
    Num {
        negative: n.negative,
        int_part: n.int_part@,
        frac_part: match n.frac_part {
            Some(f) => Some(f@),
            None => None,
        },
        exponent: match n.exponent {
            Some(e) => Some(e.number as int),
            None => None,
        },
    }
}

impl View for TypeJson {
    type V = Json;

    closed spec fn view(&self) -> Json {
        view_json(*self)
    }
}

impl View for ObjectJson {
    type V = Seq<(Seq<char>, Json)>;

    closed spec fn view(&self) -> Seq<(Seq<char>, Json)> {
        view_pairs(self.parameters@)
    }
}

impl View for ListJson {
    type V = Seq<Json>;

    closed spec fn view(&self) -> Seq<Json> {
        view_items(self.list@)
    }
}

impl View for Number {
    type V = Num;

    closed spec fn view(&self) -> Num {
        view_num(*self)
    }
}

impl View for NumberExponent {
    type V = int;

    closed spec fn view(&self) -> int {
        self.number as int
    }
}

pub broadcast proof fn lemma_view_object(o: ObjectJson)
    ensures
        (#[trigger] (TypeJson::Object(o))@) == Json::Object(o@),
{
}

pub broadcast proof fn lemma_view_list(l: ListJson)
    ensures
        (#[trigger] (TypeJson::List(l))@) == Json::List(l@),
{
}

pub broadcast proof fn lemma_view_text(s: String)
    ensures
        (#[trigger] (TypeJson::Text(s))@) == Json::Text(s@),
{
}

pub broadcast proof fn lemma_view_number(n: Number)
    ensures
        (#[trigger] (TypeJson::Number(n))@) == Json::Number(n@),
{
}

pub broadcast proof fn lemma_view_boolean(b: bool)
    ensures
        (#[trigger] (TypeJson::Boolean(b))@) == Json::Boolean(b),
{
}

pub proof fn lemma_view_null()
    ensures
        view_json(TypeJson::Null) == Json::Null,
        (TypeJson::Null)@ == Json::Null,
{
}

/// The view of a value determines, and is determined by, its case.
pub broadcast proof fn lemma_view_variant(t: TypeJson)
    ensures
        (#[trigger] t@) is Object <==> t matches TypeJson::Object(_),
        t@ is List <==> t matches TypeJson::List(_),
        t@ is Text <==> t matches TypeJson::Text(_),
        t@ is Number <==> t matches TypeJson::Number(_),
        t@ is Boolean <==> t matches TypeJson::Boolean(_),
        t@ is Null <==> t matches TypeJson::Null,
{
}

pub broadcast group group_view_lemmas {
    lemma_view_object,
    lemma_view_list,
    lemma_view_text,
    lemma_view_number,
    lemma_view_boolean,
    lemma_view_variant,
}

/// The view of an entry vector is the entry-wise view.
pub proof fn lemma_view_pairs_index(ps: Seq<(String, TypeJson)>)
    ensures
        view_pairs(ps).len() == ps.len(),
        forall|i: int|
            0 <= i < ps.len() ==> (#[trigger] view_pairs(ps)[i]) == (
            ps[i].0@,
            view_json(ps[i].1),
            ),
    decreases ps,
{
    if ps.len() > 0 {
        lemma_view_pairs_index(ps.drop_last());
    }
}

/// The view of an item vector is the item-wise view.
pub proof fn lemma_view_items_index(es: Seq<TypeJson>)
    ensures
        view_items(es).len() == es.len(),
        forall|i: int| 0 <= i < es.len() ==> (#[trigger] view_items(es)[i]) == view_json(es[i]),
    decreases es,
{
    if es.len() > 0 {
        lemma_view_items_index(es.drop_last());
    }
}

impl NumberExponent {
    pub fn new(value: i32) -> (r: NumberExponent)
        ensures
            r@ == value as int,
    {
        NumberExponent { number: value }
    }
}

impl Number {
    /// Build a number from its decimal parts; the parts must satisfy the
    /// grammar of a numeric literal.
    pub fn new(
        negative: bool,
        int_part: String,
        frac_part: Option<String>,
        exponent: Option<NumberExponent>,
    ) -> (r: Number)
        requires
            num_wf(
                Num {
                    negative: negative,
                    int_part: int_part@,
                    frac_part: match frac_part {
                        Some(f) => Some(f@),
                        None => None,
                    },
                    exponent: match exponent {
                        Some(e) => Some(e@),
                        None => None,
                    },
                },
            ),
        ensures
            r@.negative == negative,
            r@.int_part == int_part@,
            r@.frac_part == (match frac_part {
                Some(f) => Some(f@),
                None => None::<Seq<char>>,
            }),
            r@.exponent == (match exponent {
                Some(e) => Some(e@),
                None => None::<int>,
            }),
            num_wf(r@),
    {
        Number { negative, int_part, frac_part, exponent }
    }
}

impl TypeJson {
    pub fn as_object(&self) -> (r: Option<&ObjectJson>)
        ensures
            match r {
                Some(o) => self@ == Json::Object(o@),
                None => !(self@ is Object),
            },
    {
        match self {
            TypeJson::Object(obj) => Some(obj),
            _ => None,
        }
    }

    pub fn as_object_mut(&mut self) -> (r: Option<&mut ObjectJson>)
        ensures
            match r {
                Some(m) => old(self)@ == Json::Object((*m)@) && final(self)@ == Json::Object(
                    final(m)@,
                ),
                None => !(old(self)@ is Object) && *final(self) == *old(self),
            },
    {
        match self {
            TypeJson::Object(obj) => Some(obj),
            _ => None,
        }
    }

    pub fn as_list(&self) -> (r: Option<&ListJson>)
        ensures
            match r {
                Some(l) => self@ == Json::List(l@),
                None => !(self@ is List),
            },
    {
        match self {
            TypeJson::List(list) => Some(list),
            _ => None,
        }
    }

    pub fn as_list_mut(&mut self) -> (r: Option<&mut ListJson>)
        ensures
            match r {
                Some(m) => old(self)@ == Json::List((*m)@) && final(self)@ == Json::List(
                    final(m)@,
                ),
                None => !(old(self)@ is List) && *final(self) == *old(self),
            },
    {
        match self {
            TypeJson::List(list) => Some(list),
            _ => None,
        }
    }

    pub fn as_text(&self) -> (r: Option<&str>)
        ensures
            match r {
                Some(t) => self@ == Json::Text(t@),
                None => !(self@ is Text),
            },
    {
        match self {
            TypeJson::Text(txt) => Some(txt.as_str()),
            _ => None,
        }
    }

    pub fn as_text_mut(&mut self) -> (r: Option<&mut String>)
        ensures
            match r {
                Some(m) => old(self)@ == Json::Text((*m)@) && final(self)@ == Json::Text(
                    final(m)@,
                ),
                None => !(old(self)@ is Text) && *final(self) == *old(self),
            },
    {
        match self {
            TypeJson::Text(txt) => Some(txt),
            _ => None,
        }
    }

    pub fn as_number(&self) -> (r: Option<&Number>)
        ensures
            match r {
                Some(n) => self@ == Json::Number(n@),
                None => !(self@ is Number),
            },
    {
        match self {
            TypeJson::Number(num) => Some(num),
            _ => None,
        }
    }

    pub fn as_number_mut(&mut self) -> (r: Option<&mut Number>)
        ensures
            match r {
                Some(m) => old(self)@ == Json::Number((*m)@) && final(self)@ == Json::Number(
                    final(m)@,
                ),
                None => !(old(self)@ is Number) && *final(self) == *old(self),
            },
    {
        match self {
            TypeJson::Number(num) => Some(num),
            _ => None,
        }
    }

    pub fn as_bool(&self) -> (r: Option<&bool>)
        ensures
            match r {
                Some(b) => self@ == Json::Boolean(*b),
                None => !(self@ is Boolean),
            },
    {
        match self {
            TypeJson::Boolean(boolean) => Some(boolean),
            _ => None,
        }
    }

    pub fn as_bool_mut(&mut self) -> (r: Option<&mut bool>)
        ensures
            match r {
                Some(m) => old(self)@ == Json::Boolean(*m) && final(self)@ == Json::Boolean(
                    *final(m),
                ),
                None => !(old(self)@ is Boolean) && *final(self) == *old(self),
            },
    {
        match self {
            TypeJson::Boolean(boolean) => Some(boolean),
            _ => None,
        }
    }

    pub fn is_null(&self) -> (r: bool)
        ensures
            r == (self@ is Null),
    {
        match self {
            TypeJson::Null => true,
            _ => false,
        }
    }
}

impl ObjectJson {
    fn new() -> (r: ObjectJson)
        ensures
            r@ == Seq::<(Seq<char>, Json)>::empty(),
    {
        ObjectJson { parameters: Vec::new() }
    }

    /// Index of the first entry carrying the key, if any.
    fn find_idx(&self, key: &str) -> (r: Option<usize>)
        ensures
            match r {
                Some(i) => i < self@.len() && self@[i as int].0 == key@ && pairs_has(self@, key@)
                    && pairs_idx(self@, key@) == i as int,
                None => !pairs_has(self@, key@),
            },
    {
        proof {
            lemma_view_pairs_index(self.parameters@);
        }
        let k = String::from_str(key);
        let n = self.parameters.len();
        let mut i: usize = 0;
        while i < n
            invariant
                n == self.parameters@.len(),
                k@ == key@,
                0 <= i <= n,
                forall|j: int| 0 <= j < i ==> (#[trigger] self@[j].0) != key@,
                self@.len() == n,
                forall|j: int|
                    0 <= j < n ==> (#[trigger] self@[j]) == (
                    self.parameters@[j].0@,
                    view_json(self.parameters@[j].1),
                    ),
            decreases n - i,
        {
            if self.parameters[i].0 == k {
                proof {
                    assert(self@[i as int].0 == key@);
                    assert(pairs_has(self@, key@));
                    crate::model::lemma_pairs_idx(self@, key@);
                }
                return Some(i);
            }
            i = i + 1;
        }
        proof {
            if pairs_has(self@, key@) {
                let w = choose|w: int| 0 <= w < self@.len() && (#[trigger] self@[w].0) == key@;
                assert(self@[w].0 != key@);
            }
        }
        None
    }

    /// Overwrite-or-insert.
    pub fn set(&mut self, key: &str, value: TypeJson)
        ensures
            final(self)@ == pairs_set(old(self)@, key@, value@),
    {
        proof {
            lemma_view_pairs_index(self.parameters@);
        }
        match self.find_idx(key) {
            Some(i) => {
                let k = String::from_str(key);
                self.parameters[i] = (k, value);
                proof {
                    lemma_view_pairs_index(self.parameters@);
                    assert(self.parameters@ =~= old(self).parameters@.update(
                        i as int,
                        self.parameters@[i as int],
                    ));
                    assert(self@ =~= pairs_set(old(self)@, key@, value@));
                }
            },
            None => {
                let k = String::from_str(key);
                self.parameters.push((k, value));
                proof {
                    lemma_view_pairs_index(self.parameters@);
                    lemma_view_pairs_index(old(self).parameters@);
                    assert(self@ =~= pairs_set(old(self)@, key@, value@));
                }
            },
        }
    }

    pub fn get(&self, key: &str) -> (r: Option<&TypeJson>)
        ensures
            match r {
                Some(t) => pairs_get(self@, key@) == Some(t@),
                None => pairs_get(self@, key@) is None,
            },
    {
        proof {
            crate::model::lemma_pairs_get(self@, key@);
        }
        match self.find_idx(key) {
            Some(i) => {
                proof {
                    lemma_view_pairs_index(self.parameters@);
                }
                Some(&self.parameters[i].1)
            },
            None => None,
        }
    }

    pub fn get_mut(&mut self, key: &str) -> (r: Option<&mut TypeJson>)
        ensures
            match r {
                Some(m) => pairs_get(old(self)@, key@) == Some((*m)@) && final(self)@ == pairs_set(
                    old(self)@,
                    key@,
                    final(m)@,
                ),
                None => pairs_get(old(self)@, key@) is None && *final(self) == *old(self),
            },
    {
        proof {
            crate::model::lemma_pairs_get(self@, key@);
        }
        match self.find_idx(key) {
            Some(i) => {
                proof {
                    lemma_view_pairs_index(self.parameters@);
                }
                let pair = &mut self.parameters[i];
                let m = &mut pair.1;
                proof {
                    lemma_view_pairs_index(old(self).parameters@);
                    lemma_view_pairs_index(
                        old(self).parameters@.update(
                            i as int,
                            (old(self).parameters@[i as int].0, *final(m)),
                        ),
                    );
                    assert(view_pairs(
                        old(self).parameters@.update(
                            i as int,
                            (old(self).parameters@[i as int].0, *final(m)),
                        ),
                    ) =~= pairs_set(old(self)@, key@, view_json(*final(m))));
                }
                Some(m)
            },
            None => None,
        }
    }

    /// Insert an empty object under the key and hand back its handle.
    pub fn object(&mut self, key: &str) -> (r: &mut ObjectJson)
        ensures
            (*r)@ == Seq::<(Seq<char>, Json)>::empty(),
            final(self)@ == pairs_set(old(self)@, key@, Json::Object(final(r)@)),
    {
        self.set(key, TypeJson::Object(ObjectJson::new()));
        proof {
            crate::model::lemma_pairs_get_set(old(self)@, key@, Json::Object(Seq::empty()));
        }
        match self.get_mut(key) {
            Some(m) => {
                match m {
                    TypeJson::Object(o) => {
                        proof {
                            crate::model::lemma_pairs_set_set(
                                old(self)@,
                                key@,
                                Json::Object(Seq::empty()),
                                Json::Object(final(o)@),
                            );
                        }
                        o
                    },
                    _ => vstd::pervasive::unreached(),
                }
            },
            None => vstd::pervasive::unreached(),
        }
    }

    /// Insert an empty list under the key and hand back its handle.
    pub fn list(&mut self, key: &str) -> (r: &mut ListJson)
        ensures
            (*r)@ == Seq::<Json>::empty(),
            final(self)@ == pairs_set(old(self)@, key@, Json::List(final(r)@)),
    {
        self.set(key, TypeJson::List(ListJson::new()));
        proof {
            crate::model::lemma_pairs_get_set(old(self)@, key@, Json::List(Seq::empty()));
        }
        match self.get_mut(key) {
            Some(m) => {
                match m {
                    TypeJson::List(l) => {
                        proof {
                            crate::model::lemma_pairs_set_set(
                                old(self)@,
                                key@,
                                Json::List(Seq::empty()),
                                Json::List(final(l)@),
                            );
                        }
                        l
                    },
                    _ => vstd::pervasive::unreached(),
                }
            },
            None => vstd::pervasive::unreached(),
        }
    }

    /// Remove the entry carrying the key; its value passes to the caller.
    pub fn remove(&mut self, key: &str) -> (r: Option<TypeJson>)
        ensures
            final(self)@ == pairs_remove(old(self)@, key@),
            match r {
                Some(t) => pairs_get(old(self)@, key@) == Some(t@),
                None => pairs_get(old(self)@, key@) is None,
            },
    {
        proof {
            crate::model::lemma_pairs_get(self@, key@);
        }
        match self.find_idx(key) {
            Some(i) => {
                proof {
                    lemma_view_pairs_index(self.parameters@);
                }
                let pair = self.parameters.remove(i);
                proof {
                    lemma_view_pairs_index(self.parameters@);
                    lemma_view_pairs_index(old(self).parameters@);
                    assert(self@ =~= old(self)@.remove(i as int));
                }
                Some(pair.1)
            },
            None => None,
        }
    }

    /// The entries, in insertion order.
    pub fn iter(&self) -> (r: &Vec<(String, TypeJson)>)
        ensures
            view_pairs((*r)@) == self@,
    {
        &self.parameters
    }

    /// The keys, in insertion order.
    pub fn keys(&self) -> (r: Vec<String>)
        ensures
            r@.len() == self@.len(),
            forall|i: int| 0 <= i < r@.len() ==> (#[trigger] r@[i]@) == self@[i].0,
    {
        proof {
            lemma_view_pairs_index(self.parameters@);
        }
        let n = self.parameters.len();
        let mut out: Vec<String> = Vec::new();
        let mut i: usize = 0;
        while i < n
            invariant
                n == self.parameters@.len(),
                self@.len() == n,
                0 <= i <= n,
                out@.len() == i,
                forall|j: int| 0 <= j < i ==> (#[trigger] out@[j]@) == self@[j].0,
                forall|j: int|
                    0 <= j < n ==> (#[trigger] self@[j]) == (
                    self.parameters@[j].0@,
                    view_json(self.parameters@[j].1),
                    ),
            decreases n - i,
        {
            out.push(self.parameters[i].0.clone());
            i = i + 1;
        }
        out
    }
}

impl ListJson {
    pub fn new() -> (r: ListJson)
        ensures
            r@ == Seq::<Json>::empty(),
    {
        ListJson { list: Vec::new() }
    }

    pub fn len(&self) -> (r: usize)
        ensures
            r == self@.len(),
    {
        proof {
            lemma_view_items_index(self.list@);
        }
        self.list.len()
    }

    /// Append a value at the end.
    pub fn add(&mut self, value: TypeJson)
        ensures
            final(self)@ == old(self)@.push(value@),
    {
        self.list.push(value);
        proof {
            assert(self.list@.drop_last() =~= old(self).list@);
        }
    }

    /// Remove and return the last value, if any.
    pub fn pop(&mut self) -> (r: Option<TypeJson>)
        ensures
            match r {
                Some(t) => old(self)@.len() > 0 && t@ == old(self)@.last()
                    && final(self)@ == old(self)@.drop_last(),
                None => old(self)@.len() == 0 && final(self)@ == old(self)@,
            },
    {
        proof {
            lemma_view_items_index(self.list@);
        }
        let r = self.list.pop();
        proof {
            lemma_view_items_index(self.list@);
            lemma_view_items_index(old(self).list@);
            if old(self).list@.len() > 0 {
                assert(self.list@ =~= old(self).list@.drop_last());
                assert(self@ =~= old(self)@.drop_last());
                assert(old(self)@.last() == view_json(
                    old(self).list@[old(self).list@.len() - 1],
                ));
            }
        }
        match r {
            Some(t) => Some(t),
            None => None,
        }
    }

    /// Remove the value at the index; later values shift down by one.
    pub fn remove(&mut self, index: usize) -> (r: TypeJson)
        requires
            index < old(self)@.len(),
        ensures
            r@ == old(self)@[index as int],
            final(self)@ == old(self)@.remove(index as int),
    {
        proof {
            lemma_view_items_index(self.list@);
        }
        let t = self.list.remove(index);
        proof {
            lemma_view_items_index(self.list@);
            lemma_view_items_index(old(self).list@);
            assert(self@ =~= old(self)@.remove(index as int));
        }
        t
    }

    /// Append an empty object and hand back its handle.
    pub fn object(&mut self) -> (r: &mut ObjectJson)
        ensures
            (*r)@ == Seq::<(Seq<char>, Json)>::empty(),
            final(self)@ == old(self)@.push(Json::Object(final(r)@)),
    {
        self.list.push(TypeJson::Object(ObjectJson::new()));
        let n = self.list.len();
        let ghost mid: Seq<TypeJson> = self.list@;
        proof {
            lemma_view_items_index(mid);
        }
        let pair = &mut self.list[n - 1];
        match pair {
            TypeJson::Object(o) => {
                proof {
                    lemma_view_items_index(old(self).list@);
                    lemma_view_items_index(mid.update(n - 1, TypeJson::Object(*final(o))));
                    assert(mid.update(n - 1, TypeJson::Object(*final(o)))
                        =~= old(self).list@.push(TypeJson::Object(*final(o))));
                    assert(view_items(mid.update(n - 1, TypeJson::Object(*final(o)))) =~= old(
                        self,
                    )@.push(Json::Object(view_pairs(final(o).parameters@))));
                }
                o
            },
            _ => vstd::pervasive::unreached(),
        }
    }

    /// Append an empty list and hand back its handle.
    pub fn list(&mut self) -> (r: &mut ListJson)
        ensures
            (*r)@ == Seq::<Json>::empty(),
            final(self)@ == old(self)@.push(Json::List(final(r)@)),
    {
        self.list.push(TypeJson::List(ListJson::new()));
        let n = self.list.len();
        let ghost mid: Seq<TypeJson> = self.list@;
        proof {
            lemma_view_items_index(mid);
        }
        let pair = &mut self.list[n - 1];
        match pair {
            TypeJson::List(l) => {
                proof {
                    lemma_view_items_index(old(self).list@);
                    lemma_view_items_index(mid.update(n - 1, TypeJson::List(*final(l))));
                    assert(mid.update(n - 1, TypeJson::List(*final(l)))
                        =~= old(self).list@.push(TypeJson::List(*final(l))));
                    assert(view_items(mid.update(n - 1, TypeJson::List(*final(l)))) =~= old(
                        self,
                    )@.push(Json::List(view_items(final(l).list@))));
                }
                l
            },
            _ => vstd::pervasive::unreached(),
        }
    }

    pub fn get(&self, index: usize) -> (r: Option<&TypeJson>)
        ensures
            match r {
                Some(t) => index < self@.len() && t@ == self@[index as int],
                None => index >= self@.len(),
            },
    {
        proof {
            lemma_view_items_index(self.list@);
        }
        if index < self.list.len() {
            Some(&self.list[index])
        } else {
            None
        }
    }

    pub fn get_mut(&mut self, index: usize) -> (r: Option<&mut TypeJson>)
        ensures
            match r {
                Some(m) => index < old(self)@.len() && (*m)@ == old(self)@[index as int]
                    && final(self)@ == old(self)@.update(index as int, final(m)@),
                None => index >= old(self)@.len() && *final(self) == *old(self),
            },
    {
        proof {
            lemma_view_items_index(self.list@);
        }
        if index < self.list.len() {
            let m = &mut self.list[index];
            proof {
                lemma_view_items_index(old(self).list@);
                lemma_view_items_index(old(self).list@.update(index as int, *final(m)));
                assert(view_items(old(self).list@.update(index as int, *final(m))) =~= old(
                    self,
                )@.update(index as int, view_json(*final(m))));
            }
            Some(m)
        } else {
            None
        }
    }

    /// The items, in order.
    pub fn iter(&self) -> (r: &Vec<TypeJson>)
        ensures
            view_items((*r)@) == self@,
    {
        &self.list
    }
}

impl NullJson {
    pub fn new() -> (r: NullJson) {
        NullJson {  }
    }
}

/// A fresh, empty object.
pub fn object() -> (r: ObjectJson)
    ensures
        r@ == Seq::<(Seq<char>, Json)>::empty(),
{
    ObjectJson::new()
}

/// A fresh, empty list.
pub fn array() -> (r: ListJson)
    ensures
        r@ == Seq::<Json>::empty(),
{
    ListJson::new()
}

/// The unit value, for inserting nulls.
pub fn null() -> (r: NullJson) {
    NullJson::new()
}

/// Append the escaped rendering of one character.
fn escape_push(out: &mut Vec<char>, c: char)
    ensures
        final(out)@ == old(out)@ + crate::model::escape_char(c),
{
    if c == '"' {
        out.push('\\');
        out.push('"');
    } else if c == '\\' {
        out.push('\\');
        out.push('\\');
    } else if c == '\n' {
        out.push('\\');
        out.push('n');
    } else if c == '\r' {
        out.push('\\');
        out.push('r');
    } else if c == '\t' {
        out.push('\\');
        out.push('t');
    } else {
        out.push(c);
    }
    proof {
        assert(out@ =~= old(out)@ + crate::model::escape_char(c));
    }
}

/// Append a whole string literal: quote, escaped text, quote.
fn write_str_lit(out: &mut Vec<char>, chars: &Vec<char>)
    ensures
        final(out)@ == old(out)@ + crate::model::ser_text(chars@),
{
    out.push('"');
    proof {
        assert(out@ =~= old(out)@ + seq!['"'] + crate::model::escape_seq(chars@.take(0)));
    }
    let n = chars.len();
    let mut i: usize = 0;
    while i < n
        invariant
            n == chars@.len(),
            0 <= i <= n,
            out@ == old(out)@ + seq!['"'] + crate::model::escape_seq(chars@.take(i as int)),
        decreases n - i,
    {
        escape_push(out, chars[i]);
        proof {
            crate::model::lemma_escape_take(chars@, i as int);
        }
        i = i + 1;
    }
    out.push('"');
    proof {
        assert(chars@.take(chars@.len() as int) =~= chars@);
        assert(out@ =~= old(out)@ + crate::model::ser_text(chars@));
    }
}

/// Render a string as a JSON string literal, with `"`, `\`, and the newline,
/// carriage-return and tab characters escaped.
pub fn string_to_json_escape(txt: &str) -> (r: String)
    ensures
        r@ == crate::model::ser_text(txt@),
{
    let chars = str_to_chars(txt);
    let mut out: Vec<char> = Vec::new();
    write_str_lit(&mut out, &chars);
    proof {
        assert(out@ =~= crate::model::ser_text(txt@));
    }
    chars_to_string(&out)
}

/// The character of one decimal digit.
fn digit10(n: u64) -> (c: char)
    requires
        n < 10,
    ensures
        c == crate::model::digit_char(n as nat),
{
    if n == 0 {
        '0'
    } else if n == 1 {
        '1'
    } else if n == 2 {
        '2'
    } else if n == 3 {
        '3'
    } else if n == 4 {
        '4'
    } else if n == 5 {
        '5'
    } else if n == 6 {
        '6'
    } else if n == 7 {
        '7'
    } else if n == 8 {
        '8'
    } else {
        '9'
    }
}

/// Append the decimal digits of a natural number.
fn write_dec(out: &mut Vec<char>, n: u64)
    ensures
        final(out)@ == old(out)@ + crate::model::dec_digits(n as nat),
    decreases n,
{
    if n < 10 {
        out.push(digit10(n));
        proof {
            assert(out@ =~= old(out)@ + crate::model::dec_digits(n as nat));
        }
    } else {
        write_dec(out, n / 10);
        out.push(digit10(n % 10));
        proof {
            assert(out@ =~= old(out)@ + crate::model::dec_digits(n as nat));
        }
    }
}

/// Append the decimal rendering of a signed integer.
fn write_int(out: &mut Vec<char>, v: i32)
    ensures
        final(out)@ == old(out)@ + crate::model::ser_int(v as int),
{
    if v < 0 {
        out.push('-');
        let m: u64 = (-(v as i64)) as u64;
        write_dec(out, m);
        proof {
            assert(out@ =~= old(out)@ + crate::model::ser_int(v as int));
        }
    } else {
        write_dec(out, v as u64);
    }
}

/// Append the rendering of a number: sign, integer digits, optional
/// fraction, optional exponent.
fn write_num(n: &Number, out: &mut Vec<char>)
    ensures
        final(out)@ == old(out)@ + crate::model::ser_num(n@),
{
    if n.negative {
        out.push('-');
    }
    let mut ip = str_to_chars(n.int_part.as_str());
    out.append(&mut ip);
    match &n.frac_part {
        Some(f) => {
            out.push('.');
            let mut fp = str_to_chars(f.as_str());
            out.append(&mut fp);
        },
        None => {},
    }
    match &n.exponent {
        Some(e) => {
            out.push('e');
            write_int(out, e.number);
        },
        None => {},
    }
    proof {
        assert(out@ =~= old(out)@ + crate::model::ser_num(n@));
    }
}

/// Append the compact rendering of a value.
fn write_json(t: &TypeJson, out: &mut Vec<char>)
    ensures
        final(out)@ == old(out)@ + crate::model::ser_json(t@),
    decreases t,
{
    match t {
        TypeJson::Object(o) => {
            write_obj(o, out);
        },
        TypeJson::List(l) => {
            write_list(l, out);
        },
        TypeJson::Text(s) => {
            let cs = str_to_chars(s.as_str());
            write_str_lit(out, &cs);
        },
        TypeJson::Number(n) => {
            write_num(n, out);
        },
        TypeJson::Boolean(b) => {
            if *b {
                out.push('t');
                out.push('r');
                out.push('u');
                out.push('e');
            } else {
                out.push('f');
                out.push('a');
                out.push('l');
                out.push('s');
                out.push('e');
            }
            proof {
                assert(out@ =~= old(out)@ + crate::model::ser_json(t@));
            }
        },
        TypeJson::Null => {
            out.push('n');
            out.push('u');
            out.push('l');
            out.push('l');
            proof {
                assert(out@ =~= old(out)@ + crate::model::ser_json(t@));
            }
        },
    }
}

/// Append the compact rendering of an object: `{`, its entries joined by
/// commas, `}`.
fn write_obj(o: &ObjectJson, out: &mut Vec<char>)
    ensures
        final(out)@ == old(out)@ + seq!['{'] + crate::model::ser_pairs(o@) + seq!['}'],
    decreases o,
{
    proof {
        lemma_view_pairs_index(o.parameters@);
    }
    out.push('{');
    proof {
        assert(out@ =~= old(out)@ + seq!['{'] + crate::model::ser_pairs(o@.take(0)));
    }
    let n = o.parameters.len();
    let mut i: usize = 0;
    while i < n
        invariant
            n == o.parameters@.len(),
            o@.len() == n,
            0 <= i <= n,
            out@ == old(out)@ + seq!['{'] + crate::model::ser_pairs(o@.take(i as int)),
            forall|j: int|
                0 <= j < n ==> (#[trigger] o@[j]) == (
                o.parameters@[j].0@,
                view_json(o.parameters@[j].1),
                ),
        decreases n - i,
    {
        if i > 0 {
            out.push(',');
        }
        let key_chars = str_to_chars(o.parameters[i].0.as_str());
        write_str_lit(out, &key_chars);
        out.push(':');
        write_json(&o.parameters[i].1, out);
        proof {
            crate::model::lemma_ser_pairs_take(o@, i as int);
            assert(out@ =~= old(out)@ + seq!['{'] + crate::model::ser_pairs(
                o@.take(i + 1),
            ));
        }
        i = i + 1;
    }
    out.push('}');
    proof {
        assert(o@.take(o@.len() as int) =~= o@);
        assert(out@ =~= old(out)@ + seq!['{'] + crate::model::ser_pairs(o@) + seq!['}']);
    }
}

/// Append the compact rendering of a list: `[`, its items joined by commas,
/// `]`.
fn write_list(l: &ListJson, out: &mut Vec<char>)
    ensures
        final(out)@ == old(out)@ + seq!['['] + crate::model::ser_items(l@) + seq![']'],
    decreases l,
{
    proof {
        lemma_view_items_index(l.list@);
    }
    out.push('[');
    proof {
        assert(out@ =~= old(out)@ + seq!['['] + crate::model::ser_items(l@.take(0)));
    }
    let n = l.list.len();
    let mut i: usize = 0;
    while i < n
        invariant
            n == l.list@.len(),
            l@.len() == n,
            0 <= i <= n,
            out@ == old(out)@ + seq!['['] + crate::model::ser_items(l@.take(i as int)),
            forall|j: int| 0 <= j < n ==> (#[trigger] l@[j]) == view_json(l.list@[j]),
        decreases n - i,
    {
        if i > 0 {
            out.push(',');
        }
        write_json(&l.list[i], out);
        proof {
            crate::model::lemma_ser_items_take(l@, i as int);
            assert(out@ =~= old(out)@ + seq!['['] + crate::model::ser_items(
                l@.take(i + 1),
            ));
        }
        i = i + 1;
    }
    out.push(']');
    proof {
        assert(l@.take(l@.len() as int) =~= l@);
        assert(out@ =~= old(out)@ + seq!['['] + crate::model::ser_items(l@) + seq![']']);
    }
}

impl TypeJson {
    /// The canonical compact rendering of this value.
    pub fn to_string(&self) -> (r: String)
        ensures
            r@ == crate::model::ser_json(self@),
    {
        let mut out: Vec<char> = Vec::new();
        write_json(self, &mut out);
        proof {
            assert(out@ =~= crate::model::ser_json(self@));
        }
        chars_to_string(&out)
    }
}

impl ObjectJson {
    /// The canonical compact rendering of this object.
    pub fn to_string(&self) -> (r: String)
        ensures
            r@ == seq!['{'] + crate::model::ser_pairs(self@) + seq!['}'],
    {
        let mut out: Vec<char> = Vec::new();
        write_obj(self, &mut out);
        proof {
            assert(out@ =~= seq!['{'] + crate::model::ser_pairs(self@) + seq!['}']);
        }
        chars_to_string(&out)
    }
}

impl ListJson {
    /// The canonical compact rendering of this list.
    pub fn to_string(&self) -> (r: String)
        ensures
            r@ == seq!['['] + crate::model::ser_items(self@) + seq![']'],
    {
        let mut out: Vec<char> = Vec::new();
        write_list(self, &mut out);
        proof {
            assert(out@ =~= seq!['['] + crate::model::ser_items(self@) + seq![']']);
        }
        chars_to_string(&out)
    }
}

impl Number {
    /// The decimal rendering of this number.
    pub fn to_string(&self) -> (r: String)
        ensures
            r@ == crate::model::ser_num(self@),
    {
        let mut out: Vec<char> = Vec::new();
        write_num(self, &mut out);
        proof {
            assert(out@ =~= crate::model::ser_num(self@));
        }
        chars_to_string(&out)
    }
}

impl NumberExponent {
    /// The rendering of this exponent: `e` and the decimal value.
    pub fn to_string(&self) -> (r: String)
        ensures
            r@ == seq!['e'] + crate::model::ser_int(self@),
    {
        let mut out: Vec<char> = Vec::new();
        out.push('e');
        write_int(&mut out, self.number);
        proof {
            assert(out@ =~= seq!['e'] + crate::model::ser_int(self@));
        }
        chars_to_string(&out)
    }
}

const NULL_JSON: TypeJson = TypeJson::Null;

impl TypeJson {
    /// Walk into this value along the path, removing each step from its
    /// container; the value at the end of the path passes to the caller.
    /// Any missing key, out-of-range index or mismatched case is an error,
    /// as is a malformed path.
    pub fn traverse(self, path: &str) -> (r: Result<TypeJson, String>)
        ensures
            match r {
                Ok(t) => sp_walk(self@, sp_path_toks(path@)) == Ok::<Json, Seq<char>>(t@),
                Err(m) => sp_walk(self@, sp_path_toks(path@)) == Err::<Json, Seq<char>>(m@),
            },
    {
        let chars = str_to_chars(path);
        let ghost s = chars@;
        let mut automa = crate::automa::KeyParseQueryAutoma::new(chars.as_slice());
        let mut ret = self;
        let ghost j0 = self@;
        loop
            invariant
                automa.wf(),
                0 <= automa.at() <= s.len(),
                automa.src() == s,
                s == path@,
                sp_walk(j0, sp_path_toks(path@)) == sp_walk(
                    ret@,
                    sp_q_toks(s, automa.at(), automa.st(), automa.buf()),
                ),
                j0 == self@,
            decreases s.len() - automa.at(), q_aux(automa.st()),
        {
            let ghost at0 = automa.at();
            let ghost st0 = automa.st();
            let ghost buf0 = automa.buf();
            let ghost jcur = ret@;
            let ghost toks = sp_q_toks(s, at0, st0, buf0);
            proof {
                lemma_q_next_bounds(s, at0, st0, buf0);
            }
            let tok = automa.next();
            proof {
                let step = sp_q_next(s, at0, st0, buf0);
                match step.0 {
                    None => {
                        assert(toks =~= Seq::<PathTok>::empty());
                    },
                    Some(t) => {
                        if t is ErrorTok {
                            assert(toks =~= seq![t]);
                            assert(toks[0] == t);
                            assert(toks.len() == 1);
                        } else {
                            let rest = sp_q_toks(s, step.1, step.2, step.3);
                            assert(toks =~= seq![t] + rest);
                            assert(toks[0] == t);
                            assert(toks.len() >= 1);
                            assert(toks.drop_first() =~= rest);
                        }
                    },
                }
            }
            match tok {
                None => {
                    proof {
                        assert(sp_walk(jcur, toks) == Ok::<Json, Seq<char>>(jcur));
                    }
                    return Ok(ret);
                },
                Some(t) => match t {
                    crate::automa::KeyParseQueryToken::Key(key) => {
                        match ret {
                            TypeJson::Object(mut obj) => {
                                proof {
                                    assert(jcur == Json::Object(obj@));
                                }
                                match obj.remove(key.as_str()) {
                                    Some(v) => {
                                        ret = v;
                                    },
                                    None => {
                                        proof {
                                            assert(sp_walk(jcur, toks) == Err::<Json, Seq<char>>(
                                                "Unable to traverse"@,
                                            ));
                                        }
                                        return Err(String::from_str("Unable to traverse"));
                                    },
                                }
                            },
                            _ => {
                                proof {
                                    lemma_view_variant(ret);
                                    assert(!(jcur is Object));
                                    assert(sp_walk(jcur, toks) == Err::<Json, Seq<char>>(
                                        "Unable to traverse"@,
                                    ));
                                }
                                return Err(String::from_str("Unable to traverse"));
                            },
                        }
                    },
                    crate::automa::KeyParseQueryToken::Index(i) => {
                        match ret {
                            TypeJson::List(mut list) => {
                                proof {
                                    assert(jcur == Json::List(list@));
                                }
                                if i < list.len() {
                                    ret = list.remove(i);
                                } else {
                                    proof {
                                        assert(sp_walk(jcur, toks) == Err::<Json, Seq<char>>(
                                            "Unable to traverse"@,
                                        ));
                                    }
                                    return Err(String::from_str("Unable to traverse"));
                                }
                            },
                            _ => {
                                proof {
                                    lemma_view_variant(ret);
                                    assert(!(jcur is List));
                                    assert(sp_walk(jcur, toks) == Err::<Json, Seq<char>>(
                                        "Unable to traverse"@,
                                    ));
                                }
                                return Err(String::from_str("Unable to traverse"));
                            },
                        }
                    },
                    crate::automa::KeyParseQueryToken::Error(msg) => {
                        proof {
                            assert(sp_walk(jcur, toks) == Err::<Json, Seq<char>>(msg@));
                        }
                        return Err(msg);
                    },
                },
            }
        }
    }
}

/// A non-owning, error-swallowing navigator over a value tree: a missing
/// key, a wrong case or an out-of-range index yields the empty reader, so
/// chains of lookups are always safe to evaluate.
pub struct ReaderJson<'a> {
    root: Option<&'a TypeJson>,
}

impl<'a> View for ReaderJson<'a> {
    type V = Option<Json>;

    closed spec fn view(&self) -> Option<Json> {
        match self.root {
            Some(t) => Some(view_json(*t)),
            None => None,
        }
    }
}

impl<'a> ReaderJson<'a> {
    pub fn new(root: &'a TypeJson) -> (r: ReaderJson<'a>)
        ensures
            r@ == Some((*root)@),
    {
        ReaderJson { root: Some(root) }
    }

    fn empty() -> (r: ReaderJson<'a>)
        ensures
            r@ is None,
    {
        ReaderJson { root: None }
    }

    /// Step into the named field of an object.
    pub fn field(&self, key: &str) -> (r: ReaderJson<'a>)
        ensures
            r@ == sp_step_key(self@, key@),
    {
        match self.root {
            Some(t) => match t {
                TypeJson::Object(obj) => match obj.get(key) {
                    Some(node) => ReaderJson { root: Some(node) },
                    None => ReaderJson::empty(),
                },
                _ => ReaderJson::empty(),
            },
            None => ReaderJson::empty(),
        }
    }

    /// Step into the indexed item of a list.
    pub fn index(&self, i: usize) -> (r: ReaderJson<'a>)
        ensures
            r@ == sp_step_index(self@, i as nat),
    {
        match self.root {
            Some(t) => match t {
                TypeJson::List(list) => match list.get(i) {
                    Some(node) => ReaderJson { root: Some(node) },
                    None => ReaderJson::empty(),
                },
                _ => ReaderJson::empty(),
            },
            None => ReaderJson::empty(),
        }
    }

    /// Follow a whole path; any failure, including a malformed path, yields
    /// the empty reader.
    pub fn path(&self, path: &str) -> (r: ReaderJson<'a>)
        ensures
            r@ == (match sp_walk_read(self@, sp_path_toks(path@)) {
                Ok(o) => o,
                Err(_) => None,
            }),
    {
        proof {
            crate::grammar::lemma_walk_read_empty(sp_path_toks(path@));
        }
        match self.path_check(path) {
            Ok(reader) => reader,
            Err(_) => ReaderJson::empty(),
        }
    }

    /// Follow a whole path, reporting a malformed path to the caller; a
    /// missing or mismatched step still yields the empty reader.
    pub fn path_check(&self, path: &str) -> (r: Result<ReaderJson<'a>, String>)
        ensures
            match r {
                Ok(rr) => (match self@ {
                    None => rr@ is None,
                    Some(_) => sp_walk_read(self@, sp_path_toks(path@)) == Ok::<
                        Option<Json>,
                        Seq<char>,
                    >(rr@),
                }),
                Err(m) => self@ is Some && sp_walk_read(self@, sp_path_toks(path@)) == Err::<
                    Option<Json>,
                    Seq<char>,
                >(m@),
            },
    {
        if self.root.is_none() {
            return Ok(ReaderJson::empty());
        }
        let chars = str_to_chars(path);
        let ghost s = chars@;
        let mut automa = crate::automa::KeyParseQueryAutoma::new(chars.as_slice());
        let mut ret = ReaderJson { root: self.root };
        let ghost j0 = self@;
        loop
            invariant
                automa.wf(),
                0 <= automa.at() <= s.len(),
                automa.src() == s,
                s == path@,
                j0 == self@,
                j0 is Some,
                sp_walk_read(j0, sp_path_toks(path@)) == sp_walk_read(
                    ret@,
                    sp_q_toks(s, automa.at(), automa.st(), automa.buf()),
                ),
            decreases s.len() - automa.at(), q_aux(automa.st()),
        {
            let ghost at0 = automa.at();
            let ghost st0 = automa.st();
            let ghost buf0 = automa.buf();
            proof {
                lemma_q_next_bounds(s, at0, st0, buf0);
            }
            let tok = automa.next();
            proof {
                let step = sp_q_next(s, at0, st0, buf0);
                let toks = sp_q_toks(s, at0, st0, buf0);
                match step.0 {
                    None => {
                        assert(toks =~= Seq::<PathTok>::empty());
                    },
                    Some(t) => {
                        if t is ErrorTok {
                            assert(toks =~= seq![t]);
                            assert(toks[0] == t);
                            assert(toks.len() == 1);
                        } else {
                            let rest = sp_q_toks(s, step.1, step.2, step.3);
                            assert(toks =~= seq![t] + rest);
                            assert(toks[0] == t);
                            assert(toks.len() >= 1);
                            assert(toks.drop_first() =~= rest);
                        }
                    },
                }
            }
            match tok {
                None => {
                    return Ok(ret);
                },
                Some(t) => match t {
                    crate::automa::KeyParseQueryToken::Key(key) => {
                        ret = ret.field(key.as_str());
                    },
                    crate::automa::KeyParseQueryToken::Index(i) => {
                        ret = ret.index(i);
                    },
                    crate::automa::KeyParseQueryToken::Error(msg) => {
                        return Err(msg);
                    },
                },
            }
        }
    }

    /// The value this reader points at; the null value when it points at
    /// nothing.
    pub fn json(&self) -> (r: &'a TypeJson)
        ensures
            (*r)@ == (match self@ {
                Some(j) => j,
                None => Json::Null,
            }),
    {
        match self.root {
            Some(node) => node,
            None => &NULL_JSON,
        }
    }
}

impl vstd::std_specs::convert::FromSpecImpl<ObjectJson> for TypeJson {
    open spec fn obeys_from_spec() -> bool {
        true
    }

    open spec fn from_spec(v: ObjectJson) -> TypeJson {
        TypeJson::Object(v)
    }
}

impl From<ObjectJson> for TypeJson {
    fn from(v: ObjectJson) -> (r: TypeJson) {
        TypeJson::Object(v)
    }
}

impl vstd::std_specs::convert::FromSpecImpl<ListJson> for TypeJson {
    open spec fn obeys_from_spec() -> bool {
        true
    }

    open spec fn from_spec(v: ListJson) -> TypeJson {
        TypeJson::List(v)
    }
}

impl From<ListJson> for TypeJson {
    fn from(v: ListJson) -> (r: TypeJson) {
        TypeJson::List(v)
    }
}

impl vstd::std_specs::convert::FromSpecImpl<String> for TypeJson {
    open spec fn obeys_from_spec() -> bool {
        true
    }

    open spec fn from_spec(v: String) -> TypeJson {
        TypeJson::Text(v)
    }
}

impl From<String> for TypeJson {
    fn from(v: String) -> (r: TypeJson) {
        TypeJson::Text(v)
    }
}

impl vstd::std_specs::convert::FromSpecImpl<Number> for TypeJson {
    open spec fn obeys_from_spec() -> bool {
        true
    }

    open spec fn from_spec(v: Number) -> TypeJson {
        TypeJson::Number(v)
    }
}

impl From<Number> for TypeJson {
    fn from(v: Number) -> (r: TypeJson) {
        TypeJson::Number(v)
    }
}

impl vstd::std_specs::convert::FromSpecImpl<bool> for TypeJson {
    open spec fn obeys_from_spec() -> bool {
        true
    }

    open spec fn from_spec(v: bool) -> TypeJson {
        TypeJson::Boolean(v)
    }
}

impl From<bool> for TypeJson {
    fn from(v: bool) -> (r: TypeJson) {
        TypeJson::Boolean(v)
    }
}

impl vstd::std_specs::convert::FromSpecImpl<NullJson> for TypeJson {
    open spec fn obeys_from_spec() -> bool {
        true
    }

    open spec fn from_spec(v: NullJson) -> TypeJson {
        TypeJson::Null
    }
}

impl From<NullJson> for TypeJson {
    fn from(v: NullJson) -> (r: TypeJson) {
        TypeJson::Null
    }
}

} // verus!

//! JSON values as the library holds them, and paths into them.
//!
//! Objects keep their entries ordered by key (the order a JSON map has), so
//! two values are equal exactly when their views are.
use vstd::prelude::*;
use crate::text::{
    chars_of, string_of, chars_eq, split_seq, split_char, trim, trim_seq, int_text, parse_usize,
    dec_digits, fmt_dec, append_chars, replace_all, replace_chars, lead_white, trail_white, is_white,
};
use crate::args::{ProgramError, processing_error};

verus! {

/// A JSON value. Numbers are kept as their canonical text.
#[derive(Debug)]
pub enum Json {
    Null,
    Bool(bool),
    Number(String),
    String(String),
    Array(Vec<Json>),
    Object(Vec<(String, Json)>),
}

/// The mathematical value of a JSON value.
pub enum JsonV {
    Null,
    Bool(bool),
    Number(Seq<char>),
    Str(Seq<char>),
    Array(Seq<JsonV>),
    Object(Seq<(Seq<char>, JsonV)>),
}

pub open spec fn jview(j: Json) -> JsonV
    decreases j, 1nat,
{
    match j {
        Json::Null => JsonV::Null,
        Json::Bool(b) => JsonV::Bool(b),
        Json::Number(n) => JsonV::Number(n@),
        Json::String(s) => JsonV::Str(s@),
        Json::Array(a) => JsonV::Array(jviews(a@)),
        Json::Object(o) => JsonV::Object(jentries(o@)),
    }
}

pub open spec fn jviews(a: Seq<Json>) -> Seq<JsonV>
    decreases a, 0nat,
{
    Seq::new(
        a.len(),
        |i: int|
            if 0 <= i < a.len() {
                jview(a[i])
            } else {
                JsonV::Null
            },
    )
}

pub open spec fn jentries(o: Seq<(String, Json)>) -> Seq<(Seq<char>, JsonV)>
    decreases o, 0nat,
{
    Seq::new(
        o.len(),
        |i: int|
            if 0 <= i < o.len() {
                (o[i].0@, jview(o[i].1))
            } else {
                (Seq::empty(), JsonV::Null)
            },
    )
}

impl Clone for Json {
    fn clone(&self) -> (r: Self)
        ensures
            jview(r) == jview(*self),
        decreases self,
    {
        match self {
            Json::Null => Json::Null,
            Json::Bool(b) => Json::Bool(*b),
            Json::Number(n) => Json::Number(n.clone()),
            Json::String(s) => Json::String(s.clone()),
            Json::Array(a) => {
                let mut v: Vec<Json> = Vec::new();
                for i in 0..a.len()
                    invariant
                        v@.len() == i,
                        forall|k: int| 0 <= k < i ==> jview(#[trigger] v@[k]) == jview(a@[k]),
                        *self == Json::Array(*a),
                {
                    assert(decreases_to!(*self => (*self)->Array_0));
                    assert(decreases_to!(*a => a@));
                    assert(decreases_to!(a@ => a@[i as int]));
                    v.push(a[i].clone());
                }
                assert(jviews(v@) =~= jviews(a@));
                Json::Array(v)
            },
            Json::Object(o) => {
                let mut v: Vec<(String, Json)> = Vec::new();
                for i in 0..o.len()
                    invariant
                        v@.len() == i,
                        forall|k: int|
                            0 <= k < i ==> (#[trigger] v@[k]).0@ == o@[k].0@ && jview(v@[k].1)
                                == jview(o@[k].1),
                        *self == Json::Object(*o),
                {
                    assert(decreases_to!(*self => (*self)->Object_0));
                    assert(decreases_to!(*o => o@));
                    assert(decreases_to!(o@ => o@[i as int]));
                    assert(decreases_to!(o@[i as int] => o@[i as int].1));
                    let k = o[i].0.clone();
                    let x = o[i].1.clone();
                    v.push((k, x));
                }
                assert(jentries(v@) =~= jentries(o@));
                Json::Object(v)
            },
        }
    }
}

/// Two JSON values are equal.
pub fn json_eq(a: &Json, b: &Json) -> (r: bool)
    ensures
        r == (jview(*a) == jview(*b)),
    decreases a,
{
    match (a, b) {
        (Json::Null, Json::Null) => true,
        (Json::Bool(x), Json::Bool(y)) => *x == *y,
        (Json::Number(x), Json::Number(y)) => chars_eq(&chars_of(x.as_str()), &chars_of(y.as_str())),
        (Json::String(x), Json::String(y)) => chars_eq(&chars_of(x.as_str()), &chars_of(y.as_str())),
        (Json::Array(x), Json::Array(y)) => {
            if x.len() != y.len() {
                assert(jviews(x@).len() != jviews(y@).len());
                return false;
            }
            let mut i: usize = 0;
            while i < x.len()
                invariant
                    i <= x.len() == y.len(),
                    *a == Json::Array(*x),
                    *b == Json::Array(*y),
                    forall|k: int| 0 <= k < i ==> jview(#[trigger] x@[k]) == jview(y@[k]),
                decreases x.len() - i,
            {
                assert(decreases_to!(*a => (*a)->Array_0));
                assert(decreases_to!(*x => x@));
                assert(decreases_to!(x@ => x@[i as int]));
                if !json_eq(&x[i], &y[i]) {
                    assert(jviews(x@)[i as int] != jviews(y@)[i as int]);
                    return false;
                }
                i += 1;
            }
            assert(jviews(x@) =~= jviews(y@));
            true
        },
        (Json::Object(x), Json::Object(y)) => {
            if x.len() != y.len() {
                assert(jentries(x@).len() != jentries(y@).len());
                return false;
            }
            let mut i: usize = 0;
            while i < x.len()
                invariant
                    i <= x.len() == y.len(),
                    *a == Json::Object(*x),
                    *b == Json::Object(*y),
                    forall|k: int|
                        0 <= k < i ==> (#[trigger] x@[k]).0@ == y@[k].0@ && jview(x@[k].1) == jview(
                            y@[k].1,
                        ),
                decreases x.len() - i,
            {
                assert(decreases_to!(*a => (*a)->Object_0));
                assert(decreases_to!(*x => x@));
                assert(decreases_to!(x@ => x@[i as int]));
                assert(decreases_to!(x@[i as int] => x@[i as int].1));
                if !chars_eq(&chars_of(x[i].0.as_str()), &chars_of(y[i].0.as_str())) || !json_eq(
                    &x[i].1,
                    &y[i].1,
                ) {
                    assert(jentries(x@)[i as int] != jentries(y@)[i as int]);
                    return false;
                }
                i += 1;
            }
            assert(jentries(x@) =~= jentries(y@));
            true
        },
        _ => false,
    }
}


/// The order of `String` keys: lexicographic on characters.
pub open spec fn key_lt(a: Seq<char>, b: Seq<char>) -> bool
    decreases a.len(),
{
    if a.len() == 0 {
        b.len() > 0
    } else if b.len() == 0 {
        false
    } else if a[0] != b[0] {
        (a[0] as u32) < (b[0] as u32)
    } else {
        key_lt(a.drop_first(), b.drop_first())
    }
}

pub fn key_less(a: &Vec<char>, b: &Vec<char>) -> (r: bool)
    ensures
        r == key_lt(a@, b@),
{
    let mut i: usize = 0;
    assert(a@.skip(0) == a@ && b@.skip(0) == b@);
    while i < a.len() && i < b.len() && a[i] == b[i]
        invariant
            i <= a.len(),
            i <= b.len(),
            key_lt(a@, b@) == key_lt(a@.skip(i as int), b@.skip(i as int)),
        decreases a.len() - i,
    {
        assert(a@.skip(i as int).drop_first() == a@.skip(i + 1));
        assert(b@.skip(i as int).drop_first() == b@.skip(i + 1));
        i += 1;
    }
    if i == a.len() {
        i < b.len()
    } else if i == b.len() {
        false
    } else {
        (a[i] as u32) < (b[i] as u32)
    }
}

/// Position of the first entry with key `k`, or -1.
pub open spec fn key_pos(es: Seq<(Seq<char>, JsonV)>, k: Seq<char>) -> int
    decreases es.len(),
{
    if es.len() == 0 {
        -1
    } else if es[0].0 == k {
        0
    } else {
        let r = key_pos(es.drop_first(), k);
        if r < 0 {
            -1
        } else {
            r + 1
        }
    }
}

/// Where a new key goes: after the leading entries whose keys are smaller.
pub open spec fn ins_pos(es: Seq<(Seq<char>, JsonV)>, k: Seq<char>) -> int
    decreases es.len(),
{
    if es.len() > 0 && key_lt(es[0].0, k) {
        1 + ins_pos(es.drop_first(), k)
    } else {
        0
    }
}

/// The entry for `k`, if any.
pub open spec fn get_key(es: Seq<(Seq<char>, JsonV)>, k: Seq<char>) -> Option<JsonV> {
    let i = key_pos(es, k);
    if i < 0 {
        None
    } else {
        Some(es[i].1)
    }
}

/// Entries with `k` set to `v`: replaced in place, or inserted in key order.
pub open spec fn set_key(es: Seq<(Seq<char>, JsonV)>, k: Seq<char>, v: JsonV) -> Seq<
    (Seq<char>, JsonV),
> {
    let i = key_pos(es, k);
    if i >= 0 {
        es.update(i, (k, v))
    } else {
        es.insert(ins_pos(es, k), (k, v))
    }
}

/// Entries without the one for `k`.
pub open spec fn remove_key(es: Seq<(Seq<char>, JsonV)>, k: Seq<char>) -> Seq<(Seq<char>, JsonV)> {
    let i = key_pos(es, k);
    if i >= 0 {
        es.remove(i)
    } else {
        es
    }
}

pub proof fn lemma_key_pos_bounds(es: Seq<(Seq<char>, JsonV)>, k: Seq<char>)
    ensures
        -1 <= key_pos(es, k) < es.len(),
        key_pos(es, k) >= 0 ==> es[key_pos(es, k)].0 == k,
        key_pos(es, k) < 0 ==> forall|j: int| 0 <= j < es.len() ==> (#[trigger] es[j]).0 != k,
    decreases es.len(),
{
    if es.len() > 0 {
        lemma_key_pos_bounds(es.drop_first(), k);
        if es[0].0 != k && key_pos(es.drop_first(), k) < 0 {
            assert forall|j: int| 0 <= j < es.len() implies (#[trigger] es[j]).0 != k by {
                if j > 0 {
                    assert(es[j] == es.drop_first()[j - 1]);
                }
            }
        }
        if key_pos(es.drop_first(), k) >= 0 {
            assert(es.drop_first()[key_pos(es.drop_first(), k)] == es[key_pos(es.drop_first(), k) + 1]);
        }
    }
}

/// Setting a key of an object and then reading it gives the value set;
/// every other key reads as before.
pub proof fn law_set_then_get(es: Seq<(Seq<char>, JsonV)>, k: Seq<char>, v: JsonV, other: Seq<char>)
    ensures
        get_key(set_key(es, k, v), k) == Some(v),
        other != k ==> get_key(set_key(es, k, v), other) == get_key(es, other),
{
    lemma_key_pos_bounds(es, k);
    lemma_ins_pos_bounds(es, k);
    lemma_key_pos_bounds(es, other);
    let r = set_key(es, k, v);
    lemma_key_pos_bounds(r, k);
    lemma_key_pos_bounds(r, other);
    if key_pos(es, k) >= 0 {
        let i = key_pos(es, k);
        assert forall|j: int| 0 <= j < i implies (#[trigger] r[j]).0 != k by {
            lemma_key_pos_before(es, k, j);
            assert(r[j] == es[j]);
        }
        lemma_key_pos_first(r, k, i);
        if other != k {
            lemma_key_pos_same(es, r, other, i);
        }
    } else {
        let p = ins_pos(es, k);
        assert forall|j: int| 0 <= j < p implies (#[trigger] r[j]).0 != k by {
            assert(r[j] == es[j]);
        }
        lemma_key_pos_first(r, k, p);
        if other != k {
            lemma_key_pos_insert(es, k, v, p, other);
        }
    }
}

/// The first entry with key `k` sits at `i`.
pub proof fn lemma_key_pos_first(es: Seq<(Seq<char>, JsonV)>, k: Seq<char>, i: int)
    requires
        0 <= i < es.len(),
        es[i].0 == k,
        forall|j: int| 0 <= j < i ==> (#[trigger] es[j]).0 != k,
    ensures
        key_pos(es, k) == i,
    decreases es.len(),
{
    if i > 0 {
        assert forall|j: int| 0 <= j < i - 1 implies (#[trigger] es.drop_first()[j]).0 != k by {
            assert(es.drop_first()[j] == es[j + 1]);
        }
        lemma_key_pos_first(es.drop_first(), k, i - 1);
    }
}

/// Changing the entry at `i` (keeping its key) leaves the position of
/// every other key as it was.
proof fn lemma_key_pos_same(es: Seq<(Seq<char>, JsonV)>, r: Seq<(Seq<char>, JsonV)>, other: Seq<char>, i: int)
    requires
        r.len() == es.len(),
        0 <= i < es.len(),
        es[i].0 != other,
        r[i].0 == es[i].0,
        forall|j: int| 0 <= j < es.len() && j != i ==> #[trigger] r[j] == es[j],
    ensures
        key_pos(r, other) == key_pos(es, other),
        key_pos(es, other) >= 0 ==> r[key_pos(es, other)] == es[key_pos(es, other)],
    decreases es.len(),
{
    lemma_key_pos_bounds(es, other);
    if es.len() > 0 {
        let ei = if i == 0 { es.len() as int } else { i - 1 };
        if i == 0 {
            assert forall|j: int| 0 <= j < es.drop_first().len() implies #[trigger] r.drop_first()[j] == es.drop_first()[j] by {
                assert(r[j + 1] == es[j + 1]);
            }
            assert(r.drop_first() =~= es.drop_first());
        } else {
            assert(r[0] == es[0]);
            assert forall|j: int| 0 <= j < es.drop_first().len() && j != i - 1 implies #[trigger] r.drop_first()[j] == es.drop_first()[j] by {
                assert(r[j + 1] == es[j + 1]);
            }
            lemma_key_pos_same(es.drop_first(), r.drop_first(), other, i - 1);
        }
    }
}

/// Inserting a new key leaves every other key's entry as it was.
proof fn lemma_key_pos_insert(es: Seq<(Seq<char>, JsonV)>, k: Seq<char>, v: JsonV, p: int, other: Seq<char>)
    requires
        0 <= p <= es.len(),
        other != k,
    ensures
        get_key(es.insert(p, (k, v)), other) == get_key(es, other),
{
    let r = es.insert(p, (k, v));
    lemma_key_pos_bounds(es, other);
    lemma_key_pos_bounds(r, other);
    if key_pos(es, other) >= 0 {
        let j = key_pos(es, other);
        let jr = if j < p { j } else { j + 1 };
        assert(r[jr] == es[j]);
        assert forall|q: int| 0 <= q < jr implies (#[trigger] r[q]).0 != other by {
            if q < p {
                assert(r[q] == es[q]);
                lemma_key_pos_before(es, other, q);
            } else if q > p {
                assert(r[q] == es[q - 1]);
                lemma_key_pos_before(es, other, q - 1);
            }
        }
        lemma_key_pos_first(r, other, jr);
    } else {
        assert forall|q: int| 0 <= q < r.len() implies (#[trigger] r[q]).0 != other by {
            if q < p {
                assert(r[q] == es[q]);
            } else if q > p {
                assert(r[q] == es[q - 1]);
            }
        }
        if key_pos(r, other) >= 0 {
            assert(r[key_pos(r, other)].0 == other);
        }
    }
}

/// No entry before the first one with key `k` has that key.
proof fn lemma_key_pos_before(es: Seq<(Seq<char>, JsonV)>, k: Seq<char>, q: int)
    requires
        0 <= q < key_pos(es, k),
    ensures
        es[q].0 != k,
    decreases es.len(),
{
    lemma_key_pos_bounds(es, k);
    lemma_key_pos_bounds(es.drop_first(), k);
    if q > 0 {
        lemma_key_pos_before(es.drop_first(), k, q - 1);
        assert(es.drop_first()[q - 1] == es[q]);
    }
}

proof fn lemma_ins_pos_bounds(es: Seq<(Seq<char>, JsonV)>, k: Seq<char>)
    ensures
        0 <= ins_pos(es, k) <= es.len(),
    decreases es.len(),
{
    if es.len() > 0 {
        lemma_ins_pos_bounds(es.drop_first(), k);
    }
}

/// Index of the entry for `k` in an object.
pub fn obj_find(o: &Vec<(String, Json)>, k: &Vec<char>) -> (r: Option<usize>)
    ensures
        match r {
            Some(i) => key_pos(jentries(o@), k@) == i as int,
            None => key_pos(jentries(o@), k@) < 0,
        },
{
    let ghost es = jentries(o@);
    let mut i: usize = 0;
    assert(es.skip(0) == es);
    while i < o.len()
        invariant
            i <= o.len(),
            es == jentries(o@),
            key_pos(es, k@) == (if key_pos(es.skip(i as int), k@) < 0 {
                -1
            } else {
                i + key_pos(es.skip(i as int), k@)
            }),
        decreases o.len() - i,
    {
        assert(es.skip(i as int)[0] == es[i as int]);
        assert(es.skip(i as int).drop_first() == es.skip(i + 1));
        if chars_eq(&chars_of(o[i].0.as_str()), k) {
            return Some(i);
        }
        i += 1;
    }
    None
}

/// Sets the entry for `k` in an object to `v`.
pub fn obj_set(o: &mut Vec<(String, Json)>, k: String, v: Json)
    ensures
        jentries(final(o)@) == set_key(jentries(old(o)@), k@, jview(v)),
{
    let kc = chars_of(k.as_str());
    let ghost es = jentries(o@);
    proof {
        lemma_key_pos_bounds(es, k@);
        lemma_ins_pos_bounds(es, k@);
    }
    match obj_find(o, &kc) {
        Some(i) => {
            o.remove(i);
            o.insert(i, (k, v));
            assert(jentries(o@) =~= es.update(i as int, (kc@, jview(v))));
        },
        None => {
            let mut p: usize = 0;
            assert(es.skip(0) == es);
            while p < o.len() && key_less(&chars_of(o[p].0.as_str()), &kc)
                invariant
                    p <= o.len(),
                    es == jentries(o@),
                    ins_pos(es, kc@) == p + ins_pos(es.skip(p as int), kc@),
                decreases o.len() - p,
            {
                assert(es.skip(p as int)[0] == es[p as int]);
                assert(es.skip(p as int).drop_first() == es.skip(p + 1));
                p += 1;
            }
            proof {
                if p < o.len() {
                    assert(es.skip(p as int)[0] == es[p as int]);
                }
            }
            o.insert(p, (k, v));
            assert(jentries(o@) =~= es.insert(p as int, (kc@, jview(v))));
        },
    }
}

/// Removes the entry for `k` from an object.
pub fn obj_remove(o: &mut Vec<(String, Json)>, k: &Vec<char>)
    ensures
        jentries(final(o)@) == remove_key(jentries(old(o)@), k@),
{
    let ghost es = jentries(o@);
    proof {
        lemma_key_pos_bounds(es, k@);
    }
    match obj_find(o, k) {
        Some(i) => {
            o.remove(i);
            assert(jentries(o@) =~= es.remove(i as int));
        },
        None => {},
    }
}

pub open spec fn same_type_spec(a: JsonV, b: JsonV) -> bool {
    ||| (a is Null && b is Null)
    ||| (a is Bool && b is Bool)
    ||| (a is Number && b is Number)
    ||| (a is Str && b is Str)
    ||| (a is Array && b is Array)
    ||| (a is Object && b is Object)
}

/// Both values are of the same JSON type.
pub fn same_type(a: &Json, b: &Json) -> (r: bool)
    ensures
        r == same_type_spec(jview(*a), jview(*b)),
{
    match (a, b) {
        (Json::Null, Json::Null) => true,
        (Json::Bool(_), Json::Bool(_)) => true,
        (Json::Number(_), Json::Number(_)) => true,
        (Json::String(_), Json::String(_)) => true,
        (Json::Array(_), Json::Array(_)) => true,
        (Json::Object(_), Json::Object(_)) => true,
        _ => false,
    }
}

pub open spec fn has_keys_spec(a: JsonV) -> bool {
    a is Object || a is Array
}

/// The value is an object or an array.
pub fn has_keys(a: &Json) -> (r: bool)
    ensures
        r == has_keys_spec(jview(*a)),
{
    match a {
        Json::Object(_) | Json::Array(_) => true,
        _ => false,
    }
}

pub open spec fn potential_var_spec(a: Seq<char>) -> bool {
    a.len() > 0 && (a[0] == '$' || a[0] == '@')
}

/// The text starts with `$` or `@`, the marks of a variable reference.
pub fn potential_var(a: &str) -> (r: bool)
    ensures
        r == potential_var_spec(a@),
{
    let v = chars_of(a);
    v.len() > 0 && (v[0] == '$' || v[0] == '@')
}

pub open spec fn potential_set_spec(a: JsonV, b: JsonV) -> bool {
    match (a, b) {
        (JsonV::Str(x), JsonV::Str(y)) => potential_var_spec(x) || potential_var_spec(y),
        (JsonV::Str(_), _) => true,
        (_, JsonV::Str(_)) => true,
        _ => false,
    }
}

/// A pair of values where a variable could stand: one is a string, and
/// when both are, one of them looks like a variable.
pub fn potential_set(a: &Json, b: &Json) -> (r: bool)
    ensures
        r == potential_set_spec(jview(*a), jview(*b)),
{
    match (a, b) {
        (Json::String(x), Json::String(y)) => potential_var(x.as_str()) || potential_var(y.as_str()),
        (Json::String(_), _) => true,
        (_, Json::String(_)) => true,
        _ => false,
    }
}


/// One step of a path: an object key or an array index.
#[derive(Debug)]
pub enum JsonKey {
    Key(String),
    Index(usize),
}

pub enum KeyView {
    Key(Seq<char>),
    Index(usize),
}

pub open spec fn key_view(k: JsonKey) -> KeyView {
    match k {
        JsonKey::Key(s) => KeyView::Key(s@),
        JsonKey::Index(i) => KeyView::Index(i),
    }
}

impl Clone for JsonKey {
    fn clone(&self) -> (r: Self)
        ensures
            r == *self,
    {
        match self {
            JsonKey::Key(s) => JsonKey::Key(s.clone()),
            JsonKey::Index(i) => JsonKey::Index(*i),
        }
    }
}

/// A path to a value in a JSON document: `/a/b/c` leads to `3` in
/// `{"a": {"b": {"c": 3}}}`, and `/a/1` to `2` in `{"a": [1, 2, 3]}`.
#[derive(Debug)]
pub struct JSPath(pub Vec<JsonKey>);

impl View for JSPath {
    type V = Seq<KeyView>;

    open spec fn view(&self) -> Seq<KeyView> {
        self.0@.map_values(|k: JsonKey| key_view(k))
    }
}

impl Clone for JSPath {
    fn clone(&self) -> (r: Self)
        ensures
            r@ == self@,
    {
        let mut v: Vec<JsonKey> = Vec::new();
        for i in 0..self.0.len()
            invariant
                v@ == self.0@.take(i as int),
        {
            v.push(self.0[i].clone());
            assert(v@ =~= self.0@.take(i + 1));
        }
        assert(v@ =~= self.0@);
        JSPath(v)
    }
}

/// How one segment of a path text is read: trimmed, then an index when it
/// parses as `usize`, else a key.
pub open spec fn key_of(seg: Seq<char>) -> KeyView {
    let t = trim_seq(seg);
    match int_text(t, false, 0, usize::MAX as int) {
        Some(n) => KeyView::Index(n as usize),
        None => KeyView::Key(t),
    }
}

/// Keys of the nonempty segments.
pub open spec fn path_keys(segs: Seq<Seq<char>>) -> Seq<KeyView>
    decreases segs.len(),
{
    if segs.len() == 0 {
        Seq::empty()
    } else if segs.last().len() == 0 {
        path_keys(segs.drop_last())
    } else {
        path_keys(segs.drop_last()).push(key_of(segs.last()))
    }
}

/// `JSPath::from_str`.
pub open spec fn parse_path(s: Seq<char>) -> Seq<KeyView> {
    path_keys(split_seq(s, '/'))
}

pub open spec fn key_text(k: KeyView) -> Seq<char> {
    match k {
        KeyView::Key(s) => s,
        KeyView::Index(i) => dec_digits(i as nat),
    }
}

/// `/k1/k2/...`, empty for the empty path.
pub open spec fn path_text(p: Seq<KeyView>) -> Seq<char>
    decreases p.len(),
{
    if p.len() == 0 {
        Seq::empty()
    } else {
        path_text(p.drop_last()) + seq!['/'] + key_text(p.last())
    }
}

/// `k1/k2/...`.
pub open spec fn join_text(p: Seq<KeyView>) -> Seq<char>
    decreases p.len(),
{
    if p.len() == 0 {
        Seq::empty()
    } else if p.len() == 1 {
        key_text(p[0])
    } else {
        join_text(p.drop_last()) + seq!['/'] + key_text(p.last())
    }
}

impl JsonKey {
    /// The key's text: the key itself, or the index in decimal.
    pub fn inner(&self) -> (r: String)
        ensures
            r@ == key_text(key_view(*self)),
    {
        string_of(&key_chars(self))
    }
}

/// A key whose text reads back as the same key: a key that is not empty,
/// holds no `/`, has no surrounding whitespace and does not read as an
/// index; every index is one.
pub open spec fn plain_key(k: KeyView) -> bool {
    match k {
        KeyView::Key(s) => s.len() > 0 && !s.contains('/') && trim_seq(s) == s && int_text(
            s,
            false,
            0,
            usize::MAX as int,
        ) is None,
        KeyView::Index(_) => true,
    }
}

proof fn lemma_split_join(a: Seq<char>, b: Seq<char>, sep: char)
    ensures
        split_seq(a + seq![sep] + b, sep) == split_seq(a, sep) + split_seq(b, sep),
    decreases b.len(),
{
    let s = a + seq![sep] + b;
    if b.len() == 0 {
        assert(s.drop_last() =~= a);
        assert(split_seq(b, sep) =~= seq![Seq::<char>::empty()]);
        assert(split_seq(a, sep).push(Seq::<char>::empty()) =~= split_seq(a, sep) + split_seq(b, sep));
    } else {
        lemma_split_join(a, b.drop_last(), sep);
        assert(s.drop_last() =~= a + seq![sep] + b.drop_last());
        assert(s.last() == b.last());
        crate::text::lemma_split_seq_nonempty(b.drop_last(), sep);
        crate::text::lemma_split_seq_nonempty(a, sep);
        let pa = split_seq(a, sep);
        let pb = split_seq(b.drop_last(), sep);
        if b.last() == sep {
            assert((pa + pb).push(Seq::<char>::empty()) =~= pa + pb.push(Seq::<char>::empty()));
        } else {
            let p = pa + pb;
            assert(p.last() == pb.last());
            assert(p.update(p.len() - 1, p.last().push(b.last())) =~= pa + pb.update(
                pb.len() - 1,
                pb.last().push(b.last()),
            ));
        }
    }
}

proof fn lemma_split_single(b: Seq<char>, sep: char)
    requires
        !b.contains(sep),
    ensures
        split_seq(b, sep) == seq![b],
    decreases b.len(),
{
    if b.len() > 0 {
        assert(!b.drop_last().contains(sep)) by {
            if b.drop_last().contains(sep) {
                let j = choose|j: int| 0 <= j < b.drop_last().len() && b.drop_last()[j] == sep;
                assert(b[j] == sep);
            }
        }
        lemma_split_single(b.drop_last(), sep);
        assert(b.last() != sep) by {
            assert(b[b.len() - 1] == b.last());
        }
        assert(b.drop_last().push(b.last()) =~= b);
        assert(seq![b.drop_last()].update(0, b) =~= seq![b]);
    } else {
        assert(b =~= Seq::<char>::empty());
    }
}

proof fn lemma_dec_digits(n: nat)
    ensures
        dec_digits(n).len() > 0,
        forall|j: int| 0 <= j < dec_digits(n).len() ==> crate::text::is_digit(#[trigger] dec_digits(n)[j]),
        crate::text::digits_value(dec_digits(n)) == n,
    decreases n,
{
    let m = n % 10;
    lemma_dec_char(m as int);
    if n >= 10 {
        lemma_dec_digits(n / 10);
        let d = dec_digits(n / 10);
        assert(dec_digits(n).drop_last() =~= d);
        assert(dec_digits(n).last() == crate::text::dec_char(m as int));
        assert(crate::text::digits_value(dec_digits(n)) == 10 * crate::text::digits_value(dec_digits(n).drop_last())
            + crate::text::digit_value(dec_digits(n).last()));
        assert(10 * (n / 10) + n % 10 == n) by (nonlinear_arith);
    } else {
        assert(m == n);
        assert(dec_digits(n).drop_last() =~= Seq::<char>::empty());
        assert(dec_digits(n).last() == crate::text::dec_char(m as int));
        assert(crate::text::digits_value(Seq::<char>::empty()) == 0);
        assert(crate::text::digits_value(dec_digits(n)) == 10 * crate::text::digits_value(dec_digits(n).drop_last())
            + crate::text::digit_value(dec_digits(n).last()));
    }
}

proof fn lemma_dec_char(d: int)
    requires
        0 <= d < 10,
    ensures
        crate::text::is_digit(crate::text::dec_char(d)),
        crate::text::digit_value(crate::text::dec_char(d)) == d,
        !crate::text::is_white(crate::text::dec_char(d)),
        crate::text::dec_char(d) != '/',
        crate::text::dec_char(d) != '+',
{
    let c = crate::text::dec_char(d);
    assert(c as u32 == 48 + d);
}

proof fn lemma_key_text_reads_back(k: KeyView)
    requires
        plain_key(k),
    ensures
        key_text(k).len() > 0,
        !key_text(k).contains('/'),
        key_of(key_text(k)) == k,
{
    match k {
        KeyView::Key(s) => {},
        KeyView::Index(i) => {
            let d = dec_digits(i as nat);
            lemma_dec_digits(i as nat);
            assert(!d.contains('/')) by {
                if d.contains('/') {
                    let j = choose|j: int| 0 <= j < d.len() && d[j] == '/';
                    assert(crate::text::is_digit(d[j]));
                }
            }
            assert(!crate::text::is_white(d[0]));
            assert(!crate::text::is_white(d[d.len() - 1]));
            crate::text::lemma_lead_white(d, 0);
            assert(d.skip(0) =~= d);
            crate::text::lemma_trail_white(d, d.len() as int);
            assert(d.take(d.len() as int) =~= d);
            assert(trim_seq(d) == d);
            assert(crate::text::all_digits(d));
            assert(d[0] != '+');
        },
    }
}

proof fn lemma_lead_props(s: Seq<char>)
    ensures
        lead_white(s) <= s.len(),
        lead_white(s) < s.len() ==> !is_white(s[lead_white(s) as int]),
    decreases s.len(),
{
    if s.len() > 0 && is_white(s[0]) {
        lemma_lead_props(s.drop_first());
        if lead_white(s) < s.len() {
            assert(s.drop_first()[lead_white(s.drop_first()) as int] == s[lead_white(s) as int]);
        }
    }
}

proof fn lemma_trail_props(s: Seq<char>)
    ensures
        trail_white(s) <= s.len(),
        trail_white(s) < s.len() ==> !is_white(s[s.len() - trail_white(s) - 1]),
    decreases s.len(),
{
    if s.len() > 0 && is_white(s.last()) {
        lemma_trail_props(s.drop_last());
        if trail_white(s) < s.len() {
            assert(s.drop_last()[s.drop_last().len() - trail_white(s.drop_last()) - 1] == s[s.len() - trail_white(s) - 1]);
        }
    }
}

/// Trimming is a cut of the text, and trimming twice trims once.
proof fn lemma_trim_twice(s: Seq<char>)
    ensures
        trim_seq(trim_seq(s)) == trim_seq(s),
        forall|c: char| trim_seq(s).contains(c) ==> s.contains(c),
{
    lemma_lead_props(s);
    let a = s.skip(lead_white(s) as int);
    lemma_trail_props(a);
    let t = trim_seq(s);
    assert forall|c: char| t.contains(c) implies s.contains(c) by {
        let k = choose|k: int| 0 <= k < t.len() && t[k] == c;
        assert(t[k] == s[k + lead_white(s)]);
    }
    if t.len() > 0 {
        assert(t[0] == s[lead_white(s) as int]);
        assert(t[t.len() - 1] == a[a.len() - trail_white(a) - 1]);
        crate::text::lemma_lead_white(t, 0);
        crate::text::lemma_trail_white(t, t.len() as int);
        assert(t.skip(0) =~= t);
        assert(t.take(t.len() as int) =~= t);
    } else {
        assert(trim_seq(t) =~= t);
    }
}

/// No piece of a split holds the separator, and each holds only characters
/// of the text.
proof fn lemma_split_no_sep(s: Seq<char>, sep: char)
    ensures
        forall|i: int| 0 <= i < split_seq(s, sep).len() ==> !(#[trigger] split_seq(s, sep)[i]).contains(sep),
        forall|i: int, c: char| 0 <= i < split_seq(s, sep).len() && #[trigger] (split_seq(s, sep)[i].contains(c)) ==> s.contains(c),
    decreases s.len(),
{
    if s.len() > 0 {
        let p = split_seq(s.drop_last(), sep);
        lemma_split_no_sep(s.drop_last(), sep);
        crate::text::lemma_split_seq_nonempty(s.drop_last(), sep);
        let r = split_seq(s, sep);
        assert forall|c: char| s.drop_last().contains(c) implies s.contains(c) by {
            let k = choose|k: int| 0 <= k < s.drop_last().len() && s.drop_last()[k] == c;
            assert(s[k] == c);
        }
        assert forall|i: int| 0 <= i < r.len() implies !(#[trigger] r[i]).contains(sep) && forall|c: char| r[i].contains(c) ==> s.contains(c) by {
            if s.last() == sep {
                if i < p.len() {
                    assert(r[i] == p[i]);
                } else {
                    assert(r[i] =~= Seq::<char>::empty());
                }
            } else if i < p.len() - 1 {
                assert(r[i] == p[i]);
            } else {
                let q = p.last().push(s.last());
                assert(r[i] == q);
                assert forall|c: char| q.contains(c) implies c != sep && s.contains(c) by {
                    let k = choose|k: int| 0 <= k < q.len() && q[k] == c;
                    if k < p.last().len() {
                        assert(q[k] == p.last()[k]);
                        assert(p.last().contains(c));
                        assert(p[p.len() - 1].contains(c));
                    } else {
                        assert(s[s.len() - 1] == c);
                    }
                }
            }
        }
    }
}

/// No piece between separators is blank without being empty.
pub open spec fn no_blank_segment(s: Seq<char>) -> bool {
    forall|i: int|
        0 <= i < split_seq(s, '/').len() ==> (#[trigger] split_seq(s, '/')[i]).len() == 0 || trim_seq(
            split_seq(s, '/')[i],
        ).len() > 0
}

proof fn lemma_keys_plain(segs: Seq<Seq<char>>)
    requires
        forall|i: int| 0 <= i < segs.len() ==> !(#[trigger] segs[i]).contains('/'),
        forall|i: int| 0 <= i < segs.len() ==> (#[trigger] segs[i]).len() == 0 || trim_seq(segs[i]).len() > 0,
    ensures
        forall|i: int| 0 <= i < path_keys(segs).len() ==> plain_key(#[trigger] path_keys(segs)[i]),
    decreases segs.len(),
{
    if segs.len() > 0 {
        let d = segs.drop_last();
        assert forall|i: int| 0 <= i < d.len() implies !(#[trigger] d[i]).contains('/') && (d[i].len() == 0 || trim_seq(d[i]).len() > 0) by {
            assert(d[i] == segs[i]);
        }
        lemma_keys_plain(d);
        let l = segs.last();
        if l.len() > 0 {
            assert(!segs[segs.len() - 1].contains('/'));
            lemma_trim_twice(l);
            let k = key_of(l);
            assert(plain_key(k));
            let r = path_keys(segs);
            assert forall|i: int| 0 <= i < r.len() implies plain_key(#[trigger] r[i]) by {
                if i < r.len() - 1 {
                    assert(r[i] == path_keys(d)[i]);
                }
            }
        }
    }
}

proof fn lemma_path_join_text(p: Seq<KeyView>)
    requires
        p.len() > 0,
    ensures
        path_text(p) == seq!['/'] + join_text(p),
    decreases p.len(),
{
    if p.len() > 1 {
        lemma_path_join_text(p.drop_last());
        assert(path_text(p) =~= seq!['/'] + join_text(p));
    } else {
        assert(p.drop_last().len() == 0);
        assert(path_text(p.drop_last()) == Seq::<char>::empty());
        assert(p.last() == p[0]);
        assert(path_text(p) =~= seq!['/'] + join_text(p));
    }
}

proof fn lemma_keys_skip_empty(segs: Seq<Seq<char>>)
    ensures
        path_keys(seq![Seq::<char>::empty()] + segs) == path_keys(segs),
    decreases segs.len(),
{
    let e = seq![Seq::<char>::empty()];
    if segs.len() == 0 {
        assert(e + segs =~= e);
        assert(e.drop_last() =~= Seq::<Seq<char>>::empty());
        assert(e.last().len() == 0);
        assert(path_keys(e) == path_keys(e.drop_last()));
        assert(path_keys(segs) == Seq::<KeyView>::empty());
    } else {
        lemma_keys_skip_empty(segs.drop_last());
        assert((e + segs).drop_last() =~= e + segs.drop_last());
        assert((e + segs).last() == segs.last());
    }
}

/// The joined form of a path (no leading `/`) reads as the path its text
/// reads as.
pub proof fn law_join_reads_as_text(p: Seq<KeyView>)
    ensures
        parse_path(join_text(p)) == parse_path(path_text(p)),
{
    if p.len() > 0 {
        lemma_path_join_text(p);
        lemma_split_join(Seq::empty(), join_text(p), '/');
        assert(Seq::<char>::empty() + seq!['/'] + join_text(p) =~= seq!['/'] + join_text(p));
        assert(split_seq(Seq::<char>::empty(), '/') =~= seq![Seq::<char>::empty()]);
        lemma_keys_skip_empty(split_seq(join_text(p), '/'));
    }
}

/// A path read from text and written back as text reads as the same path,
/// when no piece between separators is blank without being empty.
pub proof fn law_parse_text_round_trip(s: Seq<char>)
    requires
        no_blank_segment(s),
    ensures
        forall|i: int| 0 <= i < parse_path(s).len() ==> plain_key(#[trigger] parse_path(s)[i]),
        parse_path(path_text(parse_path(s))) == parse_path(s),
        parse_path(join_text(parse_path(s))) == parse_path(s),
{
    lemma_split_no_sep(s, '/');
    lemma_keys_plain(split_seq(s, '/'));
    law_path_text_round_trip(parse_path(s));
    law_join_reads_as_text(parse_path(s));
}

/// The text of a path whose keys are plain (see `plain_key`) reads back
/// as the same path.
pub proof fn law_path_text_round_trip(p: Seq<KeyView>)
    requires
        forall|i: int| 0 <= i < p.len() ==> plain_key(#[trigger] p[i]),
    ensures
        parse_path(path_text(p)) == p,
    decreases p.len(),
{
    lemma_split_texts(p);
    lemma_keys_of_texts(p);
}

/// The pieces of a path's text: an empty one, then each key's text.
/// A key whose text holds no `/`.
pub open spec fn slash_free(k: KeyView) -> bool {
    match k {
        KeyView::Key(s) => !s.contains('/'),
        KeyView::Index(_) => true,
    }
}

proof fn lemma_split_texts(p: Seq<KeyView>)
    requires
        forall|i: int| 0 <= i < p.len() ==> slash_free(#[trigger] p[i]),
    ensures
        split_seq(path_text(p), '/') == seq![Seq::<char>::empty()] + p.map_values(|k: KeyView| key_text(k)),
    decreases p.len(),
{
    if p.len() == 0 {
        assert(split_seq(Seq::<char>::empty(), '/') =~= seq![Seq::<char>::empty()]);
        assert(seq![Seq::<char>::empty()] + p.map_values(|k: KeyView| key_text(k)) =~= seq![Seq::<char>::empty()]);
    } else {
        assert forall|i: int| 0 <= i < p.drop_last().len() implies slash_free(#[trigger] p.drop_last()[i]) by {
            assert(p.drop_last()[i] == p[i]);
        }
        lemma_split_texts(p.drop_last());
        assert(slash_free(p[p.len() - 1]));
        if p.last() is Index {
            lemma_key_text_reads_back(p.last());
        }
        lemma_split_join(path_text(p.drop_last()), key_text(p.last()), '/');
        lemma_split_single(key_text(p.last()), '/');
        assert(p.map_values(|k: KeyView| key_text(k)) =~= p.drop_last().map_values(|k: KeyView| key_text(k)).push(
            key_text(p.last()),
        ));
    }
}

proof fn lemma_keys_of_texts(p: Seq<KeyView>)
    requires
        forall|i: int| 0 <= i < p.len() ==> plain_key(#[trigger] p[i]),
    ensures
        path_keys(seq![Seq::<char>::empty()] + p.map_values(|k: KeyView| key_text(k))) == p,
    decreases p.len(),
{
    let segs = seq![Seq::<char>::empty()] + p.map_values(|k: KeyView| key_text(k));
    if p.len() == 0 {
        assert(segs =~= seq![Seq::<char>::empty()]);
        assert(segs.drop_last() =~= Seq::<Seq<char>>::empty());
        assert(segs.last().len() == 0);
        assert(path_keys(segs) == path_keys(segs.drop_last()));
        assert(path_keys(Seq::<Seq<char>>::empty()) == Seq::<KeyView>::empty());
        assert(p =~= Seq::<KeyView>::empty());
    } else {
        lemma_keys_of_texts(p.drop_last());
        lemma_key_text_reads_back(p.last());
        assert(segs.drop_last() =~= seq![Seq::<char>::empty()] + p.drop_last().map_values(|k: KeyView| key_text(k)));
        assert(segs.last() == key_text(p.last()));
        assert(segs.last().len() != 0);
        assert(path_keys(segs.drop_last()) == p.drop_last());
        assert(path_keys(segs) == path_keys(segs.drop_last()).push(key_of(segs.last())));
        assert(p.drop_last().push(p.last()) =~= p);
    }
}

fn key_chars(k: &JsonKey) -> (r: Vec<char>)
    ensures
        r@ == key_text(key_view(*k)),
{
    match k {
        JsonKey::Key(s) => chars_of(s.as_str()),
        JsonKey::Index(i) => fmt_dec(*i),
    }
}

impl JSPath {
    pub fn new() -> (r: Self)
        ensures
            r@ == Seq::<KeyView>::empty(),
    {
        let r = JSPath(Vec::new());
        assert(r@ =~= Seq::<KeyView>::empty());
        r
    }

    /// Reads `/a/b/0`: empty segments are skipped, each segment is trimmed,
    /// and a segment that parses as `usize` is an index.
    pub fn from_str(s: &str) -> (r: Result<Self, ProgramError>)
        ensures
            r matches Ok(p) && p@ == parse_path(s@),
    {
        let segs = split_char(&chars_of(s), '/');
        let ghost ss = split_seq(s@, '/');
        let mut keys: Vec<JsonKey> = Vec::new();
        for i in 0..segs.len()
            invariant
                segs@.len() == ss.len(),
                ss == split_seq(s@, '/'),
                forall|j: int| 0 <= j < segs@.len() ==> (#[trigger] segs@[j])@ == ss[j],
                keys@.map_values(|k: JsonKey| key_view(k)) == path_keys(ss.take(i as int)),
        {
            assert(ss.take(i + 1).drop_last() == ss.take(i as int));
            assert(ss.take(i + 1).last() == ss[i as int]);
            if segs[i].len() > 0 {
                let t = trim(&segs[i]);
                let k = match parse_usize(&t) {
                    Some(n) => JsonKey::Index(n),
                    None => JsonKey::Key(string_of(&t)),
                };
                let ghost before = keys@;
                keys.push(k);
                assert(keys@.map_values(|k: JsonKey| key_view(k)) =~= before.map_values(
                    |k: JsonKey| key_view(k),
                ).push(key_view(k)));
            }
        }
        assert(ss.take(segs.len() as int) == ss);
        Ok(JSPath(keys))
    }

    /// `/k1/k2/...`.
    pub fn to_string(&self) -> (r: String)
        ensures
            r@ == path_text(self@),
    {
        let mut v: Vec<char> = Vec::new();
        for i in 0..self.0.len()
            invariant
                v@ == path_text(self@.take(i as int)),
        {
            assert(self@.take(i + 1).drop_last() == self@.take(i as int));
            let kc = key_chars(&self.0[i]);
            v.push('/');
            append_chars(&mut v, &kc);
        }
        assert(self@.take(self.0.len() as int) == self@);
        string_of(&v)
    }

    /// The keys joined by `/`, without a leading slash.
    pub fn join(&self) -> (r: String)
        ensures
            r@ == join_text(self@),
    {
        let mut v: Vec<char> = Vec::new();
        for i in 0..self.0.len()
            invariant
                v@ == join_text(self@.take(i as int)),
        {
            assert(self@.take(i + 1).drop_last() == self@.take(i as int));
            let kc = key_chars(&self.0[i]);
            if i > 0 {
                v.push('/');
            } else {
                assert(self@.take(1) =~= seq![self@[0]]);
            }
            append_chars(&mut v, &kc);
        }
        assert(self@.take(self.0.len() as int) == self@);
        string_of(&v)
    }
}


/// A pointer token with `~1` read as `/` and `~0` as `~`.
pub open spec fn unescape(t: Seq<char>) -> Seq<char> {
    replace_all(replace_all(t, seq!['~', '1'], seq!['/']), seq!['~', '0'], seq!['~'])
}

/// An array index in a pointer token: no sign, no leading zero.
pub open spec fn parse_index(t: Seq<char>) -> Option<int> {
    if t.len() > 0 && (t[0] == '+' || (t[0] == '0' && t.len() != 1)) {
        None
    } else {
        int_text(t, false, 0, usize::MAX as int)
    }
}

/// The tokens of the path's pointer text.
pub open spec fn pointer_tokens(p: Seq<KeyView>) -> Seq<Seq<char>> {
    if p.len() == 0 {
        Seq::empty()
    } else {
        split_seq(path_text(p), '/').drop_first()
    }
}

/// The child a pointer token selects.
pub open spec fn token_child(j: JsonV, t: Seq<char>) -> Option<JsonV> {
    let u = unescape(t);
    match j {
        JsonV::Object(es) => get_key(es, u),
        JsonV::Array(a) => match parse_index(u) {
            Some(i) => if i < a.len() {
                Some(a[i])
            } else {
                None
            },
            None => None,
        },
        _ => None,
    }
}

/// Following pointer tokens from `j`.
pub open spec fn follow(j: JsonV, toks: Seq<Seq<char>>) -> Option<JsonV>
    decreases toks.len(),
{
    if toks.len() == 0 {
        Some(j)
    } else {
        match token_child(j, toks[0]) {
            Some(c) => follow(c, toks.drop_first()),
            None => None,
        }
    }
}

/// `j` with the value at the end of `toks` replaced by `v` (where following
/// the tokens succeeds).
pub open spec fn set_at(j: JsonV, toks: Seq<Seq<char>>, v: JsonV) -> JsonV
    decreases toks.len(),
{
    if toks.len() == 0 {
        v
    } else {
        let u = unescape(toks[0]);
        match j {
            JsonV::Object(es) => {
                let i = key_pos(es, u);
                if i >= 0 {
                    JsonV::Object(es.update(i, (es[i].0, set_at(es[i].1, toks.drop_first(), v))))
                } else {
                    j
                }
            },
            JsonV::Array(a) => match parse_index(u) {
                Some(i) => if i < a.len() {
                    JsonV::Array(a.update(i, set_at(a[i], toks.drop_first(), v)))
                } else {
                    j
                },
                None => j,
            },
            _ => j,
        }
    }
}

fn unescape_exec(t: &Vec<char>) -> (r: Vec<char>)
    ensures
        r@ == unescape(t@),
{
    let mut p1: Vec<char> = Vec::new();
    p1.push('~');
    p1.push('1');
    let mut r1: Vec<char> = Vec::new();
    r1.push('/');
    let mut p0: Vec<char> = Vec::new();
    p0.push('~');
    p0.push('0');
    let mut r0: Vec<char> = Vec::new();
    r0.push('~');
    assert(p1@ =~= seq!['~', '1'] && r1@ =~= seq!['/'] && p0@ =~= seq!['~', '0'] && r0@ =~= seq!['~']);
    let a = replace_chars(t, &p1, &r1);
    replace_chars(&a, &p0, &r0)
}

fn parse_index_exec(t: &Vec<char>) -> (r: Option<usize>)
    ensures
        match r {
            Some(i) => parse_index(t@) == Some(i as int),
            None => parse_index(t@) is None,
        },
{
    if t.len() > 0 && (t[0] == '+' || (t[0] == '0' && t.len() != 1)) {
        None
    } else {
        parse_usize(t)
    }
}

fn pointer_tokens_exec(p: &JSPath) -> (r: Vec<Vec<char>>)
    ensures
        r@.len() == pointer_tokens(p@).len(),
        forall|i: int| 0 <= i < r@.len() ==> (#[trigger] r@[i])@ == pointer_tokens(p@)[i],
{
    if p.0.len() == 0 {
        return Vec::new();
    }
    let text = chars_of(p.to_string().as_str());
    let mut parts = split_char(&text, '/');
    let ghost all = split_seq(path_text(p@), '/');
    proof {
        crate::text::lemma_split_seq_nonempty(path_text(p@), '/');
    }
    parts.remove(0);
    assert forall|i: int| 0 <= i < parts@.len() implies (#[trigger] parts@[i])@ == pointer_tokens(
        p@,
    )[i] by {
        assert(pointer_tokens(p@)[i] == all[i + 1]);
    }
    parts
}

/// The child of `j` that token `t` selects.
fn token_child_exec<'a>(j: &'a Json, t: &Vec<char>) -> (r: Option<&'a Json>)
    ensures
        match r {
            Some(c) => token_child(jview(*j), t@) == Some(jview(*c)),
            None => token_child(jview(*j), t@) is None,
        },
{
    let u = unescape_exec(t);
    match j {
        Json::Object(o) => {
            proof {
                lemma_key_pos_bounds(jentries(o@), u@);
            }
            match obj_find(o, &u) {
                Some(i) => Some(&o[i].1),
                None => None,
            }
        },
        Json::Array(a) => match parse_index_exec(&u) {
            Some(i) => if i < a.len() {
                Some(&a[i])
            } else {
                None
            },
            None => None,
        },
        _ => None,
    }
}

/// Follows pointer tokens from `j`.
fn follow_exec<'a>(j: &'a Json, toks: &Vec<Vec<char>>) -> (r: Option<&'a Json>)
    ensures
        match r {
            Some(c) => follow(jview(*j), toks@.map_values(|t: Vec<char>| t@)) == Some(jview(*c)),
            None => follow(jview(*j), toks@.map_values(|t: Vec<char>| t@)) is None,
        },
{
    let ghost ts = toks@.map_values(|t: Vec<char>| t@);
    let mut cur: &Json = j;
    let mut i: usize = 0;
    assert(ts.skip(0) == ts);
    while i < toks.len()
        invariant
            i <= toks.len(),
            ts == toks@.map_values(|t: Vec<char>| t@),
            follow(jview(*j), ts) == follow(jview(*cur), ts.skip(i as int)),
        decreases toks.len() - i,
    {
        assert(ts.skip(i as int)[0] == toks@[i as int]@);
        assert(ts.skip(i as int).drop_first() == ts.skip(i + 1));
        match token_child_exec(cur, &toks[i]) {
            Some(c) => {
                cur = c;
            },
            None => {
                return None;
            },
        }
        i += 1;
    }
    Some(cur)
}

/// `JSPath::traverse`: the value the path's pointer text leads to.
pub open spec fn traverse_spec(j: JsonV, p: Seq<KeyView>) -> Option<JsonV> {
    follow(j, pointer_tokens(p))
}

impl JSPath {
    /// The value at this path in `json`; an error naming the path when there
    /// is none.
    pub fn traverse<'a>(&self, json: &'a Json) -> (r: Result<&'a Json, ProgramError>)
        ensures
            match r {
                Ok(v) => traverse_spec(jview(*json), self@) == Some(jview(*v)),
                Err(e) => traverse_spec(jview(*json), self@) is None && (e matches ProgramError::Processing(
                    m,
                ) && m@ == "Invalid path: "@ + path_text(self@)),
            },
    {
        let toks = pointer_tokens_exec(self);
        assert(toks@.map_values(|t: Vec<char>| t@) =~= pointer_tokens(self@));
        match follow_exec(json, &toks) {
            Some(v) => Ok(v),
            None => {
                let t = chars_of(self.to_string().as_str());
                Err(processing_error("Invalid path: ", &t))
            },
        }
    }
}


/// What removing the value at the end of `toks`, then `last`, gives.
pub open spec fn remove_at_spec(j: JsonV, toks: Seq<Seq<char>>, last: KeyView) -> Option<JsonV> {
    match follow(j, toks) {
        Some(JsonV::Array(a)) => match last {
            KeyView::Index(i) => if i < a.len() {
                Some(set_at(j, toks, JsonV::Array(a.remove(i as int))))
            } else {
                None
            },
            _ => None,
        },
        Some(JsonV::Object(es)) => Some(set_at(j, toks, JsonV::Object(remove_key(es, key_text(last))))),
        _ => None,
    }
}

/// `JSPath::remove`: `None` when the path does not lead to a removable value.
pub open spec fn remove_spec(j: JsonV, p: Seq<KeyView>) -> Option<JsonV> {
    remove_at_spec(j, pointer_tokens(p.drop_last()), p.last())
}

/// Removing at a path panics: the path is empty, or its parent is neither
/// an array nor an object.
pub open spec fn remove_panics(j: JsonV, p: Seq<KeyView>) -> bool {
    p.len() == 0 || (follow(j, pointer_tokens(p.drop_last())) matches Some(v) && !(v is Array
        || v is Object))
}

proof fn lemma_jentries_update(o: Seq<(String, Json)>, i: int, k: String, c: Json)
    requires
        0 <= i < o.len(),
    ensures
        jentries(o.update(i, (k, c))) == jentries(o).update(i, (k@, jview(c))),
{
    assert(jentries(o.update(i, (k, c))) =~= jentries(o).update(i, (k@, jview(c))));
}

proof fn lemma_jviews_update(a: Seq<Json>, i: int, c: Json)
    requires
        0 <= i < a.len(),
    ensures
        jviews(a.update(i, c)) == jviews(a).update(i, jview(c)),
{
    assert(jviews(a.update(i, c)) =~= jviews(a).update(i, jview(c)));
}

fn remove_rec(j: &mut Json, toks: &Vec<Vec<char>>, d: usize, last: &JsonKey) -> (ok: bool)
    requires
        d <= toks@.len(),
        !(follow(jview(*old(j)), toks@.map_values(|t: Vec<char>| t@).skip(d as int)) matches Some(v)
            && !(v is Array || v is Object)),
    ensures
        ok == remove_at_spec(jview(*old(j)), toks@.map_values(|t: Vec<char>| t@).skip(d as int), key_view(*last)) is Some,
        ok ==> Some(jview(*final(j))) == remove_at_spec(
            jview(*old(j)),
            toks@.map_values(|t: Vec<char>| t@).skip(d as int),
            key_view(*last),
        ),
        !ok ==> jview(*final(j)) == jview(*old(j)),
    decreases toks@.len() - d,
{
    let ghost ts = toks@.map_values(|t: Vec<char>| t@).skip(d as int);
    let ghost j0 = jview(*j);
    let mut t = Json::Null;
    std::mem::swap(&mut t, j);
    if d == toks.len() {
        assert(ts.len() == 0);
        match t {
            Json::Array(mut a) => {
                match last {
                    JsonKey::Index(i) => {
                        if *i < a.len() {
                            a.remove(*i);
                            *j = Json::Array(a);
                            assert(jviews(a@) =~= jviews(old(j)->Array_0@).remove(*i as int));
                            return true;
                        }
                    },
                    _ => {},
                }
                *j = Json::Array(a);
                false
            },
            Json::Object(mut o) => {
                let kc = key_chars(last);
                obj_remove(&mut o, &kc);
                *j = Json::Object(o);
                true
            },
            other => {
                *j = other;
                false
            },
        }
    } else {
        assert(ts[0] == toks@[d as int]@);
        assert(ts.drop_first() == toks@.map_values(|t: Vec<char>| t@).skip(d + 1));
        let u = unescape_exec(&toks[d]);
        match t {
            Json::Object(mut o) => {
                proof {
                    lemma_key_pos_bounds(jentries(o@), u@);
                }
                match obj_find(&o, &u) {
                    Some(i) => {
                        let (k, mut c) = o.remove(i);
                        assert(jentries(old(j)->Object_0@)[i as int] == (k@, jview(c)));
                        let ok = remove_rec(&mut c, toks, d + 1, last);
                        o.insert(i, (k, c));
                        proof {
                            let o0 = old(j)->Object_0@;
                            assert(o@ == o0.update(i as int, (k, c)));
                            lemma_jentries_update(o0, i as int, k, c);
                            if !ok {
                                assert(jentries(o0).update(i as int, (k@, jview(c))) =~= jentries(o0));
                            }
                        }
                        *j = Json::Object(o);
                        ok
                    },
                    None => {
                        *j = Json::Object(o);
                        false
                    },
                }
            },
            Json::Array(mut a) => {
                match parse_index_exec(&u) {
                    Some(i) => {
                        if i < a.len() {
                            let mut c = a.remove(i);
                            let ok = remove_rec(&mut c, toks, d + 1, last);
                            a.insert(i, c);
                            proof {
                                let a0 = old(j)->Array_0@;
                                assert(a@ == a0.update(i as int, c));
                                lemma_jviews_update(a0, i as int, c);
                                if !ok {
                                    assert(jviews(a0).update(i as int, jview(c)) =~= jviews(a0));
                                }
                            }
                            *j = Json::Array(a);
                            ok
                        } else {
                            *j = Json::Array(a);
                            false
                        }
                    },
                    None => {
                        *j = Json::Array(a);
                        false
                    },
                }
            },
            other => {
                *j = other;
                false
            },
        }
    }
}

impl JSPath {
    /// Removes the value this path leads to: an index from an array, a key
    /// from an object.
    pub fn remove(&self, json: &mut Json) -> (r: Result<(), ProgramError>)
        requires
            !remove_panics(jview(*old(json)), self@),
        ensures
            r is Ok <==> remove_spec(jview(*old(json)), self@) is Some,
            r is Ok ==> Some(jview(*final(json))) == remove_spec(jview(*old(json)), self@),
            r is Err ==> jview(*final(json)) == jview(*old(json)) && (r matches Err(
                ProgramError::Processing(m),
            ) && m@ == "Invalid path: "@ + path_text(self@)),
    {
        let n = self.0.len();
        let mut rest: Vec<JsonKey> = Vec::new();
        for i in 0..n - 1
            invariant
                n == self.0@.len(),
                n > 0,
                rest@ == self.0@.take(i as int),
        {
            rest.push(self.0[i].clone());
            assert(rest@ =~= self.0@.take(i + 1));
        }
        let parent = JSPath(rest);
        assert(parent@ =~= self@.drop_last());
        let toks = pointer_tokens_exec(&parent);
        assert(toks@.map_values(|t: Vec<char>| t@) =~= pointer_tokens(self@.drop_last()));
        assert(toks@.map_values(|t: Vec<char>| t@).skip(0) == toks@.map_values(|t: Vec<char>| t@));
        let last = &self.0[n - 1];
        assert(key_view(*last) == self@.last());
        if remove_rec(json, &toks, 0, last) {
            Ok(())
        } else {
            let t = chars_of(self.to_string().as_str());
            Err(processing_error("Invalid path: ", &t))
        }
    }
}


/// An array grown to hold index `idx`, new slots holding `fill`.
pub open spec fn grown(a: Seq<JsonV>, idx: int, fill: JsonV) -> Seq<JsonV> {
    if idx >= a.len() {
        a + Seq::new((idx + 1 - a.len()) as nat, |k: int| fill)
    } else {
        a
    }
}

/// `JSPath::pave`: sets `val` at the path, creating what is missing. Missing
/// array slots before the index hold `val` when the index is the last step
/// and `null` otherwise; missing object keys hold `val` or an empty object.
/// A last step on a value of the wrong kind replaces it; an inner one fails.
pub open spec fn pave_spec(j: JsonV, p: Seq<KeyView>, val: JsonV) -> Option<JsonV>
    decreases p.len(),
{
    if p.len() == 0 {
        Some(val)
    } else {
        let last = p.len() == 1;
        match p[0] {
            KeyView::Index(idx) => match j {
                JsonV::Array(a) => {
                    let a2 = grown(
                        a,
                        idx as int,
                        if last {
                            val
                        } else {
                            JsonV::Null
                        },
                    );
                    match pave_spec(a2[idx as int], p.drop_first(), val) {
                        Some(c) => Some(JsonV::Array(a2.update(idx as int, c))),
                        None => None,
                    }
                },
                _ => if last {
                    Some(JsonV::Array(Seq::new((idx + 1) as nat, |k: int| if k == idx { val } else { JsonV::Null })))
                } else {
                    None
                },
            },
            KeyView::Key(k) => match j {
                JsonV::Object(es) => {
                    let child = if key_pos(es, k) >= 0 {
                        es[key_pos(es, k)].1
                    } else if last {
                        val
                    } else {
                        JsonV::Object(Seq::empty())
                    };
                    match pave_spec(child, p.drop_first(), val) {
                        Some(c) => Some(JsonV::Object(set_key(es, k, c))),
                        None => None,
                    }
                },
                _ => if last {
                    Some(JsonV::Object(seq![(k, val)]))
                } else {
                    None
                },
            },
        }
    }
}

/// Every index on the path is below `usize::MAX`.
pub open spec fn indices_bounded(p: Seq<KeyView>) -> bool {
    forall|i: int| 0 <= i < p.len() ==> (#[trigger] p[i] matches KeyView::Index(x) ==> x < usize::MAX)
}

fn pave_rec(j: Json, keys: &Vec<JsonKey>, d: usize, val: &Json) -> (r: Option<Json>)
    requires
        d <= keys@.len(),
        indices_bounded(keys@.map_values(|k: JsonKey| key_view(k))),
    ensures
        match r {
            Some(x) => pave_spec(jview(j), keys@.map_values(|k: JsonKey| key_view(k)).skip(d as int), jview(*val)) == Some(jview(x)),
            None => pave_spec(jview(j), keys@.map_values(|k: JsonKey| key_view(k)).skip(d as int), jview(*val)) is None,
        },
    decreases keys@.len() - d,
{
    let ghost p = keys@.map_values(|k: JsonKey| key_view(k)).skip(d as int);
    if d == keys.len() {
        return Some(val.clone());
    }
    assert(p[0] == key_view(keys@[d as int]));
    assert(p.drop_first() == keys@.map_values(|k: JsonKey| key_view(k)).skip(d + 1));
    let last = d + 1 == keys.len();
    match &keys[d] {
        JsonKey::Index(idx) => {
            let idx = *idx;
            assert(keys@.map_values(|k: JsonKey| key_view(k))[d as int] == KeyView::Index(idx));
            assert(idx < usize::MAX);
            match j {
                Json::Array(mut a) => {
                    let ghost a0 = jviews(a@);
                    let ghost fill = if last {
                        jview(*val)
                    } else {
                        JsonV::Null
                    };
                    let start = a.len();
                    while a.len() <= idx
                        invariant
                            a@.len() >= start,
                            a0.len() == start,
                            idx < usize::MAX,
                            fill == (if last {
                                jview(*val)
                            } else {
                                JsonV::Null
                            }),
                            jviews(a@) == a0 + Seq::new((a@.len() - start) as nat, |k: int| fill),
                            a@.len() <= idx + 1 || a@.len() == start,
                        decreases idx + 1 - a.len(),
                    {
                        let f = if last {
                            val.clone()
                        } else {
                            Json::Null
                        };
                        let ghost before = a@;
                        assert(jview(f) == fill);
                        a.push(f);
                        assert(jviews(a@) =~= jviews(before).push(jview(f)));
                        assert(Seq::new((a@.len() - start) as nat, |k: int| fill) =~= Seq::new(
                            (before.len() - start) as nat,
                            |k: int| fill,
                        ).push(fill));
                        assert(jviews(a@) =~= a0 + Seq::new((a@.len() - start) as nat, |k: int| fill));
                    }
                    assert(jviews(a@) =~= grown(a0, idx as int, fill));
                    let c = a.remove(idx);
                    let ghost a1 = a@.insert(idx as int, c);
                    match pave_rec(c, keys, d + 1, val) {
                        Some(c2) => {
                            a.insert(idx, c2);
                            proof {
                                assert(a1.update(idx as int, c2) == a@);
                                lemma_jviews_update(a1, idx as int, c2);
                                assert(jviews(a1)[idx as int] == jview(c));
                                assert(jviews(a1) == grown(a0, idx as int, fill));
                                assert(pave_spec(jview(j), p, jview(*val)) == Some(JsonV::Array(grown(a0, idx as int, fill).update(idx as int, jview(c2)))));
                            }
                            Some(Json::Array(a))
                        },
                        None => None,
                    }
                },
                _ => {
                    if last {
                        let mut a: Vec<Json> = Vec::new();
                        while a.len() < idx
                            invariant
                                a@.len() <= idx,
                                forall|k: int| 0 <= k < a@.len() ==> jview(#[trigger] a@[k]) == JsonV::Null,
                            decreases idx - a.len(),
                        {
                            a.push(Json::Null);
                        }
                        a.push(val.clone());
                        assert(jviews(a@) =~= Seq::new(
                            (idx + 1) as nat,
                            |k: int|
                                if k == idx {
                                    jview(*val)
                                } else {
                                    JsonV::Null
                                },
                        ));
                        Some(Json::Array(a))
                    } else {
                        None
                    }
                },
            }
        },
        JsonKey::Key(k) => {
            let kc = chars_of(k.as_str());
            assert(keys@.map_values(|k: JsonKey| key_view(k))[d as int] == KeyView::Key(kc@));
            match j {
                Json::Object(mut o) => {
                    let ghost es = jentries(o@);
                    proof {
                        lemma_key_pos_bounds(es, kc@);
                    }
                    let child = match obj_find(&o, &kc) {
                        Some(i) => o[i].1.clone(),
                        None => if last {
                            val.clone()
                        } else {
                            Json::Object(Vec::new())
                        },
                    };
                    proof {
                        if key_pos(es, kc@) < 0 && !last {
                            assert(jentries(Seq::<(String, Json)>::empty()) =~= Seq::<(Seq<char>, JsonV)>::empty());
                        }
                    }
                    match pave_rec(child, keys, d + 1, val) {
                        Some(c2) => {
                            let kk = k.clone();
                            assert(kk@ == kc@);
                            obj_set(&mut o, kk, c2);
                            assert(pave_spec(jview(j), p, jview(*val)) == Some(JsonV::Object(set_key(es, kc@, jview(c2)))));
                            Some(Json::Object(o))
                        },
                        None => None,
                    }
                },
                _ => {
                    if last {
                        let mut o: Vec<(String, Json)> = Vec::new();
                        o.push((k.clone(), val.clone()));
                        assert(jentries(o@) =~= seq![(kc@, jview(*val))]);
                        Some(Json::Object(o))
                    } else {
                        None
                    }
                },
            }
        },
    }
}

impl JSPath {
    /// Sets `val` at this path, creating the objects and array slots that are
    /// missing on the way.
    pub fn pave(&self, json: &mut Json, val: Json) -> (r: Result<(), ProgramError>)
        requires
            indices_bounded(self@),
        ensures
            r is Ok <==> pave_spec(jview(*old(json)), self@, jview(val)) is Some,
            r is Ok ==> Some(jview(*final(json))) == pave_spec(jview(*old(json)), self@, jview(val)),
            r matches Err(e) ==> (e matches ProgramError::Processing(m) && m@ == "Invalid path: "@
                + path_text(self@)),
    {
        let mut t = Json::Null;
        std::mem::swap(&mut t, json);
        let ghost j0 = jview(t);
        assert(self.0@.map_values(|k: JsonKey| key_view(k)).skip(0) == self@);
        match pave_rec(t, &self.0, 0, &val) {
            Some(x) => {
                *json = x;
                Ok(())
            },
            None => {
                let m = chars_of(self.to_string().as_str());
                Err(processing_error("Invalid path: ", &m))
            },
        }
    }
}


/// A key without `~`, which a pointer would read as an escape.
pub open spec fn tilde_free(k: KeyView) -> bool {
    match k {
        KeyView::Key(s) => !s.contains('~'),
        KeyView::Index(_) => true,
    }
}

proof fn lemma_replace_absent(s: Seq<char>, pat: Seq<char>, rep: Seq<char>)
    requires
        pat.len() > 0,
        !s.contains(pat[0]),
    ensures
        replace_all(s, pat, rep) == s,
    decreases s.len(),
{
    if s.len() > 0 {
        assert(s[0] != pat[0]);
        assert(!crate::text::starts_with(s, pat)) by {
            if crate::text::starts_with(s, pat) {
                assert(s.take(pat.len() as int)[0] == s[0]);
            }
        }
        assert(!s.drop_first().contains(pat[0])) by {
            if s.drop_first().contains(pat[0]) {
                let j = choose|j: int| 0 <= j < s.drop_first().len() && s.drop_first()[j] == pat[0];
                assert(s[j + 1] == pat[0]);
            }
        }
        lemma_replace_absent(s.drop_first(), pat, rep);
        assert(seq![s[0]] + s.drop_first() =~= s);
    }
}

proof fn lemma_unescape_plain(t: Seq<char>)
    requires
        !t.contains('~'),
    ensures
        unescape(t) == t,
{
    lemma_replace_absent(t, seq!['~', '1'], seq!['/']);
    lemma_replace_absent(t, seq!['~', '0'], seq!['~']);
}

proof fn lemma_dec_first(n: nat)
    ensures
        dec_digits(n).len() == 1 <==> n < 10,
        n >= 10 ==> dec_digits(n)[0] != '0',
    decreases n,
{
    if n >= 10 {
        lemma_dec_first(n / 10);
        lemma_dec_digits(n / 10);
        assert(dec_digits(n)[0] == dec_digits(n / 10)[0]);
        if n / 10 < 10 {
            lemma_dec_char((n / 10) as int);
            let c = crate::text::dec_char((n / 10) as int);
            assert(c as u32 == 48 + n / 10);
        }
    }
}

/// The token of an index reads back as that index.
proof fn lemma_index_token(i: usize)
    ensures
        parse_index(unescape(dec_digits(i as nat))) == Some(i as int),
{
    let d = dec_digits(i as nat);
    lemma_dec_digits(i as nat);
    lemma_dec_first(i as nat);
    lemma_key_text_reads_back(KeyView::Index(i));
    lemma_unescape_plain(d);
    assert(!d.contains('~')) by {
        if d.contains('~') {
            let j = choose|j: int| 0 <= j < d.len() && d[j] == '~';
            assert(crate::text::is_digit(d[j]));
        }
    }
    lemma_dec_char(0);
    if i as nat >= 10 {
        assert(d[0] != '0');
    }
    assert(crate::text::all_digits(d));
}

proof fn lemma_pave_follow(j: JsonV, p: Seq<KeyView>, v: JsonV, out: JsonV)
    requires
        forall|i: int| 0 <= i < p.len() ==> tilde_free(#[trigger] p[i]),
        pave_spec(j, p, v) == Some(out),
    ensures
        follow(out, p.map_values(|k: KeyView| key_text(k))) == Some(v),
    decreases p.len(),
{
    let toks = p.map_values(|k: KeyView| key_text(k));
    if p.len() > 0 {
        let rest = p.drop_first();
        assert(toks.drop_first() =~= rest.map_values(|k: KeyView| key_text(k)));
        assert(forall|i: int| 0 <= i < rest.len() ==> rest[i] == p[i + 1]);
        let last = p.len() == 1;
        match p[0] {
            KeyView::Index(idx) => {
                lemma_index_token(idx);
                assert(toks[0] == dec_digits(idx as nat));
                match j {
                    JsonV::Array(a) => {
                        let a2 = grown(a, idx as int, if last { v } else { JsonV::Null });
                        let c = pave_spec(a2[idx as int], rest, v)->0;
                        lemma_pave_follow(a2[idx as int], rest, v, c);
                        assert(out == JsonV::Array(a2.update(idx as int, c)));
                        assert(token_child(out, toks[0]) == Some(c));
                    },
                    _ => {
                        assert(last);
                        assert(rest.len() == 0);
                        assert(token_child(out, toks[0]) == Some(v));
                    },
                }
            },
            KeyView::Key(k) => {
                lemma_unescape_plain(k);
                assert(toks[0] == k);
                match j {
                    JsonV::Object(es) => {
                        let child = if key_pos(es, k) >= 0 {
                            es[key_pos(es, k)].1
                        } else if last {
                            v
                        } else {
                            JsonV::Object(Seq::empty())
                        };
                        let c = pave_spec(child, rest, v)->0;
                        lemma_pave_follow(child, rest, v, c);
                        law_set_then_get(es, k, c, k);
                        assert(token_child(out, toks[0]) == Some(c));
                    },
                    _ => {
                        assert(last);
                        assert(rest.len() == 0);
                        assert(get_key(seq![(k, v)], k) == Some(v));
                        assert(token_child(out, toks[0]) == Some(v));
                    },
                }
            },
        }
    }
}

/// Paving a value at a path and then reading the path gives the value
/// back, for a path whose keys hold no `/` and no `~`.
pub proof fn law_pave_then_traverse(j: JsonV, p: Seq<KeyView>, v: JsonV)
    requires
        forall|i: int| 0 <= i < p.len() ==> slash_free(#[trigger] p[i]) && tilde_free(p[i]),
        pave_spec(j, p, v) is Some,
    ensures
        traverse_spec(pave_spec(j, p, v)->0, p) == Some(v),
{
    let out = pave_spec(j, p, v)->0;
    lemma_pave_follow(j, p, v, out);
    if p.len() > 0 {
        lemma_split_texts(p);
        assert(pointer_tokens(p) =~= p.map_values(|k: KeyView| key_text(k)));
    } else {
        assert(pointer_tokens(p) =~= p.map_values(|k: KeyView| key_text(k)));
    }
}

/// Paving a value at a path read from text, and then reading that path,
/// gives the value back, for text with no `~` and no blank piece between
/// separators.
pub proof fn law_pave_parsed_then_traverse(s: Seq<char>, j: JsonV, v: JsonV)
    requires
        no_blank_segment(s),
        !s.contains('~'),
        pave_spec(j, parse_path(s), v) is Some,
    ensures
        traverse_spec(pave_spec(j, parse_path(s), v)->0, parse_path(s)) == Some(v),
{
    let p = parse_path(s);
    law_parse_text_round_trip(s);
    lemma_split_no_sep(s, '/');
    lemma_parsed_tilde_free(split_seq(s, '/'), s);
    law_pave_then_traverse(j, p, v);
}

proof fn lemma_parsed_tilde_free(segs: Seq<Seq<char>>, s: Seq<char>)
    requires
        forall|i: int| 0 <= i < segs.len() ==> !(#[trigger] segs[i]).contains('~'),
    ensures
        forall|i: int| 0 <= i < path_keys(segs).len() ==> tilde_free(#[trigger] path_keys(segs)[i]),
    decreases segs.len(),
{
    if segs.len() > 0 {
        let d = segs.drop_last();
        assert forall|i: int| 0 <= i < d.len() implies !(#[trigger] d[i]).contains('~') by {
            assert(d[i] == segs[i]);
        }
        lemma_parsed_tilde_free(d, s);
        let l = segs.last();
        if l.len() > 0 {
            lemma_trim_twice(l);
            assert(!segs[segs.len() - 1].contains('~'));
            let r = path_keys(segs);
            assert forall|i: int| 0 <= i < r.len() implies tilde_free(#[trigger] r[i]) by {
                if i < r.len() - 1 {
                    assert(r[i] == path_keys(d)[i]);
                }
            }
        }
    }
}

} // verus!

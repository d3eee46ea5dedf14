//! Comparing two theme files key by key.
use vstd::prelude::*;
use crate::text::{
    chars_of, string_of, to_lower, trim_seq, lead_white, trail_white, find_seq, starts_with,
    ends_with, is_white, split_once,
};
use crate::text::{dec_digits, fmt_dec, append_chars, append_str, split_seq, split_char, trim, skip_chars, chars_eq};
use crate::color::{ColorSpace, color_text, color_text_ok, color_form, color_parse_fails};
use crate::json::{
    Json, JsonV, jview, jviews, jentries, potential_var_spec, get_key, key_pos, obj_find,
    lemma_key_pos_bounds, json_eq, key_lt, key_less,
};
use crate::parsing::{
    ParsedValue, value_text_ok, value_from, parse_var, var_split, pv_eq, json_ok, lemma_all_ok,
    lemma_entries_ok, strings_view, clone_strings,
};

verus! {

/// The text standing for a key that does not exist.
pub open spec fn dne() -> Seq<char> {
    seq!['D', 'N', 'E']
}

proof fn lemma_dne_trim()
    ensures
        trim_seq(dne()) == dne(),
{
    assert(!is_white('D'));
    assert(!is_white('E'));
    assert(lead_white(dne()) == 0);
    assert(dne().skip(0) == dne());
    assert(dne().last() == 'E');
    assert(trail_white(dne()) == 0);
    assert(dne().take(3) == dne());
}

proof fn lemma_no_pair(s: Seq<char>, c: char)
    requires
        forall|i: int| 0 <= i < s.len() ==> s[i] != c,
    ensures
        find_seq(s, seq![c, c]) == -1,
    decreases s.len(),
{
    if s.len() >= 2 {
        assert(s.take(2)[0] != seq![c, c][0]);
    }
    if s.len() > 0 {
        lemma_no_pair(s.drop_first(), c);
    }
}

/// `"DNE"` as JSON, and what it reads as.
fn dne_value<S: ColorSpace>(space: &S) -> (r: (Json, ParsedValue))
    ensures
        jview(r.0) == JsonV::Str(dne()),
        value_from(jview(r.0), r.1),
        value_text_ok(dne()),
{
    let s = "DNE";
    proof {
        reveal_strlit("DNE");
        assert(s@ =~= dne());
        lemma_dne_trim();
    }
    let lowered = to_lower(s);
    proof {
        assert(lowered@ =~= seq!['d', 'n', 'e']);
        assert(color_text(s@) == seq!['d', 'n', 'e']);
        assert(!ends_with(seq!['d', 'n', 'e'], seq![')'])) by {
            assert(seq!['d', 'n', 'e'].skip(2) =~= seq!['e']);
            assert(seq!['e'][0] != seq![')'][0]);
        }
        assert(!starts_with(seq!['d', 'n', 'e'], seq!['#'])) by {
            assert(seq!['d', 'n', 'e'].take(1) =~= seq!['d']);
            assert(seq!['d'][0] != seq!['#'][0]);
        }
        assert(color_text_ok(s@));
        assert(color_form(s@) is Err);
        assert(color_parse_fails(s@));
        lemma_no_pair(dne(), '.');
        lemma_no_pair(dne(), ':');
        assert(var_split(s@) is None);
        assert(!potential_var_spec(s@));
        assert(value_text_ok(s@));
    }
    let j = Json::String(s.to_string());
    let p = match ParsedValue::from_value(&j, space) {
        Ok(p) => p,
        Err(_) => ParsedValue::Null,
    };
    (j, p)
}

/// A compared pair of values that are not both objects or both arrays:
/// where it is, and the two values.
pub type Leaf = (Seq<char>, JsonV, JsonV);

pub open spec fn dne_j() -> JsonV {
    JsonV::Str(dne())
}

/// The text after `$::` when the first element of the array is such a
/// string: the array is then special, its objects matched by keys.
pub open spec fn special_text(a: Seq<JsonV>) -> Option<Seq<char>> {
    if a.len() > 0 && a[0] is Str && starts_with(a[0]->Str_0, seq!['$', ':', ':']) {
        Some(a[0]->Str_0.skip(3))
    } else {
        None
    }
}

/// The trimmed, nonempty pieces.
pub open spec fn key_names(ps: Seq<Seq<char>>) -> Seq<Seq<char>>
    decreases ps.len(),
{
    if ps.len() == 0 {
        Seq::empty()
    } else {
        let r = key_names(ps.drop_last());
        let t = trim_seq(ps.last());
        if t.len() == 0 {
            r
        } else {
            r.push(t)
        }
    }
}

/// The keys listed by a special array (`$::name,id`), none otherwise.
pub open spec fn special_keys(a: Seq<JsonV>) -> Seq<Seq<char>> {
    match special_text(a) {
        Some(t) => key_names(split_seq(t, ',')),
        None => Seq::empty(),
    }
}

/// The value of field `k` of `x`, or `miss` when `x` is not an object or
/// lacks it.
pub open spec fn field_or(x: JsonV, k: Seq<char>, miss: JsonV) -> JsonV {
    match x {
        JsonV::Object(o) => match get_key(o, k) {
            Some(v) => v,
            None => miss,
        },
        _ => miss,
    }
}

/// Two elements of special arrays match: one of the keys has equal values.
pub open spec fn keys_match(x: JsonV, y: JsonV, keys: Seq<Seq<char>>, miss: JsonV) -> bool {
    exists|i: int| 0 <= i < keys.len() && field_or(x, #[trigger] keys[i], miss) == field_or(y, keys[i], miss)
}

/// Index of the first element of `v` from `j` on that matches `x` (and is
/// an object, when `need_obj`), or -1.
pub open spec fn first_found(
    x: JsonV,
    v: Seq<JsonV>,
    keys: Seq<Seq<char>>,
    j: int,
    need_obj: bool,
    miss: JsonV,
) -> int
    decreases v.len() - j,
{
    if j < 0 || j >= v.len() {
        -1
    } else if (!need_obj || v[j] is Object) && keys_match(x, v[j], keys, miss) {
        j
    } else {
        first_found(x, v, keys, j + 1, need_obj, miss)
    }
}

pub open spec fn child_prefix(prefix: Seq<char>, key: Seq<char>) -> Seq<char> {
    prefix + seq!['/'] + key
}

/// The leaves compared, and the keys counted, by `json_deep_diff`.
pub open spec fn diff_walk(d1: JsonV, d2: JsonV, prefix: Seq<char>) -> (Seq<Leaf>, nat)
    decreases d1, 0int,
{
    match (d1, d2) {
        (JsonV::Object(m1), JsonV::Object(m2)) => diff_obj(m1, m2, prefix, m1.len() as int),
        (JsonV::Array(v1), JsonV::Array(v2)) => diff_arr(v1, v2, prefix, v1.len() - arr_off(v1)),
        _ => (seq![(prefix, d1, d2)], 0),
    }
}

/// The first `n` entries of `m1` compared with `m2`.
pub open spec fn diff_obj(m1: Seq<(Seq<char>, JsonV)>, m2: Seq<(Seq<char>, JsonV)>, prefix: Seq<char>, n: int) -> (
    Seq<Leaf>,
    nat,
)
    decreases m1, n,
{
    if n <= 0 || n > m1.len() {
        (Seq::empty(), 0)
    } else {
        let (l, c) = diff_obj(m1, m2, prefix, n - 1);
        let e = m1[n - 1];
        let y = match get_key(m2, e.0) {
            Some(v) => v,
            None => dne_j(),
        };
        proof {
            assert(decreases_to!(m1 => m1[n - 1]));
        }
        let (l2, c2) = diff_walk(e.1, y, child_prefix(prefix, e.0));
        (l + l2, c + 1 + c2)
    }
}

pub open spec fn arr_off(v: Seq<JsonV>) -> int {
    if special_text(v) is Some {
        1
    } else {
        0
    }
}

/// The elements of `v1` (after a special marker) up to `n` compared with
/// `v2`: by index, or in special arrays with the first matching object.
pub open spec fn diff_arr(v1: Seq<JsonV>, v2: Seq<JsonV>, prefix: Seq<char>, n: int) -> (Seq<Leaf>, nat)
    decreases v1, n,
{
    let o1 = arr_off(v1);
    let o2 = arr_off(v2);
    if n <= 0 || o1 + n > v1.len() {
        (Seq::empty(), 0)
    } else {
        let (l, c) = diff_arr(v1, v2, prefix, n - 1);
        let i = n - 1;
        let x = v1[o1 + i];
        let p = child_prefix(prefix, dec_digits(i as nat));
        proof {
            assert(decreases_to!(v1 => v1[o1 + i]));
        }
        if special_text(v1) is Some || special_text(v2) is Some {
            let keys = special_keys(v1) + special_keys(v2);
            let j = first_found(x, v2, keys, o2, true, dne_j());
            if !(x is Object) || j < 0 {
                (l, c)
            } else {
                let (l2, c2) = diff_walk(x, v2[j], p);
                (l + l2, c + 1 + c2)
            }
        } else {
            let y = if i < v2.len() {
                v2[i]
            } else {
                dne_j()
            };
            let (l2, c2) = diff_walk(x, y, p);
            (l + l2, c + 1 + c2)
        }
    }
}

/// A value with no special arrays and no key twice in an object.
pub open spec fn plain_json(d: JsonV) -> bool
    decreases d, 1int,
{
    match d {
        JsonV::Object(m) => keys_apart(m) && plain_entries(m, m.len() as int),
        JsonV::Array(a) => special_text(a) is None && plain_items(a, a.len() as int),
        _ => true,
    }
}

pub open spec fn keys_apart(m: Seq<(Seq<char>, JsonV)>) -> bool {
    forall|i: int, j: int| 0 <= i < j < m.len() ==> (#[trigger] m[i]).0 != (#[trigger] m[j]).0
}

/// The first `n` values of `m` are plain.
pub open spec fn plain_entries(m: Seq<(Seq<char>, JsonV)>, n: int) -> bool
    decreases m, n,
{
    if n <= 0 || n > m.len() {
        true
    } else {
        proof {
            assert(decreases_to!(m => m[n - 1]));
        }
        plain_entries(m, n - 1) && plain_json(m[n - 1].1)
    }
}

/// The first `n` items of `a` are plain.
pub open spec fn plain_items(a: Seq<JsonV>, n: int) -> bool
    decreases a, n,
{
    if n <= 0 || n > a.len() {
        true
    } else {
        proof {
            assert(decreases_to!(a => a[n - 1]));
        }
        plain_items(a, n - 1) && plain_json(a[n - 1])
    }
}

/// The members and items of a value, counted at every depth.
pub open spec fn nodes(d: JsonV) -> nat
    decreases d, 1int,
{
    match d {
        JsonV::Object(m) => obj_nodes(m, m.len() as int),
        JsonV::Array(a) => arr_nodes(a, a.len() as int),
        _ => 0,
    }
}

pub open spec fn obj_nodes(m: Seq<(Seq<char>, JsonV)>, n: int) -> nat
    decreases m, n,
{
    if n <= 0 || n > m.len() {
        0
    } else {
        proof {
            assert(decreases_to!(m => m[n - 1]));
        }
        obj_nodes(m, n - 1) + 1 + nodes(m[n - 1].1)
    }
}

pub open spec fn arr_nodes(a: Seq<JsonV>, n: int) -> nat
    decreases a, n,
{
    if n <= 0 || n > a.len() {
        0
    } else {
        proof {
            assert(decreases_to!(a => a[n - 1]));
        }
        arr_nodes(a, n - 1) + 1 + nodes(a[n - 1])
    }
}

/// Every leaf meets a value with itself.
pub open spec fn self_leaves(ls: Seq<Leaf>) -> bool {
    forall|i: int| 0 <= i < ls.len() ==> (#[trigger] ls[i]).1 == ls[i].2
}

/// Walking a plain value against itself, every leaf compares a value with
/// itself (nothing is missing on either side, and no two different values
/// meet), and the keys counted are the value's members and items at every
/// depth.
pub proof fn law_walk_self(d: JsonV, p: Seq<char>)
    requires
        plain_json(d),
    ensures
        self_leaves(diff_walk(d, d, p).0),
        diff_walk(d, d, p).1 == nodes(d),
    decreases d, 0int,
{
    match d {
        JsonV::Object(m) => {
            assert(decreases_to!(d => m));
            lemma_obj_self(m, p, m.len() as int);
        },
        JsonV::Array(a) => {
            assert(decreases_to!(d => a));
            lemma_arr_self(a, p, a.len() as int);
        },
        _ => {},
    }
}

proof fn lemma_obj_self(m: Seq<(Seq<char>, JsonV)>, p: Seq<char>, n: int)
    requires
        keys_apart(m),
        plain_entries(m, n),
        0 <= n <= m.len(),
    ensures
        self_leaves(diff_obj(m, m, p, n).0),
        diff_obj(m, m, p, n).1 == obj_nodes(m, n),
    decreases m, n,
{
    if n > 0 {
        lemma_obj_self(m, p, n - 1);
        let e = m[n - 1];
        assert forall|j: int| 0 <= j < n - 1 implies (#[trigger] m[j]).0 != e.0 by {
            assert(m[j].0 != m[n - 1].0);
        }
        crate::json::lemma_key_pos_first(m, e.0, n - 1);
        assert(get_key(m, e.0) == Some(e.1));
        assert(decreases_to!(m => m[n - 1]));
        law_walk_self(e.1, child_prefix(p, e.0));
        let (l, c) = diff_obj(m, m, p, n - 1);
        let (l2, c2) = diff_walk(e.1, e.1, child_prefix(p, e.0));
        assert(diff_obj(m, m, p, n).0 == l + l2);
        assert forall|i: int| 0 <= i < (l + l2).len() implies (#[trigger] (l + l2)[i]).1 == (l + l2)[i].2 by {
            if i < l.len() {
                assert((l + l2)[i] == l[i]);
            } else {
                assert((l + l2)[i] == l2[i - l.len()]);
            }
        }
    }
}

proof fn lemma_arr_self(a: Seq<JsonV>, p: Seq<char>, n: int)
    requires
        special_text(a) is None,
        plain_items(a, n),
        0 <= n <= a.len(),
    ensures
        self_leaves(diff_arr(a, a, p, n).0),
        diff_arr(a, a, p, n).1 == arr_nodes(a, n),
    decreases a, n,
{
    if n > 0 {
        lemma_arr_self(a, p, n - 1);
        let i = n - 1;
        let x = a[i];
        let q = child_prefix(p, dec_digits(i as nat));
        assert(decreases_to!(a => a[i]));
        law_walk_self(x, q);
        let (l, c) = diff_arr(a, a, p, n - 1);
        let (l2, c2) = diff_walk(x, x, q);
        assert(diff_arr(a, a, p, n).0 == l + l2);
        assert forall|k: int| 0 <= k < (l + l2).len() implies (#[trigger] (l + l2)[k]).1 == (l + l2)[k].2 by {
            if k < l.len() {
                assert((l + l2)[k] == l[k]);
            } else {
                assert((l + l2)[k] == l2[k - l.len()]);
            }
        }
    }
}

/// The verdict on a leaf agrees with some reading of its two values.
pub open spec fn leaf_verdict(a: JsonV, b: JsonV, differ: bool) -> bool {
    exists|p: ParsedValue, q: ParsedValue|
        #[trigger] value_from(a, p) && #[trigger] value_from(b, q) && differ == !pv_eq(p, q)
}

/// The places of the leaves the mask picks.
pub open spec fn picked(ls: Seq<Leaf>, mask: Seq<bool>) -> Seq<Seq<char>>
    decreases ls.len(),
{
    if ls.len() == 0 || mask.len() != ls.len() {
        Seq::empty()
    } else {
        let r = picked(ls.drop_last(), mask.drop_last());
        if mask.last() {
            r.push(ls.last().0)
        } else {
            r
        }
    }
}

pub open spec fn verdicts(ls: Seq<Leaf>, mask: Seq<bool>) -> bool {
    mask.len() == ls.len() && forall|i: int|
        0 <= i < ls.len() ==> leaf_verdict(ls[i].1, ls[i].2, #[trigger] mask[i])
}

/// `d` lists, in order, the places of the leaves whose values differ.
pub open spec fn diff_ok(d: Seq<Seq<char>>, ls: Seq<Leaf>) -> bool {
    exists|mask: Seq<bool>| #[trigger] verdicts(ls, mask) && picked(ls, mask) == d
}

/// A value whose reading does not go through the color conversions: no
/// text that reads as a color or as a change of one.
pub open spec fn plain_reading(j: JsonV) -> bool {
    match j {
        JsonV::Str(s) => crate::json::potential_var_spec(s) || (crate::color::color_parse_fails(s) && parse_var(s) is Err),
        _ => true,
    }
}

proof fn lemma_readings_agree(j: JsonV, a: ParsedValue, b: ParsedValue)
    requires
        plain_reading(j),
        value_from(j, a),
        value_from(j, b),
    ensures
        pv_eq(a, b),
{
}

proof fn lemma_picked_none(ls: Seq<Leaf>, mask: Seq<bool>)
    requires
        mask.len() == ls.len(),
        forall|i: int| 0 <= i < mask.len() ==> !#[trigger] mask[i],
    ensures
        picked(ls, mask).len() == 0,
    decreases ls.len(),
{
    if ls.len() > 0 {
        assert forall|i: int| 0 <= i < mask.drop_last().len() implies !#[trigger] mask.drop_last()[i] by {
            assert(mask.drop_last()[i] == mask[i]);
        }
        lemma_picked_none(ls.drop_last(), mask.drop_last());
        assert(!mask[mask.len() - 1]);
    }
}

/// Comparing a plain value with itself, where every leaf reads without the
/// color conversions, finds no difference.
pub proof fn law_self_diff_empty(d: JsonV, p: Seq<char>, ds: Seq<Seq<char>>)
    requires
        plain_json(d),
        forall|i: int| 0 <= i < diff_walk(d, d, p).0.len() ==> plain_reading((#[trigger] diff_walk(d, d, p).0[i]).1),
        diff_ok(ds, diff_walk(d, d, p).0),
    ensures
        ds.len() == 0,
{
    let ls = diff_walk(d, d, p).0;
    law_walk_self(d, p);
    let mask = choose|mask: Seq<bool>| #[trigger] verdicts(ls, mask) && picked(ls, mask) == ds;
    assert forall|i: int| 0 <= i < mask.len() implies !#[trigger] mask[i] by {
        assert(leaf_verdict(ls[i].1, ls[i].2, mask[i]));
        let (a, b) = choose|a: ParsedValue, b: ParsedValue|
            #[trigger] value_from(ls[i].1, a) && #[trigger] value_from(ls[i].2, b) && mask[i] == !pv_eq(a, b);
        assert(plain_reading(ls[i].1));
        lemma_readings_agree(ls[i].1, a, b);
    }
    lemma_picked_none(ls, mask);
}

proof fn lemma_picked_concat(l1: Seq<Leaf>, m1: Seq<bool>, l2: Seq<Leaf>, m2: Seq<bool>)
    requires
        m1.len() == l1.len(),
        m2.len() == l2.len(),
    ensures
        picked(l1 + l2, m1 + m2) == picked(l1, m1) + picked(l2, m2),
    decreases l2.len(),
{
    if l2.len() == 0 {
        assert(l1 + l2 == l1);
        assert(m1 + m2 == m1);
    } else {
        lemma_picked_concat(l1, m1, l2.drop_last(), m2.drop_last());
        assert((l1 + l2).drop_last() == l1 + l2.drop_last());
        assert((m1 + m2).drop_last() == m1 + m2.drop_last());
    }
}

proof fn lemma_diff_concat(d1: Seq<Seq<char>>, l1: Seq<Leaf>, d2: Seq<Seq<char>>, l2: Seq<Leaf>)
    requires
        diff_ok(d1, l1),
        diff_ok(d2, l2),
    ensures
        diff_ok(d1 + d2, l1 + l2),
{
    let m1 = choose|m: Seq<bool>| #[trigger] verdicts(l1, m) && picked(l1, m) == d1;
    let m2 = choose|m: Seq<bool>| #[trigger] verdicts(l2, m) && picked(l2, m) == d2;
    lemma_picked_concat(l1, m1, l2, m2);
    let m = m1 + m2;
    let l = l1 + l2;
    assert forall|i: int| 0 <= i < l.len() implies leaf_verdict(l[i].1, l[i].2, #[trigger] m[i]) by {
        if i < l1.len() {
            assert(leaf_verdict(l1[i].1, l1[i].2, m1[i]));
        } else {
            assert(leaf_verdict(l2[i - l1.len()].1, l2[i - l1.len()].2, m2[i - l1.len()]));
        }
    }
    assert(verdicts(l, m));
}

proof fn lemma_diff_empty()
    ensures
        diff_ok(Seq::empty(), Seq::empty()),
{
    assert(verdicts(Seq::empty(), Seq::<bool>::empty()));
}

proof fn lemma_obj_mono(m1: Seq<(Seq<char>, JsonV)>, m2: Seq<(Seq<char>, JsonV)>, p: Seq<char>, n: int, k: int)
    requires
        0 <= n <= k <= m1.len(),
    ensures
        diff_obj(m1, m2, p, n).1 <= diff_obj(m1, m2, p, k).1,
    decreases k - n,
{
    if n < k {
        lemma_obj_mono(m1, m2, p, n, k - 1);
    }
}

proof fn lemma_arr_mono(v1: Seq<JsonV>, v2: Seq<JsonV>, p: Seq<char>, n: int, k: int)
    requires
        0 <= n <= k,
        arr_off(v1) + k <= v1.len(),
    ensures
        diff_arr(v1, v2, p, n).1 <= diff_arr(v1, v2, p, k).1,
    decreases k - n,
{
    if n < k {
        lemma_arr_mono(v1, v2, p, n, k - 1);
    }
}

fn key_names_exec(t: &Vec<char>) -> (r: Vec<String>)
    ensures
        strings_view(r@) == key_names(split_seq(t@, ',')),
{
    let pieces = split_char(t, ',');
    let ghost ps = split_seq(t@, ',');
    let mut r: Vec<String> = Vec::new();
    for i in 0..pieces.len()
        invariant
            pieces@.len() == ps.len(),
            ps == split_seq(t@, ','),
            forall|j: int| 0 <= j < pieces@.len() ==> (#[trigger] pieces@[j])@ == ps[j],
            strings_view(r@) == key_names(ps.take(i as int)),
    {
        assert(ps.take(i + 1).drop_last() == ps.take(i as int));
        assert(ps.take(i + 1).last() == ps[i as int]);
        let k = trim(&pieces[i]);
        if k.len() > 0 {
            let ghost before = r@;
            r.push(string_of(&k));
            assert(strings_view(r@) =~= strings_view(before).push(k@));
        }
    }
    assert(ps.take(pieces.len() as int) == ps);
    r
}

/// The keys of a special array (`["$::name,id", ...]`), or `None` for an
/// ordinary array.
pub fn special_keys_exec(v: &Vec<Json>) -> (r: Option<Vec<String>>)
    ensures
        r is Some <==> special_text(jviews(v@)) is Some,
        r matches Some(k) ==> strings_view(k@) == special_keys(jviews(v@)),
{
    if v.len() == 0 {
        return None;
    }
    assert(jviews(v@)[0] == jview(v@[0]));
    match &v[0] {
        Json::String(s) => {
            let c = chars_of(s.as_str());
            let marked = c.len() >= 3 && c[0] == '$' && c[1] == ':' && c[2] == ':';
            proof {
                if c@.len() >= 3 {
                    if marked {
                        assert(c@.take(3) =~= seq!['$', ':', ':']);
                    } else {
                        assert(c@.take(3)[0] != seq!['$', ':', ':'][0] || c@.take(3)[1] != seq![
                            '$',
                            ':',
                            ':',
                        ][1] || c@.take(3)[2] != seq!['$', ':', ':'][2]);
                    }
                }
            }
            if marked {
                let rest = skip_chars(&c, 3);
                Some(key_names_exec(&rest))
            } else {
                None
            }
        },
        _ => None,
    }
}

fn field_or_exec<'a>(x: &'a Json, k: &Vec<char>, miss: &'a Json) -> (r: &'a Json)
    ensures
        jview(*r) == field_or(jview(*x), k@, jview(*miss)),
{
    match x {
        Json::Object(o) => match obj_find(o, k) {
            Some(i) => {
                proof {
                    lemma_key_pos_bounds(jentries(o@), k@);
                }
                assert(jentries(o@)[i as int].1 == jview(o@[i as int].1));
                &o[i].1
            },
            None => miss,
        },
        _ => miss,
    }
}

fn keys_match_exec(x: &Json, y: &Json, keys: &Vec<String>, miss: &Json) -> (r: bool)
    ensures
        r == keys_match(jview(*x), jview(*y), strings_view(keys@), jview(*miss)),
{
    let ghost ks = strings_view(keys@);
    for i in 0..keys.len()
        invariant
            ks == strings_view(keys@),
            forall|j: int|
                0 <= j < i ==> field_or(jview(*x), #[trigger] ks[j], jview(*miss)) != field_or(
                    jview(*y),
                    ks[j],
                    jview(*miss),
                ),
    {
        let k = chars_of(keys[i].as_str());
        let a = field_or_exec(x, &k, miss);
        let b = field_or_exec(y, &k, miss);
        if json_eq(a, b) {
            assert(field_or(jview(*x), ks[i as int], jview(*miss)) == field_or(jview(*y), ks[i as int], jview(*miss)));
            return true;
        }
    }
    false
}

pub(crate) fn first_found_exec(
    x: &Json,
    v: &Vec<Json>,
    keys: &Vec<String>,
    start: usize,
    need_obj: bool,
    miss: &Json,
) -> (r: Option<usize>)
    ensures
        match r {
            Some(j) => first_found(jview(*x), jviews(v@), strings_view(keys@), start as int, need_obj, jview(*miss)) == j,
            None => first_found(jview(*x), jviews(v@), strings_view(keys@), start as int, need_obj, jview(*miss)) < 0,
        },
{
    let ghost xv = jview(*x);
    let ghost vv = jviews(v@);
    let ghost ks = strings_view(keys@);
    let ghost mv = jview(*miss);
    let mut j = start;
    while j < v.len()
        invariant
            start <= j,
            xv == jview(*x),
            vv == jviews(v@),
            ks == strings_view(keys@),
            mv == jview(*miss),
            first_found(xv, vv, ks, start as int, need_obj, mv) == first_found(xv, vv, ks, j as int, need_obj, mv),
        decreases v.len() - j,
    {
        assert(jviews(v@)[j as int] == jview(v@[j as int]));
        let obj = match &v[j] {
            Json::Object(_) => true,
            _ => false,
        };
        if (!need_obj || obj) && keys_match_exec(x, &v[j], keys, miss) {
            return Some(j);
        }
        j += 1;
    }
    None
}

/// The keys that differ between two values, and how many keys were
/// compared.
#[derive(Debug)]
pub struct DiffInfo {
    pub diffs: Vec<String>,
    pub total_keys: usize,
}

fn child_prefix_exec(prefix: &Vec<char>, key: &Vec<char>) -> (r: String)
    ensures
        r@ == child_prefix(prefix@, key@),
{
    let mut v: Vec<char> = Vec::new();
    append_chars(&mut v, prefix);
    v.push('/');
    append_chars(&mut v, key);
    assert(v@ =~= child_prefix(prefix@, key@));
    string_of(&v)
}

pub(crate) fn concat_keys(a: &Option<Vec<String>>, b: &Option<Vec<String>>) -> (r: Vec<String>)
    ensures
        strings_view(r@) == (match a {
            Some(k) => strings_view(k@),
            None => Seq::empty(),
        }) + (match b {
            Some(k) => strings_view(k@),
            None => Seq::empty(),
        }),
{
    let mut r: Vec<String> = match a {
        Some(k) => clone_strings(k),
        None => Vec::new(),
    };
    let ghost first = strings_view(r@);
    let n0 = r.len();
    match b {
        Some(k) => {
            for i in 0..k.len()
                invariant
                    r@.len() == n0 + i,
                    n0 == first.len(),
                    forall|j: int| 0 <= j < n0 ==> (#[trigger] r@[j])@ == first[j],
                    forall|j: int| 0 <= j < i ==> (#[trigger] r@[n0 + j])@ == k@[j]@,
            {
                r.push(k[i].clone());
            }
            assert forall|t: int| 0 <= t < r@.len() implies #[trigger] strings_view(r@)[t] == (first
                + strings_view(k@))[t] by {
                if t >= n0 {
                    let j = t - n0;
                    assert(r@[n0 + j]@ == k@[j]@);
                }
            }
            assert(strings_view(r@) =~= first + strings_view(k@));
        },
        None => {
            assert(strings_view(r@) =~= first + Seq::<Seq<char>>::empty());
        },
    }
    r
}

proof fn lemma_leaf(prefix: Seq<char>, a: JsonV, b: JsonV, p: ParsedValue, q: ParsedValue, d: Seq<Seq<char>>)
    requires
        value_from(a, p),
        value_from(b, q),
        d == (if !pv_eq(p, q) {
            seq![prefix]
        } else {
            Seq::empty()
        }),
    ensures
        diff_ok(d, seq![(prefix, a, b)]),
{
    let ls: Seq<Leaf> = seq![(prefix, a, b)];
    let mask = seq![!pv_eq(p, q)];
    assert(leaf_verdict(a, b, mask[0]));
    assert(verdicts(ls, mask));
    assert(ls.drop_last() =~= Seq::<Leaf>::empty());
    assert(mask.drop_last() =~= Seq::<bool>::empty());
    assert(picked(ls.drop_last(), mask.drop_last()) == Seq::<Seq<char>>::empty());
    assert(mask.last() == !pv_eq(p, q));
    assert(ls.last().0 == prefix);
    assert(picked(ls, mask) =~= d);
}

/// Compares `data1` with `data2`: the places under `prefix` where their
/// values differ (as `ParsedValue`s), and `start_keys` plus the number of
/// keys compared. Objects are compared key by key (a missing key reads as
/// `"DNE"`); arrays index by index, or, when one starts with `"$::k1,k2"`,
/// each object with the first object of the other that agrees on one of
/// those keys.
pub fn json_deep_diff<S: ColorSpace>(
    data1: &Json,
    data2: &Json,
    prefix: String,
    start_keys: usize,
    space: &S,
) -> (r: DiffInfo)
    requires
        json_ok(jview(*data1)),
        json_ok(jview(*data2)),
        start_keys + diff_walk(jview(*data1), jview(*data2), prefix@).1 <= usize::MAX,
    ensures
        diff_ok(strings_view(r.diffs@), diff_walk(jview(*data1), jview(*data2), prefix@).0),
        r.total_keys == start_keys + diff_walk(jview(*data1), jview(*data2), prefix@).1,
    decreases data1,
{
    match (data1, data2) {
        (Json::Object(m1), Json::Object(m2)) => {
            assert(decreases_to!(*data1 => (*data1)->Object_0));
            diff_objects(m1, m2, prefix, start_keys, space)
        },
        (Json::Array(v1), Json::Array(v2)) => {
            assert(decreases_to!(*data1 => (*data1)->Array_0));
            diff_arrays(v1, v2, prefix, start_keys, space)
        },
        _ => {
            let p1 = match ParsedValue::from_value(data1, space) {
                Ok(p) => p,
                Err(_) => ParsedValue::Null,
            };
            let p2 = match ParsedValue::from_value(data2, space) {
                Ok(p) => p,
                Err(_) => ParsedValue::Null,
            };
            let ghost pv = prefix@;
            let mut keys: Vec<String> = Vec::new();
            if !p1.eq(&p2) {
                keys.push(prefix);
            }
            proof {
                assert(strings_view(keys@) =~= (if !pv_eq(p1, p2) {
                    seq![pv]
                } else {
                    Seq::empty()
                }));
                lemma_leaf(pv, jview(*data1), jview(*data2), p1, p2, strings_view(keys@));
            }
            DiffInfo { diffs: keys, total_keys: start_keys }
        },
    }
}

#[verifier::rlimit(50)]
fn diff_objects<S: ColorSpace>(
    m1: &Vec<(String, Json)>,
    m2: &Vec<(String, Json)>,
    prefix: String,
    start_keys: usize,
    space: &S,
) -> (r: DiffInfo)
    requires
        json_ok(JsonV::Object(jentries(m1@))),
        json_ok(JsonV::Object(jentries(m2@))),
        start_keys + diff_obj(jentries(m1@), jentries(m2@), prefix@, m1@.len() as int).1 <= usize::MAX,
    ensures
        diff_ok(strings_view(r.diffs@), diff_obj(jentries(m1@), jentries(m2@), prefix@, m1@.len() as int).0),
        r.total_keys == start_keys + diff_obj(jentries(m1@), jentries(m2@), prefix@, m1@.len() as int).1,
    decreases m1,
{
    let (dne_json, _) = dne_value(space);
    let pc = chars_of(prefix.as_str());
    let ghost e1 = jentries(m1@);
    let ghost e2 = jentries(m2@);
    proof {
        lemma_entries_ok(e1);
        lemma_entries_ok(e2);
        lemma_diff_empty();
    }
    let mut keys: Vec<String> = Vec::new();
    assert(strings_view(keys@) =~= Seq::<Seq<char>>::empty());
    let mut total = start_keys;
    for i in 0..m1.len()
        invariant
            e1 == jentries(m1@),
            e2 == jentries(m2@),
            pc@ == prefix@,
            forall|k: int| 0 <= k < e1.len() ==> json_ok(#[trigger] e1[k].1),
            forall|k: int| 0 <= k < e2.len() ==> json_ok(#[trigger] e2[k].1),
            value_text_ok(dne()),
            jview(dne_json) == dne_j(),
            diff_ok(strings_view(keys@), diff_obj(e1, e2, prefix@, i as int).0),
            total == start_keys + diff_obj(e1, e2, prefix@, i as int).1,
            start_keys + diff_obj(e1, e2, prefix@, e1.len() as int).1 <= usize::MAX,
    {
        assert(decreases_to!(*m1 => m1@));
        assert(decreases_to!(m1@ => m1@[i as int]));
        assert(decreases_to!(m1@[i as int] => m1@[i as int].1));
        let kc = chars_of(m1[i].0.as_str());
        assert(e1[i as int] == (kc@, jview(m1@[i as int].1)));
        let val2: &Json = match obj_find(m2, &kc) {
            Some(j) => {
                proof {
                    lemma_key_pos_bounds(e2, kc@);
                }
                assert(e2[j as int].1 == jview(m2@[j as int].1));
                &m2[j].1
            },
            None => &dne_json,
        };
        assert(jview(*val2) == match get_key(e2, kc@) {
            Some(v) => v,
            None => dne_j(),
        });
        proof {
            lemma_obj_mono(e1, e2, prefix@, i + 1, e1.len() as int);
            assert(json_ok(e1[i as int].1));
            if get_key(e2, kc@) is Some {
                lemma_key_pos_bounds(e2, kc@);
                assert(json_ok(e2[key_pos(e2, kc@)].1));
            }
        }
        let next = json_deep_diff(&m1[i].1, val2, child_prefix_exec(&pc, &kc), 1, space);
        let ghost nd = next.diffs@;
        let mut nv = next.diffs;
        let ghost before = keys@;
        keys.append(&mut nv);
        proof {
            assert(strings_view(keys@) =~= strings_view(before) + strings_view(nd));
            lemma_diff_concat(
                strings_view(before),
                diff_obj(e1, e2, prefix@, i as int).0,
                strings_view(nd),
                diff_walk(e1[i as int].1, jview(*val2), child_prefix(prefix@, kc@)).0,
            );
        }
        total = total + next.total_keys;
    }
    DiffInfo { diffs: keys, total_keys: total }
}

#[verifier::rlimit(50)]
fn diff_arrays<S: ColorSpace>(
    v1: &Vec<Json>,
    v2: &Vec<Json>,
    prefix: String,
    start_keys: usize,
    space: &S,
) -> (r: DiffInfo)
    requires
        json_ok(JsonV::Array(jviews(v1@))),
        json_ok(JsonV::Array(jviews(v2@))),
        start_keys + diff_arr(jviews(v1@), jviews(v2@), prefix@, v1@.len() - arr_off(jviews(v1@))).1
            <= usize::MAX,
    ensures
        diff_ok(
            strings_view(r.diffs@),
            diff_arr(jviews(v1@), jviews(v2@), prefix@, v1@.len() - arr_off(jviews(v1@))).0,
        ),
        r.total_keys == start_keys + diff_arr(
            jviews(v1@),
            jviews(v2@),
            prefix@,
            v1@.len() - arr_off(jviews(v1@)),
        ).1,
    decreases v1,
{
    let (dne_json, _) = dne_value(space);
    let pc = chars_of(prefix.as_str());
    let ghost a1 = jviews(v1@);
    let ghost a2 = jviews(v2@);
    proof {
        lemma_all_ok(a1);
        lemma_all_ok(a2);
        lemma_diff_empty();
    }
    let sk1 = special_keys_exec(v1);
    let sk2 = special_keys_exec(v2);
    let special = sk1.is_some() || sk2.is_some();
    let keys_all = concat_keys(&sk1, &sk2);
    assert(strings_view(keys_all@) == special_keys(a1) + special_keys(a2));
    let o1: usize = if sk1.is_some() {
        1
    } else {
        0
    };
    let o2: usize = if sk2.is_some() {
        1
    } else {
        0
    };
    assert(o1 == arr_off(a1) && o2 == arr_off(a2));
    let n = v1.len() - o1;
    let mut keys: Vec<String> = Vec::new();
    assert(strings_view(keys@) =~= Seq::<Seq<char>>::empty());
    let mut total = start_keys;
    for i in 0..n
        invariant
            a1 == jviews(v1@),
            a2 == jviews(v2@),
            pc@ == prefix@,
            n + o1 == v1@.len(),
            o1 == arr_off(a1),
            o2 == arr_off(a2),
            special == (special_text(a1) is Some || special_text(a2) is Some),
            strings_view(keys_all@) == special_keys(a1) + special_keys(a2),
            forall|k: int| 0 <= k < a1.len() ==> json_ok(#[trigger] a1[k]),
            forall|k: int| 0 <= k < a2.len() ==> json_ok(#[trigger] a2[k]),
            value_text_ok(dne()),
            jview(dne_json) == dne_j(),
            diff_ok(strings_view(keys@), diff_arr(a1, a2, prefix@, i as int).0),
            total == start_keys + diff_arr(a1, a2, prefix@, i as int).1,
            start_keys + diff_arr(a1, a2, prefix@, n as int).1 <= usize::MAX,
    {
        assert(decreases_to!(*v1 => v1@));
        assert(decreases_to!(v1@ => v1@[o1 + i]));
        let x = &v1[o1 + i];
        assert(a1[o1 + i] == jview(*x));
        proof {
            lemma_arr_mono(a1, a2, prefix@, i + 1, n as int);
        }
        let p = child_prefix_exec(&pc, &fmt_dec(i));
        let found: Option<&Json> = if special {
            let obj = match x {
                Json::Object(_) => true,
                _ => false,
            };
            if !obj {
                None
            } else {
                match first_found_exec(x, v2, &keys_all, o2, true, &dne_json) {
                    None => None,
                    Some(j) => {
                        proof {
                            lemma_first_found_bounds(a1[o1 + i], a2, special_keys(a1) + special_keys(a2), o2 as int, true, dne_j());
                        }
                        assert(a2[j as int] == jview(v2@[j as int]));
                        Some(&v2[j])
                    },
                }
            }
        } else {
            if i < v2.len() {
                assert(a2[i as int] == jview(v2@[i as int]));
                Some(&v2[i])
            } else {
                Some(&dne_json)
            }
        };
        match found {
            None => {
                assert(diff_arr(a1, a2, prefix@, i + 1) == diff_arr(a1, a2, prefix@, i as int));
            },
            Some(val2) => {
                proof {
                    assert(json_ok(a1[o1 + i]));
                    assert(json_ok(jview(*val2)));
                }
                let next = json_deep_diff(x, val2, p, 1, space);
                let ghost nd = next.diffs@;
                let mut nv = next.diffs;
                let ghost before = keys@;
                keys.append(&mut nv);
                proof {
                    assert(strings_view(keys@) =~= strings_view(before) + strings_view(nd));
                    lemma_diff_concat(
                        strings_view(before),
                        diff_arr(a1, a2, prefix@, i as int).0,
                        strings_view(nd),
                        diff_walk(jview(*x), jview(*val2), child_prefix(prefix@, dec_digits(i as nat))).0,
                    );
                }
                total = total + next.total_keys;
            },
        }
    }
    DiffInfo { diffs: keys, total_keys: total }
}

pub proof fn lemma_first_found_bounds(x: JsonV, v: Seq<JsonV>, keys: Seq<Seq<char>>, j: int, need_obj: bool, miss: JsonV)
    ensures
        first_found(x, v, keys, j, need_obj, miss) >= 0 ==> j <= first_found(x, v, keys, j, need_obj, miss)
            < v.len() && (!need_obj || v[first_found(x, v, keys, j, need_obj, miss)] is Object),
    decreases v.len() - j,
{
    if 0 <= j < v.len() && !((!need_obj || v[j] is Object) && keys_match(x, v[j], keys, miss)) {
        lemma_first_found_bounds(x, v, keys, j + 1, need_obj, miss);
    }
}

pub(crate) proof fn lemma_lt_irrefl(a: Seq<char>)
    ensures
        !key_lt(a, a),
    decreases a.len(),
{
    if a.len() > 0 {
        lemma_lt_irrefl(a.drop_first());
    }
}

pub(crate) proof fn lemma_lt_trans(a: Seq<char>, b: Seq<char>, c: Seq<char>)
    requires
        key_lt(a, b),
        key_lt(b, c),
    ensures
        key_lt(a, c),
    decreases a.len(),
{
    if a.len() > 0 && b.len() > 0 && c.len() > 0 && a[0] == b[0] && b[0] == c[0] {
        lemma_lt_trans(a.drop_first(), b.drop_first(), c.drop_first());
    }
}

proof fn lemma_char_u32(c: char, d: char)
    requires
        c != d,
    ensures
        (c as u32) != (d as u32),
{
    assert((c as int) != (d as int));
    assert((c as u32) as int == c as int);
    assert((d as u32) as int == d as int);
}

pub(crate) proof fn lemma_lt_total(a: Seq<char>, b: Seq<char>)
    ensures
        a == b || key_lt(a, b) || key_lt(b, a),
    decreases a.len(),
{
    if a.len() > 0 && b.len() > 0 && a[0] == b[0] {
        lemma_lt_total(a.drop_first(), b.drop_first());
        if a.drop_first() == b.drop_first() {
            assert(a =~= seq![a[0]] + a.drop_first());
            assert(b =~= seq![b[0]] + b.drop_first());
        }
    } else if a.len() == 0 && b.len() == 0 {
        assert(a =~= b);
    } else if a.len() > 0 && b.len() > 0 {
        lemma_char_u32(a[0], b[0]);
    }
}

pub(crate) proof fn lemma_lt_asym(a: Seq<char>, b: Seq<char>)
    requires
        key_lt(a, b),
    ensures
        !key_lt(b, a),
{
    if key_lt(b, a) {
        lemma_lt_trans(a, b, a);
        lemma_lt_irrefl(a);
    }
}

/// Strictly increasing in the order of `String`.
pub open spec fn sorted_strict(s: Seq<Seq<char>>) -> bool {
    forall|i: int, j: int| 0 <= i < j < s.len() ==> key_lt(#[trigger] s[i], #[trigger] s[j])
}

/// Adds `x` to a strictly sorted list unless it is there already.
pub(crate) fn insert_sorted(v: &mut Vec<String>, x: String)
    requires
        sorted_strict(strings_view(old(v)@)),
    ensures
        sorted_strict(strings_view(final(v)@)),
        strings_view(final(v)@).to_set() == strings_view(old(v)@).to_set().insert(x@),
{
    let ghost s0 = strings_view(v@);
    let xc = chars_of(x.as_str());
    let mut i: usize = 0;
    while i < v.len() && key_less(&chars_of(v[i].as_str()), &xc)
        invariant
            i <= v@.len(),
            s0 == strings_view(v@),
            xc@ == x@,
            forall|j: int| 0 <= j < i ==> key_lt(#[trigger] s0[j], x@),
        decreases v.len() - i,
    {
        i += 1;
    }
    if i < v.len() && chars_eq(&chars_of(v[i].as_str()), &xc) {
        assert(s0.to_set().insert(x@) =~= s0.to_set()) by {
            assert(s0.contains(s0[i as int]));
        }
        return;
    }
    proof {
        if i < v@.len() {
            lemma_lt_total(s0[i as int], x@);
        }
    }
    v.insert(i, x);
    let ghost s1 = strings_view(v@);
    proof {
        assert(s1 =~= s0.insert(i as int, x@));
        assert forall|a: int, b: int| 0 <= a < b < s1.len() implies key_lt(#[trigger] s1[a], #[trigger] s1[b]) by {
            if b < i {
            } else if b == i {
            } else if a < i {
                assert(key_lt(s0[a], s0[b - 1]));
            } else if a == i {
                if b - 1 > i {
                    lemma_lt_trans(x@, s0[i as int], s0[b - 1]);
                }
            } else {
                assert(key_lt(s0[a - 1], s0[b - 1]));
            }
        }
        assert forall|y: Seq<char>| s1.to_set().contains(y) <==> s0.to_set().insert(x@).contains(y) by {
            if s1.contains(y) {
                let k = choose|k: int| 0 <= k < s1.len() && s1[k] == y;
                if k < i {
                    assert(s0[k] == y);
                } else if k > i {
                    assert(s0[k - 1] == y);
                }
            }
            if s0.contains(y) {
                let k = choose|k: int| 0 <= k < s0.len() && s0[k] == y;
                if k < i {
                    assert(s1[k] == y);
                } else {
                    assert(s1[k + 1] == y);
                }
            }
            if y == x@ {
                assert(s1[i as int] == y);
            }
        }
        assert(s1.to_set() =~= s0.to_set().insert(x@));
    }
}

impl DiffInfo {
    /// Both lists of differences together, sorted and without repeats; the
    /// key count is this one's.
    pub fn merge(self, other: Self) -> (r: Self)
        ensures
            sorted_strict(strings_view(r.diffs@)),
            strings_view(r.diffs@).to_set() == strings_view(self.diffs@).to_set() + strings_view(
                other.diffs@,
            ).to_set(),
            r.total_keys == self.total_keys,
    {
        let mut out: Vec<String> = Vec::new();
        assert(strings_view(out@) =~= Seq::<Seq<char>>::empty());
        let ghost a = strings_view(self.diffs@);
        let ghost b = strings_view(other.diffs@);
        for i in 0..self.diffs.len()
            invariant
                a == strings_view(self.diffs@),
                sorted_strict(strings_view(out@)),
                strings_view(out@).to_set() == a.take(i as int).to_set(),
        {
            assert(a.take(i + 1) =~= a.take(i as int).push(a[i as int]));
            proof {
                a.take(i as int).lemma_push_to_set_commute(a[i as int]);
            }
            insert_sorted(&mut out, self.diffs[i].clone());
        }
        assert(a.take(self.diffs.len() as int) == a);
        for i in 0..other.diffs.len()
            invariant
                a == strings_view(self.diffs@),
                b == strings_view(other.diffs@),
                sorted_strict(strings_view(out@)),
                strings_view(out@).to_set() == a.to_set() + b.take(i as int).to_set(),
        {
            assert(b.take(i + 1) =~= b.take(i as int).push(b[i as int]));
            proof {
                b.take(i as int).lemma_push_to_set_commute(b[i as int]);
            }
            insert_sorted(&mut out, other.diffs[i].clone());
            assert(strings_view(out@).to_set() =~= a.to_set() + b.take(i + 1).to_set());
        }
        assert(b.take(other.diffs.len() as int) == b);
        DiffInfo { diffs: out, total_keys: self.total_keys }
    }
}

/// How two themes compare.
#[derive(Debug)]
pub enum Similarity {
    /// The two are the same JSON value (100% similar).
    Identical,
    /// They differ and are not both objects (0% similar).
    Unrelated,
    /// The keys that differ either way, and the number of keys compared.
    Partial(DiffInfo),
}

/// Compares two themes: equal, not both objects, or the differences found
/// walking each against the other from `.`, merged.
pub fn compare_themes<S: ColorSpace>(data1: &Json, data2: &Json, space: &S) -> (r: Similarity)
    requires
        json_ok(jview(*data1)),
        json_ok(jview(*data2)),
        diff_walk(jview(*data1), jview(*data2), seq!['.']).1 <= usize::MAX,
        diff_walk(jview(*data2), jview(*data1), seq!['.']).1 <= usize::MAX,
    ensures
        jview(*data1) == jview(*data2) ==> r is Identical,
        jview(*data1) != jview(*data2) && !(jview(*data1) is Object && jview(*data2) is Object) ==> r is Unrelated,
        jview(*data1) != jview(*data2) && jview(*data1) is Object && jview(*data2) is Object ==> (
        r matches Similarity::Partial(d) && exists|x: Seq<Seq<char>>, y: Seq<Seq<char>>|
            #[trigger] diff_ok(x, diff_walk(jview(*data1), jview(*data2), seq!['.']).0)
                && #[trigger] diff_ok(y, diff_walk(jview(*data2), jview(*data1), seq!['.']).0)
                && sorted_strict(strings_view(d.diffs@)) && strings_view(d.diffs@).to_set()
                == x.to_set() + y.to_set() && d.total_keys == diff_walk(
                jview(*data1),
                jview(*data2),
                seq!['.'],
            ).1),
{
    if json_eq(data1, data2) {
        return Similarity::Identical;
    }
    let objects = match (data1, data2) {
        (Json::Object(_), Json::Object(_)) => true,
        _ => false,
    };
    if !objects {
        return Similarity::Unrelated;
    }
    let dot = string_of(&single_dot());
    let dot2 = string_of(&single_dot());
    let diff1 = json_deep_diff(data1, data2, dot, 0, space);
    let diff2 = json_deep_diff(data2, data1, dot2, 0, space);
    let ghost x = strings_view(diff1.diffs@);
    let ghost y = strings_view(diff2.diffs@);
    let d = diff1.merge(diff2);
    assert(diff_ok(x, diff_walk(jview(*data1), jview(*data2), seq!['.']).0));
    assert(diff_ok(y, diff_walk(jview(*data2), jview(*data1), seq!['.']).0));
    Similarity::Partial(d)
}

fn single_dot() -> (r: Vec<char>)
    ensures
        r@ == seq!['.'],
{
    let mut v: Vec<char> = Vec::new();
    v.push('.');
    assert(v@ =~= seq!['.']);
    v
}


proof fn lemma_arr_prefix(v1: Seq<JsonV>, v2: Seq<JsonV>, p: Seq<char>, m: int, n: int, x: Leaf)
    requires
        0 <= m <= n,
        arr_off(v1) + n <= v1.len(),
        diff_arr(v1, v2, p, m).0.contains(x),
    ensures
        diff_arr(v1, v2, p, n).0.contains(x),
    decreases n - m,
{
    if m < n {
        lemma_arr_prefix(v1, v2, p, m, n - 1, x);
        let (l, c) = diff_arr(v1, v2, p, n - 1);
        let i = l.index_of(x);
        let r = diff_arr(v1, v2, p, n).0;
        assert(r.subrange(0, l.len() as int) =~= l);
        assert(r[i] == x);
    }
}

/// In a plain array, an element at an index the other array lacks is
/// compared with `"DNE"`: that comparison is one of the leaves.
pub proof fn law_extra_item_meets_dne(v1: Seq<JsonV>, v2: Seq<JsonV>, p: Seq<char>, k: int)
    requires
        special_text(v1) is None,
        special_text(v2) is None,
        v2.len() <= k < v1.len(),
    ensures
        diff_walk(JsonV::Array(v1), JsonV::Array(v2), p).0.contains(
            (child_prefix(p, dec_digits(k as nat)), v1[k], dne_j()),
        ),
{
    let x = (child_prefix(p, dec_digits(k as nat)), v1[k], dne_j());
    let (l, c) = diff_arr(v1, v2, p, k);
    let r = diff_arr(v1, v2, p, k + 1).0;
    assert(diff_walk(v1[k], dne_j(), child_prefix(p, dec_digits(k as nat))).0 == seq![x]);
    assert(r == l + seq![x]);
    assert(r[l.len() as int] == x);
    lemma_arr_prefix(v1, v2, p, k + 1, v1.len() as int, x);
}

/// Likewise a member of an object that the other lacks is compared with
/// `"DNE"`.
pub proof fn law_missing_member_meets_dne(m1: Seq<(Seq<char>, JsonV)>, m2: Seq<(Seq<char>, JsonV)>, p: Seq<char>, k: int)
    requires
        0 <= k < m1.len(),
        get_key(m2, m1[k].0) is None,
    ensures
        diff_walk(JsonV::Object(m1), JsonV::Object(m2), p).0.contains((child_prefix(p, m1[k].0), m1[k].1, dne_j())),
{
    let x = (child_prefix(p, m1[k].0), m1[k].1, dne_j());
    lemma_obj_has(m1, m2, p, k, m1.len() as int, x);
}

proof fn lemma_obj_has(m1: Seq<(Seq<char>, JsonV)>, m2: Seq<(Seq<char>, JsonV)>, p: Seq<char>, k: int, n: int, x: Leaf)
    requires
        0 <= k < n <= m1.len(),
        get_key(m2, m1[k].0) is None,
        x == (child_prefix(p, m1[k].0), m1[k].1, dne_j()),
    ensures
        diff_obj(m1, m2, p, n).0.contains(x),
    decreases n,
{
    let (l, c) = diff_obj(m1, m2, p, n - 1);
    let r = diff_obj(m1, m2, p, n).0;
    if k == n - 1 {
        assert(diff_walk(m1[k].1, dne_j(), child_prefix(p, m1[k].0)).0 == seq![x]);
        assert(r[l.len() as int] == x);
    } else {
        lemma_obj_has(m1, m2, p, k, n - 1, x);
        let i = l.index_of(x);
        assert(r.subrange(0, l.len() as int) =~= l);
        assert(r[i] == x);
    }
}


proof fn lemma_picked_has(ls: Seq<Leaf>, mask: Seq<bool>, i: int)
    requires
        mask.len() == ls.len(),
        0 <= i < ls.len(),
        mask[i],
    ensures
        picked(ls, mask).contains(ls[i].0),
    decreases ls.len(),
{
    let r0 = picked(ls.drop_last(), mask.drop_last());
    if i == ls.len() - 1 {
        let r = picked(ls, mask);
        assert(r[r.len() - 1] == ls[i].0);
    } else {
        assert(mask.drop_last()[i] == mask[i]);
        assert(ls.drop_last()[i] == ls[i]);
        lemma_picked_has(ls.drop_last(), mask.drop_last(), i);
        let j = r0.index_of(ls[i].0);
        if mask.last() {
            assert(picked(ls, mask)[j] == ls[i].0);
        }
    }
}

/// A value that is not text always differs from `"DNE"`, however `"DNE"`
/// reads.
pub proof fn law_value_differs_from_dne(x: JsonV, differ: bool)
    requires
        !(x is Str),
        leaf_verdict(x, dne_j(), differ),
    ensures
        differ,
{
}

/// Checking a plain array against a shorter one lists, among the
/// differing keys, the place of each extra element that is not text: the
/// result is never empty when the first array is longer.
pub proof fn law_extra_item_is_listed(v1: Seq<JsonV>, v2: Seq<JsonV>, p: Seq<char>, k: int, ds: Seq<Seq<char>>)
    requires
        special_text(v1) is None,
        special_text(v2) is None,
        v2.len() <= k < v1.len(),
        !(v1[k] is Str),
        diff_ok(ds, diff_walk(JsonV::Array(v1), JsonV::Array(v2), p).0),
    ensures
        ds.contains(child_prefix(p, dec_digits(k as nat))),
{
    let ls = diff_walk(JsonV::Array(v1), JsonV::Array(v2), p).0;
    let x = (child_prefix(p, dec_digits(k as nat)), v1[k], dne_j());
    law_extra_item_meets_dne(v1, v2, p, k);
    let i = ls.index_of(x);
    let mask = choose|mask: Seq<bool>| #[trigger] verdicts(ls, mask) && picked(ls, mask) == ds;
    assert(leaf_verdict(ls[i].1, ls[i].2, mask[i]));
    law_value_differs_from_dne(v1[k], mask[i]);
    lemma_picked_has(ls, mask, i);
}

} // verus!

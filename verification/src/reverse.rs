//! Reverse engineering a variable file from a theme and its template.
use vstd::prelude::*;
use crate::text::{
    chars_of, string_of, append_chars, append_str, dec_digits, fmt_dec, starts_with, has_prefix,
    replace_all, replace_chars, hex2, eq_str,
};
use crate::color::{
    ColorSpace, Color, alphaless_hex, parsed_color, color_parse_fails, color_text_ok,
    color_text_ok_exec, clamp, ceil_div,
};
use crate::json::{
    Json, JsonV, jview, jviews, jentries, get_key, key_pos, obj_find, lemma_key_pos_bounds,
    same_type, same_type_spec, has_keys, has_keys_spec, potential_set, potential_set_spec, json_eq,
};
use crate::parsing::{
    ParsedValue, SourcedVariable, KeyDiffInfo, VarRef, value_from, var_names, var_ref_of,
    strings_view, all_strings, all_strings_seq, all_strings_entries, lemma_all_strings_seq,
    lemma_all_strings_entries, source_text_ok, value_text_ok, pieces_ok, VariableSet,
    ResolvedVariable, rv_same, pv_same, Entries, entries_safe, lists_safe, var_lists, set_entry,
    key_index, keys_unique, sibling_added, conflict_result, unresolved, numbered, pvars_same,
    pvar_same, new_pointer_of, pointer_joined, identity_value, pv_eq, is_resolvable_spec,
    resolvable_of, VarRef as VR, ParsedVariable, is_pointer_spec, null_walk, unresolved_of,
    entries_same, rv_name, parsed_refs,
};
use crate::json::{JSPath, KeyView, path_text, join_text, parse_path};
use crate::args::ProgramError;
use crate::generate::{flag_value, flag_dir, last_piece};
use crate::check::{
    special_text, special_keys, arr_off, first_found, child_prefix, special_keys_exec,
    first_found_exec, lemma_first_found_bounds, concat_keys,
};

verus! {

/// A template string met against a theme value: where, the template text,
/// and the theme value.
pub type VarSite = (Seq<char>, Seq<char>, JsonV);

/// Missing keys, colliding keys, and variable sites.
pub type KD = (Seq<Seq<char>>, Seq<Seq<char>>, Seq<VarSite>);

pub open spec fn kd_empty() -> KD {
    (Seq::empty(), Seq::empty(), Seq::empty())
}

pub open spec fn kd_cat(a: KD, b: KD) -> KD {
    (a.0 + b.0, a.1 + b.1, a.2 + b.2)
}

/// Two values that are not both objects or both arrays.
pub open spec fn kd_leaf(a: JsonV, b: JsonV, prefix: Seq<char>, log: bool) -> KD {
    if !log && same_type_spec(a, b) && a != b {
        if !potential_set_spec(a, b) {
            (Seq::empty(), seq![prefix], Seq::empty())
        } else {
            kd_empty()
        }
    } else if a is Str {
        if log {
            (Seq::empty(), Seq::empty(), seq![(prefix, a->Str_0, b)])
        } else {
            kd_empty()
        }
    } else if b is Str {
        if log {
            (Seq::empty(), Seq::empty(), seq![(prefix, b->Str_0, a)])
        } else {
            kd_empty()
        }
    } else if !log && has_keys_spec(a) != has_keys_spec(b) {
        (Seq::empty(), seq![prefix], Seq::empty())
    } else {
        kd_empty()
    }
}

/// `key_diff`: walks `d1` against `d2`. Keys of `d1` missing from `d2` are
/// missing; with `log`, strings met against values are variable sites;
/// without it, differing values of one type that cannot hold a variable,
/// and an object or array against a plain value, collide.
pub open spec fn kd_walk(d1: JsonV, d2: JsonV, prefix: Seq<char>, log: bool) -> KD
    decreases d1, 0int,
{
    match (d1, d2) {
        (JsonV::Object(m1), JsonV::Object(m2)) => kd_obj(m1, m2, prefix, log, m1.len() as int),
        (JsonV::Array(v1), JsonV::Array(v2)) => kd_arr(v1, v2, prefix, log, v1.len() - arr_off(v1)),
        _ => kd_leaf(d1, d2, prefix, log),
    }
}

pub open spec fn kd_obj(m1: Seq<(Seq<char>, JsonV)>, m2: Seq<(Seq<char>, JsonV)>, prefix: Seq<char>, log: bool, n: int) -> KD
    decreases m1, n,
{
    if n <= 0 || n > m1.len() {
        kd_empty()
    } else {
        let prev = kd_obj(m1, m2, prefix, log, n - 1);
        let e = m1[n - 1];
        let p = child_prefix(prefix, e.0);
        proof {
            assert(decreases_to!(m1 => m1[n - 1]));
        }
        kd_cat(
            prev,
            match get_key(m2, e.0) {
                Some(v2) => kd_walk(e.1, v2, p, log),
                None => (seq![p], Seq::empty(), Seq::empty()),
            },
        )
    }
}

pub open spec fn kd_arr(v1: Seq<JsonV>, v2: Seq<JsonV>, prefix: Seq<char>, log: bool, n: int) -> KD
    decreases v1, n,
{
    let o1 = arr_off(v1);
    let o2 = arr_off(v2);
    if n <= 0 || o1 + n > v1.len() {
        kd_empty()
    } else {
        let prev = kd_arr(v1, v2, prefix, log, n - 1);
        let i = n - 1;
        let x = v1[o1 + i];
        let p = child_prefix(prefix, dec_digits(i as nat));
        let miss: KD = (seq![p], Seq::empty(), Seq::empty());
        proof {
            assert(decreases_to!(v1 => v1[o1 + i]));
        }
        kd_cat(
            prev,
            if special_text(v1) is Some || special_text(v2) is Some {
                let keys = special_keys(v1) + special_keys(v2);
                let j = first_found(x, v2, keys, o2, false, JsonV::Null);
                if !(x is Object) || j < 0 {
                    miss
                } else {
                    kd_walk(x, v2[j], p, log)
                }
            } else if i < v2.len() {
                kd_walk(x, v2[i], p, log)
            } else {
                miss
            },
        )
    }
}

/// A sourced variable read at a site.
pub open spec fn site_rel(site: VarSite, sv: SourcedVariable) -> bool {
    &&& sv.path@ == site.0
    &&& value_from(site.2, sv.value)
    &&& sv.variables@.len() == var_names(site.1).len()
    &&& forall|i: int|
        0 <= i < sv.variables@.len() ==> var_ref_of(var_names(site.1)[i], #[trigger] sv.variables@[i])
}

/// The findings match the walk: the same missing and colliding keys, and
/// the variables read at its sites.
pub open spec fn kd_matches(info: KeyDiffInfo, kd: KD) -> bool {
    &&& strings_view(info.missing@) == kd.0
    &&& strings_view(info.collisions@) == kd.1
    &&& info.parsed_vars@.len() == kd.2.len()
    &&& forall|i: int| 0 <= i < kd.2.len() ==> site_rel(kd.2[i], #[trigger] info.parsed_vars@[i])
}

pub open spec fn source_ok(j: JsonV) -> bool {
    all_strings(j, |s: Seq<char>| source_text_ok(s))
}

fn empty_info() -> (r: KeyDiffInfo)
    ensures
        kd_matches(r, kd_empty()),
{
    let r = KeyDiffInfo { missing: Vec::new(), collisions: Vec::new(), parsed_vars: Vec::new() };
    assert(strings_view(r.missing@) =~= Seq::<Seq<char>>::empty());
    assert(strings_view(r.collisions@) =~= Seq::<Seq<char>>::empty());
    r
}

proof fn lemma_extend(a: KeyDiffInfo, b: KeyDiffInfo, c: KeyDiffInfo, ka: KD, kb: KD)
    requires
        kd_matches(a, ka),
        kd_matches(b, kb),
        c.missing@ == a.missing@ + b.missing@,
        c.collisions@ == a.collisions@ + b.collisions@,
        c.parsed_vars@ == a.parsed_vars@ + b.parsed_vars@,
    ensures
        kd_matches(c, kd_cat(ka, kb)),
{
    assert(strings_view(c.missing@) =~= strings_view(a.missing@) + strings_view(b.missing@));
    assert(strings_view(c.collisions@) =~= strings_view(a.collisions@) + strings_view(b.collisions@));
    let k = kd_cat(ka, kb);
    assert forall|i: int| 0 <= i < k.2.len() implies site_rel(k.2[i], #[trigger] c.parsed_vars@[i]) by {
        if i < ka.2.len() {
            assert(site_rel(ka.2[i], a.parsed_vars@[i]));
        } else {
            assert(site_rel(kb.2[i - ka.2.len()], b.parsed_vars@[i - ka.2.len()]));
        }
    }
}

fn one_missing(p: String) -> (r: KeyDiffInfo)
    ensures
        kd_matches(r, (seq![p@], Seq::empty(), Seq::empty())),
{
    let ghost pv = p@;
    let mut r = empty_info();
    r.missing.push(p);
    assert(strings_view(r.missing@) =~= seq![pv]);
    r
}

fn one_collision(p: String) -> (r: KeyDiffInfo)
    ensures
        kd_matches(r, (Seq::empty(), seq![p@], Seq::empty())),
{
    let ghost pv = p@;
    let mut r = empty_info();
    r.collisions.push(p);
    assert(strings_view(r.collisions@) =~= seq![pv]);
    r
}

fn leaf_diff<S: ColorSpace>(a: &Json, b: &Json, prefix: String, log_vars: bool, space: &S) -> (r: KeyDiffInfo)
    requires
        source_ok(jview(*a)),
        source_ok(jview(*b)),
        !(jview(*a) is Object && jview(*b) is Object),
        !(jview(*a) is Array && jview(*b) is Array),
    ensures
        kd_matches(r, kd_leaf(jview(*a), jview(*b), prefix@, log_vars)),
{
    if !log_vars && same_type(a, b) && !json_eq(a, b) {
        if !potential_set(a, b) {
            return one_collision(prefix);
        }
        return empty_info();
    }
    match (a, b) {
        (Json::String(s), _) => {
            if log_vars {
                let ghost pv = prefix@;
                let sv = SourcedVariable::new(prefix, s.as_str(), b, space);
                let mut r = empty_info();
                r.parsed_vars.push(sv);
                assert(site_rel((pv, s@, jview(*b)), r.parsed_vars@[0]));
                return r;
            }
            return empty_info();
        },
        (_, Json::String(s)) => {
            if log_vars {
                let ghost pv = prefix@;
                let sv = SourcedVariable::new(prefix, s.as_str(), a, space);
                let mut r = empty_info();
                r.parsed_vars.push(sv);
                assert(site_rel((pv, s@, jview(*a)), r.parsed_vars@[0]));
                return r;
            }
            return empty_info();
        },
        _ => {},
    }
    if !log_vars && has_keys(a) != has_keys(b) {
        return one_collision(prefix);
    }
    empty_info()
}

fn child_prefix_exec(prefix: &Vec<char>, key: &Vec<char>) -> (r: String)
    ensures
        r@ == child_prefix(prefix@, key@),
{
    let mut v: Vec<char> = Vec::new();
    append_chars(&mut v, prefix);
    v.push('/');
    append_chars(&mut v, key);
    assert(v@ =~= child_prefix(prefix@, key@));
    string_of(&v)
}

/// Walks `data1` against `data2` from `prefix` (see `kd_walk`): keys of the
/// first missing from the second, keys whose values collide, and, with
/// `log_vars`, the variables the template strings name.
pub fn key_diff<S: ColorSpace>(data1: &Json, data2: &Json, prefix: String, log_vars: bool, space: &S) -> (r: KeyDiffInfo)
    requires
        source_ok(jview(*data1)),
        source_ok(jview(*data2)),
    ensures
        kd_matches(r, kd_walk(jview(*data1), jview(*data2), prefix@, log_vars)),
    decreases data1,
{
    match (data1, data2) {
        (Json::Object(m1), Json::Object(m2)) => {
            assert(decreases_to!(*data1 => (*data1)->Object_0));
            kd_objects(m1, m2, prefix, log_vars, space)
        },
        (Json::Array(v1), Json::Array(v2)) => {
            assert(decreases_to!(*data1 => (*data1)->Array_0));
            kd_arrays(v1, v2, prefix, log_vars, space)
        },
        _ => leaf_diff(data1, data2, prefix, log_vars, space),
    }
}

#[verifier::rlimit(50)]
fn kd_objects<S: ColorSpace>(
    m1: &Vec<(String, Json)>,
    m2: &Vec<(String, Json)>,
    prefix: String,
    log_vars: bool,
    space: &S,
) -> (r: KeyDiffInfo)
    requires
        source_ok(JsonV::Object(jentries(m1@))),
        source_ok(JsonV::Object(jentries(m2@))),
    ensures
        kd_matches(r, kd_obj(jentries(m1@), jentries(m2@), prefix@, log_vars, m1@.len() as int)),
    decreases m1,
{
    let pc = chars_of(prefix.as_str());
    let ghost e1 = jentries(m1@);
    let ghost e2 = jentries(m2@);
    proof {
        lemma_all_strings_entries(e1, |s: Seq<char>| source_text_ok(s));
        lemma_all_strings_entries(e2, |s: Seq<char>| source_text_ok(s));
    }
    let mut info = empty_info();
    for i in 0..m1.len()
        invariant
            e1 == jentries(m1@),
            e2 == jentries(m2@),
            pc@ == prefix@,
            forall|k: int| 0 <= k < e1.len() ==> source_ok(#[trigger] e1[k].1),
            forall|k: int| 0 <= k < e2.len() ==> source_ok(#[trigger] e2[k].1),
            kd_matches(info, kd_obj(e1, e2, prefix@, log_vars, i as int)),
    {
        assert(decreases_to!(*m1 => m1@));
        assert(decreases_to!(m1@ => m1@[i as int]));
        assert(decreases_to!(m1@[i as int] => m1@[i as int].1));
        let kc = chars_of(m1[i].0.as_str());
        assert(e1[i as int] == (kc@, jview(m1@[i as int].1)));
        assert(source_ok(e1[i as int].1));
        let p = child_prefix_exec(&pc, &kc);
        let next = match obj_find(m2, &kc) {
            Some(j) => {
                proof {
                    lemma_key_pos_bounds(e2, kc@);
                }
                assert(e2[j as int].1 == jview(m2@[j as int].1));
                assert(source_ok(e2[j as int].1));
                key_diff(&m1[i].1, &m2[j].1, p, log_vars, space)
            },
            None => one_missing(p),
        };
        let ghost before = info;
        let ghost nk = next;
        info.extend(next);
        proof {
            lemma_extend(before, nk, info, kd_obj(e1, e2, prefix@, log_vars, i as int), match get_key(e2, kc@) {
                Some(v2) => kd_walk(e1[i as int].1, v2, child_prefix(prefix@, kc@), log_vars),
                None => (seq![child_prefix(prefix@, kc@)], Seq::empty(), Seq::empty()),
            });
        }
    }
    info
}

#[verifier::rlimit(50)]
fn kd_arrays<S: ColorSpace>(
    v1: &Vec<Json>,
    v2: &Vec<Json>,
    prefix: String,
    log_vars: bool,
    space: &S,
) -> (r: KeyDiffInfo)
    requires
        source_ok(JsonV::Array(jviews(v1@))),
        source_ok(JsonV::Array(jviews(v2@))),
    ensures
        kd_matches(r, kd_arr(jviews(v1@), jviews(v2@), prefix@, log_vars, v1@.len() - arr_off(jviews(v1@)))),
    decreases v1,
{
    let pc = chars_of(prefix.as_str());
    let ghost a1 = jviews(v1@);
    let ghost a2 = jviews(v2@);
    proof {
        lemma_all_strings_seq(a1, |s: Seq<char>| source_text_ok(s));
        lemma_all_strings_seq(a2, |s: Seq<char>| source_text_ok(s));
    }
    let null = Json::Null;
    let sk1 = special_keys_exec(v1);
    let sk2 = special_keys_exec(v2);
    let special = sk1.is_some() || sk2.is_some();
    let keys_all = concat_keys(&sk1, &sk2);
    assert(strings_view(keys_all@) == special_keys(a1) + special_keys(a2));
    let o1: usize = if sk1.is_some() {
        1
    } else {
        0
    };
    let o2: usize = if sk2.is_some() {
        1
    } else {
        0
    };
    assert(o1 == arr_off(a1) && o2 == arr_off(a2));
    let n = v1.len() - o1;
    let mut info = empty_info();
    for i in 0..n
        invariant
            a1 == jviews(v1@),
            a2 == jviews(v2@),
            pc@ == prefix@,
            n + o1 == v1@.len(),
            o1 == arr_off(a1),
            o2 == arr_off(a2),
            special == (special_text(a1) is Some || special_text(a2) is Some),
            strings_view(keys_all@) == special_keys(a1) + special_keys(a2),
            forall|k: int| 0 <= k < a1.len() ==> source_ok(#[trigger] a1[k]),
            forall|k: int| 0 <= k < a2.len() ==> source_ok(#[trigger] a2[k]),
            jview(null) == JsonV::Null,
            kd_matches(info, kd_arr(a1, a2, prefix@, log_vars, i as int)),
    {
        assert(decreases_to!(*v1 => v1@));
        assert(decreases_to!(v1@ => v1@[o1 + i]));
        let x = &v1[o1 + i];
        assert(a1[o1 + i] == jview(*x));
        assert(source_ok(a1[o1 + i]));
        let p = child_prefix_exec(&pc, &fmt_dec(i));
        let ghost pv = p@;
        let found: Option<&Json> = if special {
            let obj = match x {
                Json::Object(_) => true,
                _ => false,
            };
            if !obj {
                None
            } else {
                match first_found_exec(x, v2, &keys_all, o2, false, &null) {
                    None => None,
                    Some(j) => {
                        proof {
                            lemma_first_found_bounds(a1[o1 + i], a2, special_keys(a1) + special_keys(a2), o2 as int, false, JsonV::Null);
                        }
                        assert(a2[j as int] == jview(v2@[j as int]));
                        Some(&v2[j])
                    },
                }
            }
        } else {
            if i < v2.len() {
                assert(a2[i as int] == jview(v2@[i as int]));
                Some(&v2[i])
            } else {
                None
            }
        };
        let next = match found {
            None => one_missing(p),
            Some(val2) => {
                assert(source_ok(jview(*val2)));
                key_diff(x, val2, p, log_vars, space)
            },
        };
        let ghost before = info;
        let ghost nk = next;
        info.extend(next);
        proof {
            let kx = if special_text(a1) is Some || special_text(a2) is Some {
                let keys = special_keys(a1) + special_keys(a2);
                let j = first_found(a1[o1 + i], a2, keys, o2 as int, false, JsonV::Null);
                if !(a1[o1 + i] is Object) || j < 0 {
                    (seq![pv], Seq::empty(), Seq::empty())
                } else {
                    kd_walk(a1[o1 + i], a2[j], pv, log_vars)
                }
            } else if i < a2.len() {
                kd_walk(a1[o1 + i], a2[i as int], pv, log_vars)
            } else {
                (seq![pv], Seq::empty(), Seq::empty())
            };
            lemma_extend(before, nk, info, kd_arr(a1, a2, prefix@, log_vars, i as int), kx);
        }
    }
    info
}

/// The plain values inside a value, in order: the leaves of its objects
/// and arrays.
pub open spec fn nested(j: JsonV) -> Seq<JsonV>
    decreases j, 0nat,
{
    match j {
        JsonV::Object(o) => nested_entries(o),
        JsonV::Array(a) => nested_seq(a),
        _ => seq![j],
    }
}

pub open spec fn nested_seq(a: Seq<JsonV>) -> Seq<JsonV>
    decreases a, a.len(),
{
    if a.len() == 0 {
        Seq::empty()
    } else {
        proof {
            assert(decreases_to!(a => a.drop_last()));
        }
        nested_seq(a.drop_last()) + nested(a.last())
    }
}

pub open spec fn nested_entries(o: Seq<(Seq<char>, JsonV)>) -> Seq<JsonV>
    decreases o, o.len(),
{
    if o.len() == 0 {
        Seq::empty()
    } else {
        proof {
            assert(decreases_to!(o => o.drop_last()));
        }
        nested_entries(o.drop_last()) + nested(o.last().1)
    }
}

/// The plain values inside `j`, in order.
pub fn get_nested_values(j: &Json) -> (r: Vec<Json>)
    ensures
        jviews(r@) == nested(jview(*j)),
    decreases j,
{
    match j {
        Json::Object(o) => {
            let mut r: Vec<Json> = Vec::new();
            assert(jviews(r@) =~= Seq::<JsonV>::empty());
            for i in 0..o.len()
                invariant
                    *j == Json::Object(*o),
                    jviews(r@) == nested_entries(jentries(o@).take(i as int)),
            {
                assert(decreases_to!(*j => (*j)->Object_0));
                assert(decreases_to!(*o => o@));
                assert(decreases_to!(o@ => o@[i as int]));
                assert(decreases_to!(o@[i as int] => o@[i as int].1));
                let mut x = get_nested_values(&o[i].1);
                let ghost before = jviews(r@);
                let ghost xv = jviews(x@);
                r.append(&mut x);
                assert(jviews(r@) =~= before + xv);
                assert(jentries(o@).take(i + 1).drop_last() =~= jentries(o@).take(i as int));
                assert(jentries(o@).take(i + 1).last() == jentries(o@)[i as int]);
            }
            assert(jentries(o@).take(o.len() as int) =~= jentries(o@));
            r
        },
        Json::Array(a) => {
            let mut r: Vec<Json> = Vec::new();
            assert(jviews(r@) =~= Seq::<JsonV>::empty());
            for i in 0..a.len()
                invariant
                    *j == Json::Array(*a),
                    jviews(r@) == nested_seq(jviews(a@).take(i as int)),
            {
                assert(decreases_to!(*j => (*j)->Array_0));
                assert(decreases_to!(*a => a@));
                assert(decreases_to!(a@ => a@[i as int]));
                let mut x = get_nested_values(&a[i]);
                let ghost before = jviews(r@);
                let ghost xv = jviews(x@);
                r.append(&mut x);
                assert(jviews(r@) =~= before + xv);
                assert(jviews(a@).take(i + 1).drop_last() =~= jviews(a@).take(i as int));
                assert(jviews(a@).take(i + 1).last() == jviews(a@)[i as int]);
            }
            assert(jviews(a@).take(a.len() as int) =~= jviews(a@));
            r
        },
        other => {
            let mut r: Vec<Json> = Vec::new();
            r.push(other.clone());
            assert(jviews(r@) =~= seq![jview(*other)]);
            r
        },
    }
}

/// A color read from a text, when the text is one: `None` when it is not
/// (or when reading it would panic).
pub fn text_color<S: ColorSpace>(s: &str, space: &S) -> (r: Option<Color>)
    ensures
        r matches Some(c) ==> color_text_ok(s@) && parsed_color(s@, c),
        r is None ==> !color_text_ok(s@) || color_parse_fails(s@),
{
    if !color_text_ok_exec(s) {
        return None;
    }
    match Color::from_str(s, space) {
        Ok(c) => Some(c),
        Err(_) => None,
    }
}

/// Colors grouped by their hex text without alpha: the group's name and
/// its colors.
pub type ColorMapView = Seq<(Seq<char>, Seq<char>, Seq<Color>)>;

pub open spec fn cm_view(m: Seq<(String, String, Vec<Color>)>) -> ColorMapView {
    m.map_values(|e: (String, String, Vec<Color>)| (e.0@, e.1@, e.2@))
}

/// Where the group of `hex` is, or -1.
pub open spec fn cm_index(m: ColorMapView, hex: Seq<char>) -> int
    decreases m.len(),
{
    if m.len() == 0 {
        -1
    } else if m.last().0 == hex {
        m.len() - 1
    } else {
        cm_index(m.drop_last(), hex)
    }
}

/// How many groups have a name starting with `n`.
pub open spec fn names_starting(m: ColorMapView, n: Seq<char>) -> nat
    decreases m.len(),
{
    if m.len() == 0 {
        0
    } else {
        names_starting(m.drop_last(), n) + if starts_with(m.last().1, n) {
            1nat
        } else {
            0nat
        }
    }
}

/// The name a new color would get: its CSS name (`color.N` for the
/// unknown `404`), numbered when other groups' names start with it.
pub open spec fn color_name_for(m: ColorMapView, c: Color, base: Seq<char>) -> Seq<char> {
    let name = if base == "404"@ {
        "color."@ + dec_digits(m.len())
    } else {
        base
    };
    let n = names_starting(m, name);
    if n == 0 {
        name
    } else {
        name + dec_digits(n + 1)
    }
}

/// Adding a color: to the group of its hex text, created (with the color's
/// name) when missing; a group without a name takes it.
pub open spec fn cm_add(m: ColorMapView, c: Color, base: Seq<char>) -> ColorMapView {
    let name = color_name_for(m, c, base);
    let i = cm_index(m, alphaless_hex(c));
    if i >= 0 {
        let e = m[i];
        m.update(i, (e.0, if e.1.len() == 0 { name } else { e.1 }, e.2.push(c)))
    } else {
        m.push((alphaless_hex(c), name, seq![c]))
    }
}

proof fn lemma_cm_index(m: ColorMapView, hex: Seq<char>)
    ensures
        -1 <= cm_index(m, hex) < m.len(),
        cm_index(m, hex) >= 0 ==> m[cm_index(m, hex)].0 == hex,
    decreases m.len(),
{
    if m.len() > 0 {
        lemma_cm_index(m.drop_last(), hex);
    }
}

fn cm_find(m: &Vec<(String, String, Vec<Color>)>, hex: &Vec<char>) -> (r: Option<usize>)
    ensures
        match r {
            Some(i) => cm_index(cm_view(m@), hex@) == i,
            None => cm_index(cm_view(m@), hex@) < 0,
        },
{
    let mut i = m.len();
    assert(cm_view(m@).take(i as int) =~= cm_view(m@));
    while i > 0
        invariant
            i <= m@.len(),
            cm_index(cm_view(m@), hex@) == cm_index(cm_view(m@).take(i as int), hex@),
        decreases i,
    {
        let ghost t = cm_view(m@).take(i as int);
        assert(t.drop_last() =~= cm_view(m@).take(i - 1));
        i -= 1;
        if crate::text::chars_eq(&chars_of(m[i].0.as_str()), hex) {
            return Some(i);
        }
    }
    None
}

fn names_starting_exec(m: &Vec<(String, String, Vec<Color>)>, n: &Vec<char>) -> (r: usize)
    ensures
        r == names_starting(cm_view(m@), n@),
        r <= m@.len(),
{
    let mut c: usize = 0;
    for i in 0..m.len()
        invariant
            c == names_starting(cm_view(m@).take(i as int), n@),
            c <= i,
    {
        assert(cm_view(m@).take(i + 1).drop_last() =~= cm_view(m@).take(i as int));
        let nm = chars_of(m[i].1.as_str());
        if crate::text::has_prefix(&nm, string_of(n).as_str()) {
            c = c + 1;
        }
    }
    assert(cm_view(m@).take(m.len() as int) =~= cm_view(m@));
    c
}

/// Adds a color to the map (see `cm_add`).
pub fn add_color(m: &mut Vec<(String, String, Vec<Color>)>, c: &Color)
    requires
        old(m)@.len() < usize::MAX,
    ensures
        cm_view(final(m)@) == cm_add(cm_view(old(m)@), *c, c.get_name_spec()),
{
    let base = c.get_name();
    let bc = chars_of(base.as_str());
    let name: Vec<char> = if eq_str(&bc, "404") {
        let mut v = chars_of("color.");
        append_chars(&mut v, &fmt_dec(m.len()));
        v
    } else {
        bc
    };
    let n = names_starting_exec(m, &name);
    let name2: Vec<char> = if n == 0 {
        name
    } else {
        let mut v = name;
        append_chars(&mut v, &fmt_dec(n + 1));
        v
    };
    let hex = chars_of(c.to_alphaless_hex().as_str());
    let ghost mv = cm_view(m@);
    match cm_find(m, &hex) {
        Some(i) => {
            proof {
                lemma_cm_index(mv, hex@);
            }
            let (k, nm, mut cs) = m.remove(i);
            cs.push(c.clone());
            let nm2 = if chars_of(nm.as_str()).len() == 0 {
                string_of(&name2)
            } else {
                nm
            };
            m.insert(i, (k, nm2, cs));
            assert(cm_view(m@) =~= cm_add(mv, *c, c.get_name_spec()));
        },
        None => {
            let mut cs: Vec<Color> = Vec::new();
            cs.push(c.clone());
            m.push((string_of(&hex), string_of(&name2), cs));
            assert(cm_view(m@) =~= cm_add(mv, *c, c.get_name_spec()));
        },
    }
}

/// `cm_add`, unless the map cannot grow any more.
pub open spec fn cm_add_guarded(m: ColorMapView, c: Color) -> ColorMapView {
    if m.len() < usize::MAX {
        cm_add(m, c, c.get_name_spec())
    } else {
        m
    }
}

/// The map after adding the colors in order, from `m`.
pub open spec fn cm_fold(m: ColorMapView, cs: Seq<Color>) -> ColorMapView
    decreases cs.len(),
{
    if cs.len() == 0 {
        m
    } else {
        cm_add_guarded(cm_fold(m, cs.drop_last()), cs.last())
    }
}

proof fn lemma_cm_fold_cat(m: ColorMapView, a: Seq<Color>, b: Seq<Color>)
    ensures
        cm_fold(cm_fold(m, a), b) == cm_fold(m, a + b),
    decreases b.len(),
{
    if b.len() == 0 {
        assert(a + b =~= a);
    } else {
        lemma_cm_fold_cat(m, a, b.drop_last());
        assert((a + b).drop_last() =~= a + b.drop_last());
    }
}

/// The colors a text gives: itself when it reads as a color.
pub open spec fn text_colors(s: Seq<char>, cs: Seq<Color>) -> bool {
    (exists|c: Color| #[trigger] parsed_color(s, c) && color_text_ok(s) && cs == seq![c]) || ((
    !color_text_ok(s) || color_parse_fails(s)) && cs == Seq::<Color>::empty())
}

/// The colors of each part, in order.
pub open spec fn flatten(parts: Seq<Seq<Color>>) -> Seq<Color>
    decreases parts.len(),
{
    if parts.len() == 0 {
        Seq::empty()
    } else {
        flatten(parts.drop_last()) + parts.last()
    }
}

/// The colors a JSON value gives: those of a string that reads as a color.
pub open spec fn item_colors(j: JsonV, cs: Seq<Color>) -> bool {
    match j {
        JsonV::Str(s) => text_colors(s, cs),
        _ => cs.len() == 0,
    }
}

/// The colors of JSON values in order.
pub open spec fn json_colors(vals: Seq<JsonV>, cs: Seq<Color>) -> bool {
    exists|parts: Seq<Seq<Color>>|
        parts.len() == vals.len() && #[trigger] flatten(parts) == cs && forall|i: int|
            0 <= i < vals.len() ==> item_colors(vals[i], #[trigger] parts[i])
}

/// The colors `to_color_map` finds in a value.
pub open spec fn value_colors(p: ParsedValue, cs: Seq<Color>) -> bool {
    match p {
        ParsedValue::Color(c) => cs == seq![c],
        ParsedValue::String(s) => text_colors(s@, cs),
        ParsedValue::Value(v) => if has_keys_spec(jview(v)) {
            json_colors(nested(jview(v)), cs)
        } else {
            match jview(v) {
                JsonV::Str(s) => text_colors(s, cs),
                _ => cs.len() == 0,
            }
        },
        _ => cs.len() == 0,
    }
}

/// The colors of the variables' values, in order.
pub open spec fn vars_colors(vs: Seq<ResolvedVariable>, cs: Seq<Color>) -> bool {
    exists|parts: Seq<Seq<Color>>|
        parts.len() == vs.len() && #[trigger] flatten(parts) == cs && forall|i: int|
            0 <= i < vs.len() ==> value_colors(vs[i].value, #[trigger] parts[i])
}

fn add_found(m: &mut Vec<(String, String, Vec<Color>)>, c: &Color)
    ensures
        cm_view(final(m)@) == cm_add_guarded(cm_view(old(m)@), *c),
{
    if m.len() < usize::MAX {
        add_color(m, c);
    }
}

fn add_text<S: ColorSpace>(m: &mut Vec<(String, String, Vec<Color>)>, s: &str, space: &S) -> (cs: Ghost<Seq<Color>>)
    ensures
        text_colors(s@, cs@),
        cm_view(final(m)@) == cm_fold(cm_view(old(m)@), cs@),
{
    let ghost m0 = cm_view(m@);
    match text_color(s, space) {
        Some(c) => {
            add_found(m, &c);
            let ghost cs = seq![c];
            assert(cs.drop_last() =~= Seq::<Color>::empty());
            assert(cm_fold(m0, cs.drop_last()) == m0);
            assert(cm_fold(m0, cs) == cm_add_guarded(m0, c));
            Ghost(cs)
        },
        None => Ghost(Seq::empty()),
    }
}

fn add_json_colors<S: ColorSpace>(m: &mut Vec<(String, String, Vec<Color>)>, vals: &Vec<Json>, space: &S) -> (cs: Ghost<Seq<Color>>)
    ensures
        json_colors(jviews(vals@), cs@),
        cm_view(final(m)@) == cm_fold(cm_view(old(m)@), cs@),
{
    let ghost m0 = cm_view(m@);
    let ghost mut cs: Seq<Color> = Seq::empty();
    let ghost mut parts: Seq<Seq<Color>> = Seq::empty();
    for i in 0..vals.len()
        invariant
            m0 == cm_view(old(m)@),
            parts.len() == i,
            flatten(parts) == cs,
            forall|k: int| 0 <= k < i ==> item_colors(jviews(vals@)[k], #[trigger] parts[k]),
            cm_view(m@) == cm_fold(m0, cs),
    {
        let ghost before = cs;
        let ghost mb = cm_view(m@);
        let add: Ghost<Seq<Color>> = match &vals[i] {
            Json::String(s) => add_text(m, s.as_str(), space),
            _ => Ghost(Seq::empty()),
        };
        proof {
            assert(jviews(vals@)[i as int] == jview(vals@[i as int]));
            let p2 = parts.push(add@);
            assert(p2.drop_last() =~= parts);
            assert(flatten(p2) == before + add@);
            lemma_cm_fold_cat(m0, before, add@);
            cs = before + add@;
            parts = p2;
        }
    }
    assert(json_colors(jviews(vals@), cs));
    Ghost(cs)
}

fn add_value_colors<S: ColorSpace>(m: &mut Vec<(String, String, Vec<Color>)>, p: &ParsedValue, space: &S) -> (cs: Ghost<Seq<Color>>)
    ensures
        value_colors(*p, cs@),
        cm_view(final(m)@) == cm_fold(cm_view(old(m)@), cs@),
{
    match p {
        ParsedValue::Color(c) => {
            let ghost m0 = cm_view(m@);
            add_found(m, c);
            let ghost cs = seq![*c];
            assert(cs.drop_last() =~= Seq::<Color>::empty());
            assert(cm_fold(m0, cs.drop_last()) == m0);
            assert(cm_fold(m0, cs) == cm_add_guarded(m0, *c));
            Ghost(cs)
        },
        ParsedValue::String(s) => add_text(m, s.as_str(), space),
        ParsedValue::Value(v) => {
            if has_keys(v) {
                let vals = get_nested_values(v);
                add_json_colors(m, &vals, space)
            } else {
                match v {
                    Json::String(s) => add_text(m, s.as_str(), space),
                    _ => Ghost(Seq::empty()),
                }
            }
        },
        _ => Ghost(Seq::empty()),
    }
}

pub open spec fn set_values(es: crate::parsing::Entries) -> Seq<ResolvedVariable> {
    es.map_values(|e: (Seq<char>, ResolvedVariable)| e.1)
}

/// Groups the colors found in the values of the variables and then the
/// overrides by their hex text without alpha, naming each group after its
/// first color (see `cm_add`).
pub fn to_color_map<S: ColorSpace>(v: &VariableSet, o: &VariableSet, space: &S) -> (r: Vec<(String, String, Vec<Color>)>)
    ensures
        exists|cs: Seq<Color>|
            #[trigger] vars_colors(set_values(v@) + set_values(o@), cs) && cm_view(r@) == cm_fold(Seq::empty(), cs),
{
    let mut m: Vec<(String, String, Vec<Color>)> = Vec::new();
    let ghost all = set_values(v@) + set_values(o@);
    let ghost mut cs: Seq<Color> = Seq::empty();
    let ghost mut parts: Seq<Seq<Color>> = Seq::empty();
    assert(cm_view(m@) =~= ColorMapView::empty());
    let n = v.variables.len();
    for i in 0..n
        invariant
            n == v@.len(),
            all == set_values(v@) + set_values(o@),
            parts.len() == i,
            flatten(parts) == cs,
            forall|k: int| 0 <= k < i ==> value_colors(all[k].value, #[trigger] parts[k]),
            cm_view(m@) == cm_fold(Seq::empty(), cs),
    {
        let ghost before = cs;
        let p = &v.variables[i].1.value;
        assert(all[i as int].value == *p);
        let add = add_value_colors(&mut m, p, space);
        proof {
            let p2 = parts.push(add@);
            assert(p2.drop_last() =~= parts);
            lemma_cm_fold_cat(Seq::empty(), before, add@);
            cs = before + add@;
            parts = p2;
        }
    }
    for j in 0..o.variables.len()
        invariant
            n == v@.len(),
            all == set_values(v@) + set_values(o@),
            parts.len() == n + j,
            flatten(parts) == cs,
            forall|k: int| 0 <= k < n + j ==> value_colors(all[k].value, #[trigger] parts[k]),
            cm_view(m@) == cm_fold(Seq::empty(), cs),
    {
        let ghost before = cs;
        let p = &o.variables[j].1.value;
        assert(all[n + j].value == *p);
        let add = add_value_colors(&mut m, p, space);
        proof {
            let p2 = parts.push(add@);
            assert(p2.drop_last() =~= parts);
            lemma_cm_fold_cat(Seq::empty(), before, add@);
            cs = before + add@;
            parts = p2;
        }
    }
    assert(vars_colors(all, cs));
    m
}

/// The alpha byte of a color as two hex digits (see `Color::get_alpha`).
pub open spec fn alpha_text(c: Color) -> Seq<char> {
    hex2(clamp(ceil_div(c.alpha * 255, 100), 0, 255) as nat)
}

/// What a color becomes: a reference to its group (`@name` for the
/// `color.` groups, with `..AA` for alpha) when the group holds at least
/// `th` colors, else its hex text. A color whose group is missing keeps
/// its hex text.
pub open spec fn color_ref(c: Color, m: ColorMapView, th: usize) -> Seq<char> {
    let i = cm_index(m, alphaless_hex(c));
    if i >= 0 && m[i].2.len() >= th {
        let t = if c.alpha != 100 {
            "$"@ + m[i].1 + ".."@ + alpha_text(c)
        } else {
            "$"@ + m[i].1
        };
        replace_all(t, "$color."@, "@"@)
    } else {
        c.hex@
    }
}

/// A text replaced: by its color's reference when it reads as a color.
pub open spec fn text_rep(s: Seq<char>, m: ColorMapView, th: usize, r: Seq<char>) -> bool {
    (exists|c: Color| #[trigger] parsed_color(s, c) && color_text_ok(s) && r == color_ref(c, m, th)) || ((
    !color_text_ok(s) || color_parse_fails(s)) && r == s)
}

/// A JSON value with the colors of its strings replaced.
pub open spec fn jrep(j: JsonV, m: ColorMapView, th: usize, r: JsonV) -> bool
    decreases j, 0nat,
{
    match j {
        JsonV::Array(a) => r matches JsonV::Array(ra) && jrep_seq(a, ra, m, th),
        JsonV::Object(o) => r matches JsonV::Object(ro) && jrep_entries(o, ro, m, th),
        JsonV::Str(s) => r matches JsonV::Str(t) && text_rep(s, m, th, t),
        _ => r == j,
    }
}

pub open spec fn jrep_seq(a: Seq<JsonV>, ra: Seq<JsonV>, m: ColorMapView, th: usize) -> bool
    decreases a, a.len(),
{
    a.len() == ra.len() && (a.len() == 0 || ({
        proof {
            assert(decreases_to!(a => a.drop_last()));
        }
        jrep_seq(a.drop_last(), ra.drop_last(), m, th) && jrep(a.last(), m, th, ra.last())
    }))
}

pub open spec fn jrep_entries(o: Seq<(Seq<char>, JsonV)>, ro: Seq<(Seq<char>, JsonV)>, m: ColorMapView, th: usize) -> bool
    decreases o, o.len(),
{
    o.len() == ro.len() && (o.len() == 0 || ({
        proof {
            assert(decreases_to!(o => o.drop_last()));
        }
        jrep_entries(o.drop_last(), ro.drop_last(), m, th) && ro.last().0 == o.last().0 && jrep(
            o.last().1,
            m,
            th,
            ro.last().1,
        )
    }))
}

/// `replace_color`: colors (and texts that read as colors, also inside
/// JSON values) replaced by their references.
pub open spec fn replaced(val: ParsedValue, m: ColorMapView, th: usize, r: ParsedValue) -> bool {
    match val {
        ParsedValue::Color(c) => r matches ParsedValue::String(t) && t@ == color_ref(c, m, th),
        ParsedValue::String(s) => r matches ParsedValue::String(t) && text_rep(s@, m, th, t@),
        ParsedValue::Value(v) => match jview(v) {
            JsonV::Array(_) | JsonV::Object(_) => r matches ParsedValue::Value(x) && jrep(jview(v), m, th, jview(x)),
            JsonV::Str(s) => r matches ParsedValue::String(t) && text_rep(s, m, th, t@),
            _ => pv_same(r, val),
        },
        _ => pv_same(r, val),
    }
}

fn color_ref_exec(c: &Color, color_map: &Vec<(String, String, Vec<Color>)>, threshold: usize) -> (r: String)
    ensures
        r@ == color_ref(*c, cm_view(color_map@), threshold),
{
    let hex = chars_of(c.to_alphaless_hex().as_str());
    match cm_find(color_map, &hex) {
        Some(i) => {
            proof {
                lemma_cm_index(cm_view(color_map@), hex@);
            }
            assert(cm_view(color_map@)[i as int] == (color_map@[i as int].0@, color_map@[i as int].1@, color_map@[i as int].2@));
            if color_map[i].2.len() >= threshold {
                let mut t = chars_of("$");
                append_chars(&mut t, &chars_of(color_map[i].1.as_str()));
                if c.has_alpha() {
                    append_str(&mut t, "..");
                    append_chars(&mut t, &chars_of(c.get_alpha().as_str()));
                }
                let pat = chars_of("$color.");
                let at = chars_of("@");
                proof {
                    reveal_strlit("$color.");
                }
                let r = replace_chars(&t, &pat, &at);
                string_of(&r)
            } else {
                c.to_string()
            }
        },
        None => c.to_string(),
    }
}

fn replace_text<S: ColorSpace>(s: &String, color_map: &Vec<(String, String, Vec<Color>)>, threshold: usize, space: &S) -> (r: String)
    ensures
        text_rep(s@, cm_view(color_map@), threshold, r@),
{
    match text_color(s.as_str(), space) {
        Some(c) => color_ref_exec(&c, color_map, threshold),
        None => s.clone(),
    }
}

fn replace_json<S: ColorSpace>(j: &Json, color_map: &Vec<(String, String, Vec<Color>)>, threshold: usize, space: &S) -> (r: Json)
    ensures
        jrep(jview(*j), cm_view(color_map@), threshold, jview(r)),
    decreases j,
{
    let ghost m = cm_view(color_map@);
    match j {
        Json::Array(a) => {
            let mut v: Vec<Json> = Vec::new();
            for i in 0..a.len()
                invariant
                    *j == Json::Array(*a),
                    m == cm_view(color_map@),
                    jrep_seq(jviews(a@).take(i as int), jviews(v@), m, threshold),
            {
                assert(decreases_to!(*j => (*j)->Array_0));
                assert(decreases_to!(*a => a@));
                assert(decreases_to!(a@ => a@[i as int]));
                let x = replace_json(&a[i], color_map, threshold, space);
                let ghost before = jviews(v@);
                v.push(x);
                assert(jviews(v@) =~= before.push(jview(x)));
                assert(jviews(a@).take(i + 1).drop_last() =~= jviews(a@).take(i as int));
                assert(jviews(a@).take(i + 1).last() == jview(a@[i as int]));
                assert(jviews(v@).drop_last() =~= before);
            }
            assert(jviews(a@).take(a.len() as int) =~= jviews(a@));
            Json::Array(v)
        },
        Json::Object(o) => {
            let mut v: Vec<(String, Json)> = Vec::new();
            for i in 0..o.len()
                invariant
                    *j == Json::Object(*o),
                    m == cm_view(color_map@),
                    jrep_entries(jentries(o@).take(i as int), jentries(v@), m, threshold),
            {
                assert(decreases_to!(*j => (*j)->Object_0));
                assert(decreases_to!(*o => o@));
                assert(decreases_to!(o@ => o@[i as int]));
                assert(decreases_to!(o@[i as int] => o@[i as int].1));
                let x = replace_json(&o[i].1, color_map, threshold, space);
                let ghost before = jentries(v@);
                v.push((o[i].0.clone(), x));
                assert(jentries(v@) =~= before.push((o@[i as int].0@, jview(x))));
                assert(jentries(o@).take(i + 1).drop_last() =~= jentries(o@).take(i as int));
                assert(jentries(o@).take(i + 1).last() == jentries(o@)[i as int]);
                assert(jentries(v@).drop_last() =~= before);
            }
            assert(jentries(o@).take(o.len() as int) =~= jentries(o@));
            Json::Object(v)
        },
        Json::String(s) => Json::String(replace_text(s, color_map, threshold, space)),
        other => other.clone(),
    }
}

/// Replaces colors by references to their groups in the color map (see
/// `replaced`), when the group holds at least `threshold` colors.
pub fn replace_color<S: ColorSpace>(
    val: &ParsedValue,
    color_map: &Vec<(String, String, Vec<Color>)>,
    threshold: usize,
    space: &S,
) -> (r: ParsedValue)
    ensures
        replaced(*val, cm_view(color_map@), threshold, r),
{
    match val {
        ParsedValue::Color(c) => ParsedValue::String(color_ref_exec(c, color_map, threshold)),
        ParsedValue::String(s) => ParsedValue::String(replace_text(s, color_map, threshold, space)),
        ParsedValue::Value(v) => match v {
            Json::Array(_) | Json::Object(_) => ParsedValue::Value(replace_json(v, color_map, threshold, space)),
            Json::String(s) => ParsedValue::String(replace_text(s, color_map, threshold, space)),
            _ => val.clone(),
        },
        _ => val.clone(),
    }
}

proof fn lemma_same_lists(a: ResolvedVariable, b: ResolvedVariable)
    requires
        pvars_same(a.variables@, b.variables@),
    ensures
        var_lists(a) == var_lists(b),
{
    assert forall|i: int| 0 <= i < var_lists(a).len() implies var_lists(a)[i] == var_lists(b)[i] by {
        assert(pvar_same(a.variables@[i], b.variables@[i]));
    }
    assert(var_lists(a) =~= var_lists(b));
}

proof fn lemma_set_entry_safe(es: Entries, k: Seq<char>, v: ResolvedVariable)
    requires
        entries_safe(es),
        lists_safe(var_lists(v)),
    ensures
        entries_safe(set_entry(es, k, v)),
{
    let r = set_entry(es, k, v);
    crate::parsing::lemma_key_index_pub(es, k);
    let x = key_index(es, k);
    assert forall|i: int| 0 <= i < r.len() implies lists_safe(var_lists(#[trigger] r[i].1)) by {
        if x >= 0 {
            if i == x {
                assert(r[i].1 == v);
            } else {
                assert(r[i] == es[i]);
            }
        } else {
            if i < es.len() {
                assert(r[i] == es[i]);
            } else {
                assert(r[i].1 == v);
            }
        }
    }
}

proof fn lemma_unresolved_lists(v: ResolvedVariable)
    ensures
        var_lists(unresolved(v)) == var_lists(v),
{
    assert(var_lists(unresolved(v)) =~= var_lists(v));
}

pub(crate) proof fn lemma_no_vars_safe(v: ResolvedVariable)
    requires
        v.variables@.len() == 0,
    ensures
        lists_safe(var_lists(v)),
{
}


/// `safe_insert`, keeping every variable's changes safe to apply.
/// What `VariableSet::safe_insert` does to the entries: a new name is
/// added; under a taken name, a variable with the same identity becomes a
/// sibling, another one a conflict.
pub open spec fn safe_inserted(es: Entries, fs: Entries, name: Seq<char>, var: ResolvedVariable) -> bool {
    &&& key_index(es, name) < 0 ==> fs == set_entry(es, name, var)
    &&& key_index(es, name) >= 0 ==> ({
        let ex = es[key_index(es, name)].1;
        exists|p: ParsedValue, q: ParsedValue|
            #[trigger] identity_value(var.value, var_lists(var), p) && #[trigger] identity_value(
                ex.value,
                var_lists(ex),
                q,
            ) && if pv_eq(p, q) {
                sibling_added(es, fs, name, var)
            } else {
                conflict_result(es, fs, name, unresolved(var), ex)
            }
    })
}

/// What `VariableSet::inc_insert` does to the entries: `var` goes under
/// `name`; a variable already there moves to the first free numbered name.
pub open spec fn inc_inserted(es: Entries, fs: Entries, name: Seq<char>, var: ResolvedVariable) -> bool {
    &&& key_index(es, name) < 0 ==> fs == set_entry(es, name, var)
    &&& key_index(es, name) >= 0 ==> exists|c: nat, e: ResolvedVariable|
        #![trigger rv_same(e, es[key_index(es, name)].1), numbered(name, c)]
        1 <= c && rv_same(e, es[key_index(es, name)].1) && (forall|k: nat|
            1 <= k < c ==> key_index(es, #[trigger] numbered(name, k)) >= 0) && (c < usize::MAX ==> key_index(
            es,
            numbered(name, c),
        ) < 0) && fs == set_entry(set_entry(es, numbered(name, c), e), name, var)
}

fn safe_ins<S: ColorSpace>(set: &mut VariableSet, name: &str, var: ResolvedVariable, space: &S)
    requires
        old(set).wf(),
        entries_safe(old(set)@),
        lists_safe(var_lists(var)),
    ensures
        final(set).wf(),
        entries_safe(final(set)@),
        safe_inserted(old(set)@, final(set)@, name@, var),
{
    let ghost es = set@;
    let ghost v0 = var;
    set.safe_insert(name, var, space);
    proof {
        if key_index(es, name@) >= 0 {
            crate::parsing::lemma_key_index_pub(es, name@);
            let ex = es[key_index(es, name@)].1;
            assert(lists_safe(var_lists(ex)));
            let (p, q) = choose|p: ParsedValue, q: ParsedValue|
                #[trigger] identity_value(v0.value, var_lists(v0), p) && #[trigger] identity_value(
                    ex.value,
                    var_lists(ex),
                    q,
                ) && if pv_eq(p, q) {
                    sibling_added(es, set@, name@, v0)
                } else {
                    conflict_result(es, set@, name@, unresolved(v0), ex)
                };
            if pv_eq(p, q) {
                let i = key_index(es, name@);
                assert forall|j: int| 0 <= j < set@.len() implies lists_safe(var_lists(#[trigger] set@[j].1)) by {
                    if j != i {
                        assert(set@[j] == es[j]);
                    } else {
                        assert(var_lists(set@[j].1) =~= var_lists(es[j].1));
                    }
                }
            } else {
                let uv = unresolved(v0);
                lemma_unresolved_lists(v0);
                let vp = path_text(uv.path@);
                if !is_pointer_spec(ex) {
                    let (e2, ptr) = choose|e2: ResolvedVariable, ptr: ResolvedVariable|
                        #![trigger rv_same(e2, ex), new_pointer_of(ptr, name@, vp, e2)]
                        rv_same(e2, ex) && new_pointer_of(ptr, name@, vp, e2) && set@ == set_entry(
                            set_entry(set_entry(es, vp, unresolved(uv)), path_text(e2.path@), unresolved(e2)),
                            name@,
                            ptr,
                        );
                    lemma_unresolved_lists(uv);
                    lemma_unresolved_lists(e2);
                    lemma_same_lists(e2, ex);
                    lemma_set_entry_safe(es, vp, unresolved(uv));
                    lemma_set_entry_safe(set_entry(es, vp, unresolved(uv)), path_text(e2.path@), unresolved(e2));
                    lemma_set_entry_safe(
                        set_entry(set_entry(es, vp, unresolved(uv)), path_text(e2.path@), unresolved(e2)),
                        name@,
                        ptr,
                    );
                } else if ex.value is Variables {
                    let e2 = choose|e2: ResolvedVariable|
                        #[trigger] pointer_joined(e2, ex, vp) && set@ == set_entry(
                            set_entry(es, vp, unresolved(uv)),
                            name@,
                            e2,
                        );
                    lemma_unresolved_lists(uv);
                    lemma_same_lists(e2, ex);
                    lemma_set_entry_safe(es, vp, unresolved(uv));
                    lemma_set_entry_safe(set_entry(es, vp, unresolved(uv)), name@, e2);
                }
            }
        } else {
            lemma_set_entry_safe(es, name@, v0);
        }
    }
}

/// Equality of components as `derive(PartialEq)` gives it.
pub open spec fn comp_eq(a: crate::color::Component, b: crate::color::Component) -> bool {
    match (a, b) {
        (crate::color::Component::Hex(x), crate::color::Component::Hex(y)) => x@ == y@,
        _ => !(a is Hex) && !(b is Hex) && a == b,
    }
}

pub open spec fn op_eq(a: crate::color::Operation, b: crate::color::Operation) -> bool {
    comp_eq(a.0, b.0) && a.1@ == b.1@
}

pub open spec fn pvar_eq(a: ParsedVariable, b: ParsedVariable) -> bool {
    a.name@ == b.name@ && a.operations@.len() == b.operations@.len() && forall|i: int|
        0 <= i < a.operations@.len() ==> op_eq(#[trigger] a.operations@[i], b.operations@[i])
}

pub open spec fn pvars_eq(a: Seq<ParsedVariable>, b: Seq<ParsedVariable>) -> bool {
    a.len() == b.len() && forall|i: int| 0 <= i < a.len() ==> pvar_eq(#[trigger] a[i], b[i])
}

/// `==` on variables as `derive(PartialEq)` gives it (colors compared
/// with `Color::eq`).
pub open spec fn rv_eq(a: ResolvedVariable, b: ResolvedVariable) -> bool
    decreases a, 0nat,
{
    &&& a.path@ == b.path@
    &&& pv_eq(a.value, b.value)
    &&& pvars_eq(a.variables@, b.variables@)
    &&& a.resolved_id == b.resolved_id
    &&& rv_eq_seq(a.siblings@, b.siblings@)
}

pub open spec fn rv_eq_seq(a: Seq<ResolvedVariable>, b: Seq<ResolvedVariable>) -> bool
    decreases a, a.len(),
{
    a.len() == b.len() && (a.len() == 0 || ({
        proof {
            assert(decreases_to!(a => a.drop_last()));
        }
        rv_eq_seq(a.drop_last(), b.drop_last()) && rv_eq(a.last(), b.last())
    }))
}

proof fn lemma_color_eq_refl(c: Color)
    ensures
        crate::color::color_eq(c, c),
{
    assert(vstd::wrapping::i16_specs::wrapping_sub(c.hue, c.hue) == 0);
    assert(vstd::wrapping::i16_specs::wrapping_sub(c.saturation, c.saturation) == 0);
    assert(vstd::wrapping::i16_specs::wrapping_sub(c.value, c.value) == 0);
}

proof fn lemma_pvars_eq(a: Seq<ParsedVariable>, b: Seq<ParsedVariable>)
    requires
        pvars_same(a, b),
    ensures
        pvars_eq(b, a),
{
    assert forall|i: int| 0 <= i < b.len() implies pvar_eq(#[trigger] b[i], a[i]) by {
        assert(pvar_same(a[i], b[i]));
        assert forall|k: int| 0 <= k < b[i].operations@.len() implies op_eq(
            #[trigger] b[i].operations@[k],
            a[i].operations@[k],
        ) by {
            assert(b[i].operations@[k] == a[i].operations@[k]);
        }
    }
}

/// A variable is `==` to its copy.
proof fn lemma_same_eq(a: ResolvedVariable, b: ResolvedVariable)
    requires
        rv_same(a, b),
    ensures
        rv_eq(b, a),
    decreases a, 0nat,
{
    lemma_pvars_eq(a.variables@, b.variables@);
    if let ParsedValue::Color(c) = b.value {
        lemma_color_eq_refl(c);
    }
    assert(decreases_to!(a => a.siblings));
    assert(decreases_to!(a.siblings => a.siblings@));
    lemma_same_eq_seq(a.siblings@, b.siblings@);
}

proof fn lemma_same_eq_seq(x: Seq<ResolvedVariable>, y: Seq<ResolvedVariable>)
    requires
        x.len() == y.len(),
        forall|i: int| 0 <= i < x.len() ==> rv_same(#[trigger] x[i], y[i]),
    ensures
        rv_eq_seq(y, x),
    decreases x, x.len(),
{
    if x.len() > 0 {
        assert(decreases_to!(x => x.drop_last()));
        assert forall|i: int| 0 <= i < x.drop_last().len() implies rv_same(#[trigger] x.drop_last()[i], y.drop_last()[i]) by {
            assert(rv_same(x[i], y[i]));
        }
        lemma_same_eq_seq(x.drop_last(), y.drop_last());
        assert(rv_same(x[x.len() - 1], y[x.len() - 1]));
        assert(decreases_to!(x => x[x.len() - 1]));
        lemma_same_eq(x.last(), y.last());
    }
}

fn comp_equal(a: &crate::color::Component, b: &crate::color::Component) -> (r: bool)
    ensures
        r == comp_eq(*a, *b),
{
    match (a, b) {
        (crate::color::Component::Hex(x), crate::color::Component::Hex(y)) => crate::text::chars_eq(
            &chars_of(x.as_str()),
            &chars_of(y.as_str()),
        ),
        (crate::color::Component::Hex(_), _) => false,
        (_, crate::color::Component::Hex(_)) => false,
        _ => {
            let same_kind = match (a, b) {
                (crate::color::Component::Hue(_), crate::color::Component::Hue(_)) => true,
                (crate::color::Component::HsvSaturation(_), crate::color::Component::HsvSaturation(_)) => true,
                (crate::color::Component::HslSaturation(_), crate::color::Component::HslSaturation(_)) => true,
                (crate::color::Component::Value(_), crate::color::Component::Value(_)) => true,
                (crate::color::Component::Red(_), crate::color::Component::Red(_)) => true,
                (crate::color::Component::Green(_), crate::color::Component::Green(_)) => true,
                (crate::color::Component::Blue(_), crate::color::Component::Blue(_)) => true,
                (crate::color::Component::Lightness(_), crate::color::Component::Lightness(_)) => true,
                (crate::color::Component::Alpha(_), crate::color::Component::Alpha(_)) => true,
                _ => false,
            };
            same_kind && a.value() == b.value()
        },
    }
}

fn pvar_equal(a: &ParsedVariable, b: &ParsedVariable) -> (r: bool)
    ensures
        r == pvar_eq(*a, *b),
{
    if !crate::text::chars_eq(&chars_of(a.name.as_str()), &chars_of(b.name.as_str())) {
        return false;
    }
    if a.operations.len() != b.operations.len() {
        return false;
    }
    for i in 0..a.operations.len()
        invariant
            a.name@ == b.name@,
            a.operations@.len() == b.operations@.len(),
            forall|k: int| 0 <= k < i ==> op_eq(#[trigger] a.operations@[k], b.operations@[k]),
    {
        let x = &a.operations[i];
        let y = &b.operations[i];
        if !comp_equal(&x.0, &y.0) || !crate::text::chars_eq(&chars_of(x.1.as_str()), &chars_of(y.1.as_str())) {
            return false;
        }
    }
    true
}

pub(crate) fn path_equal(a: &JSPath, b: &JSPath) -> (r: bool)
    ensures
        r == (a@ == b@),
{
    crate::text::chars_eq(&chars_of(a.to_string().as_str()), &chars_of(b.to_string().as_str())) && a.0.len() == b.0.len() && keys_equal(a, b)
}

fn keys_equal(a: &JSPath, b: &JSPath) -> (r: bool)
    requires
        a@.len() == b@.len(),
    ensures
        r == (a@ == b@),
{
    for i in 0..a.0.len()
        invariant
            a@.len() == b@.len(),
            forall|k: int| 0 <= k < i ==> a@[k] == b@[k],
    {
        let same = match (&a.0[i], &b.0[i]) {
            (crate::json::JsonKey::Key(x), crate::json::JsonKey::Key(y)) => crate::text::chars_eq(&chars_of(x.as_str()), &chars_of(y.as_str())),
            (crate::json::JsonKey::Index(x), crate::json::JsonKey::Index(y)) => *x == *y,
            _ => false,
        };
        if !same {
            assert(a@[i as int] != b@[i as int]);
            return false;
        }
    }
    assert(a@ =~= b@);
    true
}

fn rv_equal(a: &ResolvedVariable, b: &ResolvedVariable) -> (r: bool)
    ensures
        r == rv_eq(*a, *b),
    decreases a,
{
    if !path_equal(&a.path, &b.path) || !a.value.eq(&b.value) || a.resolved_id != b.resolved_id {
        return false;
    }
    if a.variables.len() != b.variables.len() {
        return false;
    }
    for i in 0..a.variables.len()
        invariant
            a.variables@.len() == b.variables@.len(),
            forall|k: int| 0 <= k < i ==> pvar_eq(#[trigger] a.variables@[k], b.variables@[k]),
    {
        if !pvar_equal(&a.variables[i], &b.variables[i]) {
            return false;
        }
    }
    if a.siblings.len() != b.siblings.len() {
        return false;
    }
    for i in 0..a.siblings.len()
        invariant
            a.siblings@.len() == b.siblings@.len(),
            rv_eq_seq(a.siblings@.take(i as int), b.siblings@.take(i as int)),
    {
        assert(decreases_to!(*a => a.siblings));
        assert(decreases_to!(a.siblings => a.siblings@));
        assert(decreases_to!(a.siblings@ => a.siblings@[i as int]));
        if !rv_equal(&a.siblings[i], &b.siblings[i]) {
            proof {
                lemma_rv_eq_seq_at(a.siblings@, b.siblings@, i as int);
            }
            return false;
        }
        assert(a.siblings@.take(i + 1).drop_last() =~= a.siblings@.take(i as int));
        assert(b.siblings@.take(i + 1).drop_last() =~= b.siblings@.take(i as int));
    }
    assert(a.siblings@.take(a.siblings@.len() as int) =~= a.siblings@);
    assert(b.siblings@.take(b.siblings@.len() as int) =~= b.siblings@);
    true
}

proof fn lemma_rv_eq_seq_at(a: Seq<ResolvedVariable>, b: Seq<ResolvedVariable>, i: int)
    requires
        0 <= i < a.len() == b.len(),
        !rv_eq(a[i], b[i]),
    ensures
        !rv_eq_seq(a, b),
    decreases a.len(),
{
    if i < a.len() - 1 {
        assert(a.drop_last()[i] == a[i]);
        assert(b.drop_last()[i] == b[i]);
        lemma_rv_eq_seq_at(a.drop_last(), b.drop_last(), i);
    }
}

/// Values found for one name, grouped by their identity.
pub type Groups = Vec<(ParsedValue, Vec<(String, ResolvedVariable)>)>;

/// Variables with safe changes, at the top and among siblings.
pub open spec fn list_safe(vs: Seq<ResolvedVariable>) -> bool {
    forall|i: int| 0 <= i < vs.len() ==> lists_safe(var_lists(#[trigger] vs[i]))
}

pub open spec fn groups_safe(g: Seq<(ParsedValue, Vec<(String, ResolvedVariable)>)>) -> bool {
    forall|i: int, j: int|
        0 <= i < g.len() && 0 <= j < g[i].1@.len() ==> lists_safe(var_lists(#[trigger] g[i].1@[j].1))
}

/// Whether the variable's path reads as `p`.
pub open spec fn at_path(v: ResolvedVariable, p: Seq<char>) -> bool {
    path_text(v.path@) == p
}

/// The first variable of the list whose path reads as `p`.
fn find_by_path(list: &Vec<ResolvedVariable>, p: &String) -> (r: Option<usize>)
    ensures
        r matches Some(i) ==> i < list@.len() && at_path(list@[i as int], p@) && forall|k: int|
            0 <= k < i ==> !at_path(#[trigger] list@[k], p@),
        r is None ==> forall|k: int| 0 <= k < list@.len() ==> !at_path(#[trigger] list@[k], p@),
{
    for i in 0..list.len()
        invariant
            forall|k: int| 0 <= k < i ==> !at_path(#[trigger] list@[k], p@),
    {
        if crate::text::chars_eq(&chars_of(list[i].path.to_string().as_str()), &chars_of(p.as_str())) {
            return Some(i);
        }
    }
    None
}

/// The first sibling, going through the list in order, whose path reads
/// as `p`.
fn find_sibling(list: &Vec<ResolvedVariable>, p: &String) -> (r: Option<(usize, usize)>)
    ensures
        r matches Some((i, j)) ==> i < list@.len() && j < list@[i as int].siblings@.len() && at_path(
            list@[i as int].siblings@[j as int],
            p@,
        ) && (forall|a: int, b: int|
            0 <= a < i && 0 <= b < list@[a].siblings@.len() ==> !at_path(#[trigger] list@[a].siblings@[b], p@))
            && (forall|b: int| 0 <= b < j ==> !at_path(#[trigger] list@[i as int].siblings@[b], p@)),
        r is None ==> forall|a: int, b: int|
            0 <= a < list@.len() && 0 <= b < list@[a].siblings@.len() ==> !at_path(#[trigger] list@[a].siblings@[b], p@),
{
    for i in 0..list.len()
        invariant
            forall|a: int, b: int|
                0 <= a < i && 0 <= b < list@[a].siblings@.len() ==> !at_path(#[trigger] list@[a].siblings@[b], p@),
    {
        let sib = &list[i].siblings;
        for j in 0..sib.len()
            invariant
                i < list@.len(),
                sib@ == list@[i as int].siblings@,
                forall|a: int, b: int|
                    0 <= a < i && 0 <= b < list@[a].siblings@.len() ==> !at_path(#[trigger] list@[a].siblings@[b], p@),
                forall|b: int| 0 <= b < j ==> !at_path(#[trigger] list@[i as int].siblings@[b], p@),
        {
            if crate::text::chars_eq(&chars_of(sib[j].path.to_string().as_str()), &chars_of(p.as_str())) {
                return Some((i, j));
            }
        }
    }
    None
}

/// `g` is `g0` with `e` added to the first group whose identity equals
/// `id`, or with a new group `id` holding only `e` when there is none.
pub open spec fn group_added(
    g0: Seq<(ParsedValue, Vec<(String, ResolvedVariable)>)>,
    g: Seq<(ParsedValue, Vec<(String, ResolvedVariable)>)>,
    id: ParsedValue,
    e: (String, ResolvedVariable),
) -> bool {
    if forall|i: int| 0 <= i < g0.len() ==> !pv_eq((#[trigger] g0[i]).0, id) {
        &&& g.len() == g0.len() + 1
        &&& g.take(g0.len() as int) == g0
        &&& g.last().0 == id
        &&& g.last().1@ == seq![e]
    } else {
        exists|j: int|
            0 <= j < g0.len() && pv_eq((#[trigger] g0[j]).0, id) && (forall|i: int|
                0 <= i < j ==> !pv_eq((#[trigger] g0[i]).0, id)) && g.len() == g0.len() && (forall|i: int|
                0 <= i < g0.len() && i != j ==> #[trigger] g[i] == g0[i]) && g[j].0 == g0[j].0 && g[j].1@ == g0[j].1@.push(e)
    }
}

/// `u` is `u0` with `e` added (see `group_added`) under the first name equal
/// to `name`, or under a new last name `name` when there is none.
pub open spec fn set_added(
    u0: Seq<(JSPath, Groups)>,
    u: Seq<(JSPath, Groups)>,
    name: Seq<KeyView>,
    id: ParsedValue,
    e: (String, ResolvedVariable),
) -> bool {
    if forall|q: int| 0 <= q < u0.len() ==> (#[trigger] u0[q]).0@ != name {
        &&& u.len() == u0.len() + 1
        &&& u.take(u0.len() as int) == u0
        &&& u.last().0@ == name
        &&& group_added(Seq::empty(), u.last().1@, id, e)
    } else {
        exists|k: int|
            0 <= k < u0.len() && (#[trigger] u0[k]).0@ == name && (forall|q: int|
                0 <= q < k ==> (#[trigger] u0[q]).0@ != name) && u.len() == u0.len() && (forall|q: int|
                0 <= q < u0.len() && q != k ==> #[trigger] u[q] == u0[q]) && u[k].0 == u0[k].0 && group_added(
                u0[k].1@,
                u[k].1@,
                id,
                e,
            )
    }
}

/// Adds `entry` to the group of `identity` under `name`, creating what is
/// missing.
fn add_to_set(
    uset: &mut Vec<(JSPath, Groups)>,
    name: &JSPath,
    identity: ParsedValue,
    entry: (String, ResolvedVariable),
)
    requires
        forall|k: int| 0 <= k < old(uset)@.len() ==> groups_safe((#[trigger] old(uset)@[k]).1@),
        lists_safe(var_lists(entry.1)),
    ensures
        forall|k: int| 0 <= k < final(uset)@.len() ==> groups_safe((#[trigger] final(uset)@[k]).1@),
        set_added(old(uset)@, final(uset)@, name@, identity, entry),
{
    let ghost uo = uset@;
    let ghost e0 = entry;
    let ghost id0 = identity;
    let mut at: Option<usize> = None;
    for k in 0..uset.len()
        invariant
            uset@ == uo,
            at matches Some(x) ==> x < k && uo[x as int].0@ == name@ && forall|q: int|
                0 <= q < x ==> (#[trigger] uo[q]).0@ != name@,
            at is None ==> forall|q: int| 0 <= q < k ==> (#[trigger] uo[q]).0@ != name@,
    {
        if at.is_none() && path_equal(&uset[k].0, name) {
            at = Some(k);
        }
    }
    let k = match at {
        Some(k) => k,
        None => {
            uset.push((name.clone(), Vec::new()));
            assert(groups_safe(uset@[uset@.len() - 1].1@));
            uset.len() - 1
        },
    };
    let ghost u0 = uset@;
    let (key, mut groups) = uset.remove(k);
    let mut gi: Option<usize> = None;
    for g in 0..groups.len()
        invariant
            gi matches Some(x) ==> x < g && pv_eq(groups@[x as int].0, identity) && forall|i: int|
                0 <= i < x ==> !pv_eq((#[trigger] groups@[i]).0, identity),
            gi is None ==> forall|i: int| 0 <= i < g ==> !pv_eq((#[trigger] groups@[i]).0, identity),
    {
        if gi.is_none() && groups[g].0.eq(&identity) {
            gi = Some(g);
        }
    }
    let ghost g0 = groups@;
    match gi {
        Some(g) => {
            let (id, mut list) = groups.remove(g);
            list.push(entry);
            groups.insert(g, (id, list));
        },
        None => {
            let mut list: Vec<(String, ResolvedVariable)> = Vec::new();
            list.push(entry);
            groups.push((identity, list));
        },
    }
    proof {
        assert forall|i: int, j: int|
            0 <= i < groups@.len() && 0 <= j < groups@[i].1@.len() implies lists_safe(var_lists(#[trigger] groups@[i].1@[j].1)) by {
            if gi is Some && i == gi->0 {
                if j < g0[i].1@.len() {
                    assert(groups@[i].1@[j] == g0[i].1@[j]);
                }
            } else if gi is None && i == g0.len() {
            } else {
                assert(groups@[i] == g0[i]);
            }
        }
        match gi {
            Some(g) => {
                assert(groups@[g as int].1@ =~= g0[g as int].1@.push(e0));
                assert(forall|i: int| 0 <= i < g0.len() && i != g ==> #[trigger] groups@[i] == g0[i]);
            },
            None => {
                assert(groups@.take(g0.len() as int) =~= g0);
                assert(groups@.last().1@ =~= seq![e0]);
            },
        }
        assert(group_added(g0, groups@, id0, e0));
    }
    uset.insert(k, (key, groups));
    proof {
        assert forall|q: int| 0 <= q < uset@.len() implies groups_safe((#[trigger] uset@[q]).1@) by {
            if q != k {
                assert(uset@[q] == u0[q]);
            }
        }
        match at {
            Some(x) => {
                assert(g0 == uo[x as int].1@);
                assert(forall|q: int| 0 <= q < uo.len() && q != x ==> #[trigger] uset@[q] == uo[q]);
            },
            None => {
                assert(g0 == Seq::<(ParsedValue, Vec<(String, ResolvedVariable)>)>::empty());
                assert(uset@.take(uo.len() as int) =~= uo);
            },
        }
    }
}

/// `results_from`, where reading the identity as a color cannot panic.
fn results_from_checked<S: ColorSpace>(v: &ResolvedVariable, identity: &ParsedValue, space: &S) -> (r: bool)
    requires
        lists_safe(var_lists(*v)),
    ensures
        if v.value is Color && (identity matches ParsedValue::String(t) && !color_text_ok(t@)) {
            !r
        } else {
            crate::parsing::results_from_spec(*v, *identity, r)
        },
{
    let ok = match (&v.value, identity) {
        (ParsedValue::Color(_), ParsedValue::String(t)) => color_text_ok_exec(t.as_str()),
        _ => true,
    };
    if !ok {
        return false;
    }
    v.results_from(identity, space)
}

fn entry_eq(a: &(String, ResolvedVariable), b: &(String, ResolvedVariable)) -> (r: bool)
    ensures
        r == (a.0@ == b.0@ && rv_eq(a.1, b.1)),
{
    crate::text::chars_eq(&chars_of(a.0.as_str()), &chars_of(b.0.as_str())) && rv_equal(&a.1, &b.1)
}

/// Two entries with the same name and equal variables.
pub open spec fn entry_same(a: (String, ResolvedVariable), b: (String, ResolvedVariable)) -> bool {
    a.0@ == b.0@ && rv_eq(a.1, b.1)
}

/// Two lists of entries, equal item by item.
pub open spec fn entries_eq(a: Seq<(String, ResolvedVariable)>, b: Seq<(String, ResolvedVariable)>) -> bool {
    a.len() == b.len() && forall|i: int| 0 <= i < a.len() ==> entry_same(#[trigger] a[i], b[i])
}

fn list_eq(a: &Vec<(String, ResolvedVariable)>, b: &Vec<(String, ResolvedVariable)>) -> (r: bool)
    ensures
        r == entries_eq(a@, b@),
{
    if a.len() != b.len() {
        return false;
    }
    for i in 0..a.len()
        invariant
            a@.len() == b@.len(),
            forall|k: int| 0 <= k < i ==> entry_same(#[trigger] a@[k], b@[k]),
    {
        if !entry_eq(&a[i], &b[i]) {
            return false;
        }
    }
    true
}

fn clone_entry(e: &(String, ResolvedVariable)) -> (r: (String, ResolvedVariable))
    ensures
        r.0@ == e.0@,
        rv_same(r.1, e.1),
{
    (e.0.clone(), e.1.clone())
}

pub open spec fn entries_list_safe(l: Seq<(String, ResolvedVariable)>) -> bool {
    forall|j: int| 0 <= j < l.len() ==> lists_safe(var_lists(#[trigger] l[j].1))
}

proof fn lemma_clone_safe(a: ResolvedVariable, b: ResolvedVariable)
    requires
        rv_same(a, b),
        lists_safe(var_lists(b)),
    ensures
        lists_safe(var_lists(a)),
{
    lemma_same_lists(a, b);
}

/// `e` is a copy of an entry of `l`.
pub open spec fn entry_from(e: (String, ResolvedVariable), l: Seq<(String, ResolvedVariable)>) -> bool {
    exists|j: int| 0 <= j < l.len() && e.0@ == (#[trigger] l[j]).0@ && rv_same(e.1, l[j].1)
}

/// Removes runs of equal entries (`Vec::dedup`).
fn dedup_entries(l: &Vec<(String, ResolvedVariable)>) -> (r: Vec<(String, ResolvedVariable)>)
    requires
        entries_list_safe(l@),
    ensures
        entries_list_safe(r@),
        l@.len() > 0 ==> r@.len() > 0,
        forall|k: int| 0 <= k < r@.len() ==> entry_from(#[trigger] r@[k], l@),
{
    let mut r: Vec<(String, ResolvedVariable)> = Vec::new();
    for i in 0..l.len()
        invariant
            entries_list_safe(l@),
            entries_list_safe(r@),
            i > 0 ==> r@.len() > 0,
            forall|k: int| 0 <= k < r@.len() ==> entry_from(#[trigger] r@[k], l@),
    {
        let n = r.len();
        if n == 0 || !entry_eq(&r[n - 1], &l[i]) {
            let e = clone_entry(&l[i]);
            proof {
                lemma_clone_safe(e.1, l@[i as int].1);
                assert(entry_from(e, l@)) by {
                    assert(e.0@ == l@[i as int].0@);
                }
            }
            let ghost r0 = r@;
            r.push(e);
            proof {
                assert forall|k: int| 0 <= k < r@.len() implies entry_from(#[trigger] r@[k], l@) by {
                    if k < r0.len() {
                        assert(r@[k] == r0[k]);
                    }
                }
            }
        }
    }
    r
}

/// The lists with each run of equal neighbours kept once (`Vec::dedup`).
pub open spec fn dedup_seq(s: Seq<Vec<(String, ResolvedVariable)>>) -> Seq<Vec<(String, ResolvedVariable)>>
    decreases s.len(),
{
    if s.len() == 0 {
        s
    } else {
        let d = dedup_seq(s.drop_last());
        if d.len() > 0 && entries_eq(d.last()@, s.last()@) {
            d
        } else {
            d.push(s.last())
        }
    }
}

/// Removes runs of equal lists.
fn dedup_lists(ls: Vec<Vec<(String, ResolvedVariable)>>) -> (r: Vec<Vec<(String, ResolvedVariable)>>)
    requires
        forall|k: int| 0 <= k < ls@.len() ==> entries_list_safe((#[trigger] ls@[k])@),
    ensures
        forall|k: int| 0 <= k < r@.len() ==> entries_list_safe((#[trigger] r@[k])@),
        ls@.len() > 0 ==> r@.len() > 0 && r@[0] == ls@[0],
        r@ == dedup_seq(ls@),
{
    let mut r: Vec<Vec<(String, ResolvedVariable)>> = Vec::new();
    let mut ls = ls;
    let ghost l0 = ls@;
    let n = ls.len();
    let mut i: usize = 0;
    while ls.len() > 0
        invariant
            i + ls@.len() == n,
            n == l0.len(),
            ls@ == l0.skip(i as int),
            forall|k: int| 0 <= k < l0.len() ==> entries_list_safe((#[trigger] l0[k])@),
            forall|k: int| 0 <= k < r@.len() ==> entries_list_safe((#[trigger] r@[k])@),
            i > 0 ==> r@.len() > 0 && r@[0] == l0[0],
            i == 0 ==> r@.len() == 0,
            r@ == dedup_seq(l0.take(i as int)),
        decreases ls.len(),
    {
        let x = ls.remove(0);
        assert(x == l0[i as int]);
        assert(ls@ =~= l0.skip(i + 1));
        assert(l0.take(i + 1).drop_last() =~= l0.take(i as int));
        assert(l0.take(i + 1).last() == x);
        let m = r.len();
        let ghost r0 = r@;
        if m == 0 || !list_eq(&r[m - 1], &x) {
            r.push(x);
            assert(r@[0] == (if m == 0 { x } else { r0[0] }));
        }
        i = i + 1;
    }
    assert(l0.take(n as int) =~= l0);
    r
}

proof fn lemma_unresolved_in(es: Entries)
    ensures
        forall|i: int|
            0 <= i < unresolved_of(es).len() ==> exists|j: int|
                0 <= j < es.len() && #[trigger] unresolved_of(es)[i] == es[j].1,
    decreases es.len(),
{
    if es.len() > 0 {
        let d = es.drop_last();
        lemma_unresolved_in(d);
        assert forall|i: int| 0 <= i < unresolved_of(es).len() implies exists|j: int|
            0 <= j < es.len() && #[trigger] unresolved_of(es)[i] == es[j].1 by {
            if i < unresolved_of(d).len() {
                let j = choose|j: int| 0 <= j < d.len() && #[trigger] unresolved_of(d)[i] == d[j].1;
                assert(es[j] == d[j]);
            } else {
                assert(unresolved_of(es)[i] == es[es.len() - 1].1);
            }
        }
    }
}

proof fn lemma_resolvable_all(es: Entries)
    ensures
        forall|i: int| 0 <= i < resolvable_of(es).len() ==> is_resolvable_spec(#[trigger] resolvable_of(es)[i].1),
    decreases es.len(),
{
    if es.len() > 0 {
        let d = es.drop_last();
        lemma_resolvable_all(d);
        let r = resolvable_of(es);
        assert forall|i: int| 0 <= i < r.len() implies is_resolvable_spec(#[trigger] r[i].1) by {
            if i < resolvable_of(d).len() {
                assert(r[i] == resolvable_of(d)[i]);
            }
        }
    }
}

/// Tries the further names of an unresolved variable: it goes under the
/// first name not yet taken, else under the pointer's name.
/// Every name of `es` is a name of `fs`.
pub open spec fn keys_grow(es: Entries, fs: Entries) -> bool {
    forall|k: Seq<char>| key_index(es, k) >= 0 ==> #[trigger] key_index(fs, k) >= 0
}

pub(crate) proof fn lemma_grow_trans(a: Entries, b: Entries, c: Entries)
    requires
        keys_grow(a, b),
        keys_grow(b, c),
    ensures
        keys_grow(a, c),
{
    assert forall|k: Seq<char>| key_index(a, k) >= 0 implies #[trigger] key_index(c, k) >= 0 by {
        assert(key_index(b, k) >= 0);
    }
}

pub(crate) proof fn lemma_grow_set_entry(es: Entries, k: Seq<char>, v: ResolvedVariable)
    requires
        keys_unique(es),
    ensures
        keys_unique(set_entry(es, k, v)),
        keys_grow(es, set_entry(es, k, v)),
        key_index(set_entry(es, k, v), k) >= 0,
{
    crate::parsing::lemma_set_entry_unique(es, k, v);
    assert forall|x: Seq<char>| key_index(es, x) >= 0 implies #[trigger] key_index(set_entry(es, k, v), x) >= 0 by {
        crate::parsing::law_insert_then_find(es, k, v, x);
    }
}

proof fn lemma_same_keys(es: Entries, fs: Entries, k: Seq<char>)
    requires
        es.len() == fs.len(),
        forall|j: int| 0 <= j < es.len() ==> (#[trigger] es[j]).0 == fs[j].0,
    ensures
        key_index(fs, k) == key_index(es, k),
    decreases es.len(),
{
    if es.len() > 0 {
        assert forall|j: int| 0 <= j < es.drop_last().len() implies (#[trigger] es.drop_last()[j]).0
            == fs.drop_last()[j].0 by {
            assert(es[j].0 == fs[j].0);
        }
        lemma_same_keys(es.drop_last(), fs.drop_last(), k);
        assert(es.last().0 == fs.last().0);
    }
}

proof fn lemma_inc_grow(es: Entries, fs: Entries, name: Seq<char>, var: ResolvedVariable)
    requires
        keys_unique(es),
        inc_inserted(es, fs, name, var),
    ensures
        keys_grow(es, fs),
        key_index(fs, name) >= 0,
{
    if key_index(es, name) < 0 {
        lemma_grow_set_entry(es, name, var);
    } else {
        let (c, e) = choose|c: nat, e: ResolvedVariable|
            #![trigger rv_same(e, es[key_index(es, name)].1), numbered(name, c)]
            1 <= c && rv_same(e, es[key_index(es, name)].1) && (forall|k: nat|
                1 <= k < c ==> key_index(es, #[trigger] numbered(name, k)) >= 0) && (c < usize::MAX ==> key_index(
                es,
                numbered(name, c),
            ) < 0) && fs == set_entry(set_entry(es, numbered(name, c), e), name, var);
        let m = set_entry(es, numbered(name, c), e);
        lemma_grow_set_entry(es, numbered(name, c), e);
        lemma_grow_set_entry(m, name, var);
        lemma_grow_trans(es, m, fs);
    }
}

proof fn lemma_safe_grow(es: Entries, fs: Entries, name: Seq<char>, var: ResolvedVariable)
    requires
        keys_unique(es),
        safe_inserted(es, fs, name, var),
    ensures
        keys_grow(es, fs),
        key_index(fs, name) >= 0,
{
    if key_index(es, name) < 0 {
        lemma_grow_set_entry(es, name, var);
    } else {
        let ex = es[key_index(es, name)].1;
        let (p, q) = choose|p: ParsedValue, q: ParsedValue|
            #[trigger] identity_value(var.value, var_lists(var), p) && #[trigger] identity_value(
                ex.value,
                var_lists(ex),
                q,
            ) && if pv_eq(p, q) {
                sibling_added(es, fs, name, var)
            } else {
                conflict_result(es, fs, name, unresolved(var), ex)
            };
        if pv_eq(p, q) {
            let i = key_index(es, name);
            assert forall|j: int| 0 <= j < es.len() implies (#[trigger] es[j]).0 == fs[j].0 by {
                if j != i {
                    assert(fs[j] == es[j]);
                } else {
                    crate::parsing::lemma_key_index_pub(es, name);
                }
            }
            assert forall|k: Seq<char>| key_index(es, k) >= 0 implies #[trigger] key_index(fs, k) >= 0 by {
                lemma_same_keys(es, fs, k);
            }
            lemma_same_keys(es, fs, name);
        } else {
            let uv = unresolved(var);
            let vp = path_text(uv.path@);
            if !is_pointer_spec(ex) {
                let (e2, ptr) = choose|e2: ResolvedVariable, ptr: ResolvedVariable|
                    #![trigger rv_same(e2, ex), new_pointer_of(ptr, name, vp, e2)]
                    rv_same(e2, ex) && new_pointer_of(ptr, name, vp, e2) && fs == set_entry(
                        set_entry(set_entry(es, vp, unresolved(uv)), path_text(e2.path@), unresolved(e2)),
                        name,
                        ptr,
                    );
                let m1 = set_entry(es, vp, unresolved(uv));
                let m2 = set_entry(m1, path_text(e2.path@), unresolved(e2));
                lemma_grow_set_entry(es, vp, unresolved(uv));
                lemma_grow_set_entry(m1, path_text(e2.path@), unresolved(e2));
                lemma_grow_set_entry(m2, name, ptr);
                lemma_grow_trans(es, m1, m2);
                lemma_grow_trans(es, m2, fs);
            } else if ex.value is Variables {
                let e2 = choose|e2: ResolvedVariable|
                    #[trigger] pointer_joined(e2, ex, vp) && fs == set_entry(
                        set_entry(es, vp, unresolved(uv)),
                        name,
                        e2,
                    );
                let m1 = set_entry(es, vp, unresolved(uv));
                lemma_grow_set_entry(es, vp, unresolved(uv));
                lemma_grow_set_entry(m1, name, e2);
                lemma_grow_trans(es, m1, fs);
            } else {
                crate::parsing::lemma_key_index_pub(es, name);
            }
        }
    }
}

/// `a` is `b` with its resolved index set to `id`.
pub open spec fn with_id(a: ResolvedVariable, b: ResolvedVariable, id: Option<usize>) -> bool {
    &&& a.path@ == b.path@
    &&& pv_same(a.value, b.value)
    &&& pvars_same(a.variables@, b.variables@)
    &&& a.resolved_id == id
    &&& a.siblings@.len() == b.siblings@.len()
    &&& forall|i: int| 0 <= i < a.siblings@.len() ==> rv_same(#[trigger] a.siblings@[i], b.siblings@[i])
}

/// Where `insert_rest` puts `u`: a variable that could resolve goes,
/// moved to its second name, under that name when no variable holds it; a
/// variable of one name goes, with no name chosen, under the pointer's
/// name; anything else goes as it is under the pointer's name.
pub open spec fn rest_inserted(u: ResolvedVariable, pointer: Seq<char>, taken: Entries, es: Entries, fs: Entries) -> bool {
    let n = u.variables@.len();
    if !(u.resolved_id is None && n > 0) {
        exists|e: ResolvedVariable| #[trigger] rv_same(e, u) && inc_inserted(es, fs, pointer, e)
    } else if n == 1 {
        exists|e: ResolvedVariable| #[trigger] with_id(e, u, None) && inc_inserted(es, fs, pointer, e)
    } else if key_index(taken, u.variables@[1].name@) < 0 {
        exists|e: ResolvedVariable|
            #[trigger] with_id(e, u, Some(1usize)) && inc_inserted(es, fs, u.variables@[1].name@, e)
    } else {
        exists|e: ResolvedVariable| #[trigger] rv_same(e, u) && inc_inserted(es, fs, pointer, e)
    }
}

fn insert_rest(u: &ResolvedVariable, var_name: &JSPath, var_set: &VariableSet, unvar_set: &mut VariableSet)
    requires
        old(unvar_set).wf(),
    ensures
        final(unvar_set).wf(),
        rest_inserted(*u, join_text(var_name@), var_set@, old(unvar_set)@, final(unvar_set)@),
        keys_grow(old(unvar_set)@, final(unvar_set)@),
{
    let join = var_name.join();
    let ghost es = unvar_set@;
    if !u.could_resolve() {
        let c = u.clone();
        unvar_set.inc_insert(join.as_str(), c);
        assert(rv_same(c, *u) && inc_inserted(es, unvar_set@, join@, c));
        proof {
            lemma_inc_grow(es, unvar_set@, join@, c);
        }
        return;
    }
    let mut new = u.clone();
    let _ = new.next();
    let mut nn = new.clone();
    let _ = new.next();
    let current = match nn.next() {
        Some(next) => {
            assert(pvar_same(next, u.variables@[1]));
            if !var_set.has_variable(next.name.as_str()) {
                unvar_set.inc_insert(next.name.as_str(), new);
                assert(with_id(new, *u, Some(1usize)) && inc_inserted(es, unvar_set@, u.variables@[1].name@, new));
                proof {
                    lemma_inc_grow(es, unvar_set@, u.variables@[1].name@, new);
                }
                return;
            }
            new
        },
        None => {
            unvar_set.inc_insert(join.as_str(), new);
            assert(with_id(new, *u, None) && inc_inserted(es, unvar_set@, join@, new));
            proof {
                lemma_inc_grow(es, unvar_set@, join@, new);
            }
            return;
        },
    };
    if current.could_resolve() {
        let mut new = u.clone();
        let mut nn = new.clone();
        let _ = new.next();
        match nn.next() {
            Some(next) => {
                if !var_set.has_variable(next.name.as_str()) {
                    unvar_set.inc_insert(next.name.as_str(), new);
                    return;
                }
            },
            None => {
                unvar_set.inc_insert(join.as_str(), new);
                return;
            },
        }
    }
    let c = u.clone();
    unvar_set.inc_insert(join.as_str(), c);
    assert(rv_same(c, *u) && inc_inserted(es, unvar_set@, join@, c));
    proof {
        lemma_inc_grow(es, unvar_set@, join@, c);
    }
}

/// Some entry of `l` is equal to `e`.
pub open spec fn holds_entry(l: Seq<(String, ResolvedVariable)>, e: (String, ResolvedVariable)) -> bool {
    exists|i: int| 0 <= i < l.len() && entry_same(#[trigger] l[i], e)
}

fn list_contains(l: &Vec<(String, ResolvedVariable)>, e: &(String, ResolvedVariable)) -> (r: bool)
    ensures
        r == holds_entry(l@, *e),
{
    for i in 0..l.len()
        invariant
            forall|k: int| 0 <= k < i ==> !entry_same(#[trigger] l@[k], *e),
    {
        if entry_eq(&l[i], e) {
            return true;
        }
    }
    false
}

/// Settles the values found for one pointer name: the identity that the
/// most values follow becomes the variable under that name; the others go
/// to the unresolved set.
/// The first entry of `x`, if any, is a copy of an entry of one of the
/// groups.
pub open spec fn head_from(x: Vec<(String, ResolvedVariable)>, iden: Seq<(ParsedValue, Vec<(String, ResolvedVariable)>)>) -> bool {
    x@.len() > 0 ==> exists|k: int| 0 <= k < iden.len() && entry_from(x@[0], (#[trigger] iden[k]).1@)
}

fn process_group<S: ColorSpace>(
    var_name: &JSPath,
    groups: Groups,
    var_set: &mut VariableSet,
    unvar_set: &mut VariableSet,
    space: &S,
)
    requires
        old(var_set).wf(),
        old(unvar_set).wf(),
        groups_safe(groups@),
    ensures
        final(var_set).wf(),
        final(unvar_set).wf(),
        keys_grow(old(unvar_set)@, final(unvar_set)@),
        *final(var_set) == *old(var_set) || exists|v: ResolvedVariable, g: int|
            0 <= g < groups@.len() && #[trigger] pv_same(v.value, groups@[g].0) && final(var_set)@ == set_entry(
                old(var_set)@,
                join_text(var_name@),
                v,
            ),
        (exists|g: int| 0 <= g < groups@.len() && (#[trigger] groups@[g]).1@.len() > 0) ==> key_index(
            final(var_set)@,
            join_text(var_name@),
        ) >= 0,
{
    let ghost u0 = unvar_set@;
    let ghost gs = groups@;
    assert(keys_grow(u0, u0));
    let mut iden = groups;
    let mut values: Vec<ResolvedVariable> = Vec::new();
    for g in 0..iden.len()
        invariant
            groups_safe(iden@),
            list_safe(values@),
            iden@ == gs,
    {
        let l = &iden[g].1;
        for k in 0..l.len()
            invariant
                groups_safe(iden@),
                g < iden@.len(),
                l@ == iden@[g as int].1@,
                list_safe(values@),
        {
            let v = l[k].1.clone();
            proof {
                lemma_clone_safe(v, l@[k as int].1);
            }
            values.push(v);
        }
    }
    let n = iden.len();
    for g in 0..n
        invariant
            n == iden@.len(),
            groups_safe(iden@),
            list_safe(values@),
            n == gs.len(),
            forall|i: int| 0 <= i < n ==> (#[trigger] iden@[i]).0 == gs[i].0 && iden@[i].1@.len() >= gs[i].1@.len(),
    {
        let identity = iden[g].0.clone();
        let ghost i0 = iden@;
        let (id, mut list) = iden.remove(g);
        assert(id == i0[g as int].0 && list == i0[g as int].1);
        for k in 0..values.len()
            invariant
                list_safe(values@),
                entries_list_safe(list@),
                list@.len() >= i0[g as int].1@.len(),
        {
            if results_from_checked(&values[k], &identity, space) {
                let v = values[k].clone();
                proof {
                    lemma_clone_safe(v, values@[k as int]);
                }
                list.push((values[k].path.to_string(), v));
            }
        }
        iden.insert(g, (id, list));
        proof {
            assert forall|i: int, j: int|
                0 <= i < iden@.len() && 0 <= j < iden@[i].1@.len() implies lists_safe(var_lists(#[trigger] iden@[i].1@[j].1)) by {
                if i != g {
                    assert(iden@[i] == i0[i]);
                }
            }
            assert forall|i: int| 0 <= i < n implies (#[trigger] iden@[i]).0 == gs[i].0 && iden@[i].1@.len() >= gs[i].1@.len() by {
                if i != g {
                    assert(iden@[i] == i0[i]);
                }
            }
        }
    }
    let ghost owed = exists|g: int| 0 <= g < gs.len() && (#[trigger] gs[g]).1@.len() > 0;
    let mut imv: Vec<Vec<(String, ResolvedVariable)>> = Vec::new();
    let mut max_len: usize = 0;
    for g in 0..iden.len()
        invariant
            groups_safe(iden@),
            forall|k: int| 0 <= k < imv@.len() ==> entries_list_safe((#[trigger] imv@[k])@),
            imv@.len() == g,
            g <= iden@.len(),
            iden@.len() == gs.len(),
            forall|i: int| 0 <= i < iden@.len() ==> (#[trigger] iden@[i]).0 == gs[i].0 && iden@[i].1@.len() >= gs[i].1@.len(),
            forall|k: int| 0 <= k < g ==> (#[trigger] imv@[k])@.len() <= max_len,
            forall|k: int| 0 <= k < g ==> gs[k].1@.len() > 0 ==> (#[trigger] imv@[k])@.len() > 0,
            forall|k: int| 0 <= k < g ==> head_from(#[trigger] imv@[k], iden@),
            max_len == 0 || exists|k: int| 0 <= k < g && (#[trigger] imv@[k])@.len() == max_len,
    {
        proof {
            assert(entries_list_safe(iden@[g as int].1@));
        }
        let d = dedup_entries(&iden[g].1);
        if d.len() > max_len {
            max_len = d.len();
        }
        proof {
            if d@.len() > 0 {
                assert(entry_from(d@[0], iden@[g as int].1@));
            }
        }
        let ghost im0 = imv@;
        imv.push(d);
        proof {
            assert(imv@[g as int] == d);
            assert forall|k: int| 0 <= k < g implies #[trigger] imv@[k] == im0[k] by {}
            if max_len > 0 && max_len != d@.len() {
                let k = choose|k: int| 0 <= k < g && (#[trigger] im0[k])@.len() == max_len;
                assert(imv@[k] == im0[k]);
            }
        }
    }
    proof {
        if owed {
            let g = choose|g: int| 0 <= g < gs.len() && (#[trigger] gs[g]).1@.len() > 0;
            assert(imv@[g]@.len() > 0);
            assert(max_len > 0);
        }
    }
    if imv.len() == 0 {
        return;
    }
    let mut max: Vec<Vec<(String, ResolvedVariable)>> = Vec::new();
    let mut rest: Vec<Vec<(String, ResolvedVariable)>> = Vec::new();
    let mut imv = imv;
    while imv.len() > 0
        invariant
            forall|k: int| 0 <= k < imv@.len() ==> entries_list_safe((#[trigger] imv@[k])@),
            forall|k: int| 0 <= k < max@.len() ==> entries_list_safe((#[trigger] max@[k])@),
            forall|k: int| 0 <= k < rest@.len() ==> entries_list_safe((#[trigger] rest@[k])@),
            forall|k: int| 0 <= k < imv@.len() ==> head_from(#[trigger] imv@[k], iden@),
            forall|k: int| 0 <= k < max@.len() ==> head_from(#[trigger] max@[k], iden@) && max@[k]@.len() == max_len,
            max_len > 0 ==> max@.len() > 0 || exists|k: int| 0 <= k < imv@.len() && (#[trigger] imv@[k])@.len() == max_len,
        decreases imv.len(),
    {
        let ghost im0 = imv@;
        let ghost mx0 = max@;
        let l = imv.remove(0);
        proof {
            assert(l == im0[0]);
            assert forall|k: int| 0 <= k < imv@.len() implies #[trigger] imv@[k] == im0[k + 1] by {}
        }
        if l.len() == max_len {
            max.push(l);
            proof {
                assert forall|k: int| 0 <= k < max@.len() implies head_from(#[trigger] max@[k], iden@) && max@[k]@.len() == max_len by {
                    if k < mx0.len() {
                        assert(max@[k] == mx0[k]);
                    }
                }
            }
        } else {
            rest.push(l);
            proof {
                if max_len > 0 && max@.len() == 0 {
                    let k = choose|k: int| 0 <= k < im0.len() && (#[trigger] im0[k])@.len() == max_len;
                    assert(k != 0);
                    assert(imv@[k - 1] == im0[k]);
                }
            }
        }
        proof {
            assert forall|k: int| 0 <= k < imv@.len() implies head_from(#[trigger] imv@[k], iden@) by {
                assert(imv@[k] == im0[k + 1]);
            }
        }
    }
    let ghost mx = max@;
    let max = dedup_lists(max);
    let rest = dedup_lists(rest);
    if max.len() == 0 || max[0].len() == 0 {
        return;
    }
    let first = &max[0];
    let first_found = &first[0];
    proof {
        assert(max@[0] == mx[0]);
        assert(head_from(mx[0], iden@));
    }
    let mut gid: Option<usize> = None;
    for g in 0..iden.len()
        invariant
            gid matches Some(x) ==> x < iden@.len(),
            gid is None ==> forall|q: int| 0 <= q < g ==> !#[trigger] holds_entry(iden@[q].1@, *first_found),
    {
        if gid.is_none() && list_contains(&iden[g].1, first_found) {
            gid = Some(g);
        }
    }
    let g = match gid {
        Some(g) => g,
        None => {
            proof {
                let k = choose|k: int| 0 <= k < iden@.len() && entry_from(*first_found, (#[trigger] iden@[k]).1@);
                let j = choose|j: int|
                    0 <= j < iden@[k].1@.len() && first_found.0@ == (#[trigger] iden@[k].1@[j]).0@ && rv_same(first_found.1, iden@[k].1@[j].1);
                lemma_same_eq(first_found.1, iden@[k].1@[j].1);
                assert(entry_same(iden@[k].1@[j], *first_found));
                assert(holds_entry(iden@[k].1@, *first_found));
            }
            return;
        },
    };
    let mut first_var = first_found.1.clone();
    first_var.value = iden[g].0.clone();
    let _ = first_var.next();
    let ghost vs0 = var_set@;
    var_set.insert(var_name.join().as_str(), first_var);
    proof {
        assert(pv_same(first_var.value, gs[g as int].0));
        lemma_grow_set_entry(vs0, join_text(var_name@), first_var);
    }
    let mut all_rest = rest;
    for k in 0..max.len() {
        all_rest.push(clone_list(&max[k]));
    }
    for k in 0..all_rest.len()
        invariant
            var_set.wf(),
            unvar_set.wf(),
            keys_grow(u0, unvar_set@),
    {
        let l = &all_rest[k];
        for t in 0..l.len()
            invariant
                var_set.wf(),
                unvar_set.wf(),
                keys_grow(u0, unvar_set@),
        {
            if !list_contains(first, &l[t]) {
                let ghost pre = unvar_set@;
                insert_rest(&l[t].1, var_name, var_set, unvar_set);
                proof {
                    lemma_grow_trans(u0, pre, unvar_set@);
                }
            }
        }
    }
}

fn clone_groups(g: &Groups) -> (r: Groups)
    requires
        groups_safe(g@),
    ensures
        groups_safe(r@),
{
    let mut r: Groups = Vec::new();
    for i in 0..g.len()
        invariant
            groups_safe(g@),
            groups_safe(r@),
    {
        let l = &g[i].1;
        let mut c: Vec<(String, ResolvedVariable)> = Vec::new();
        for j in 0..l.len()
            invariant
                groups_safe(g@),
                i < g@.len(),
                l@ == g@[i as int].1@,
                entries_list_safe(c@),
        {
            let e = clone_entry(&l[j]);
            proof {
                lemma_clone_safe(e.1, l@[j as int].1);
            }
            c.push(e);
        }
        let ghost r0 = r@;
        r.push((g[i].0.clone(), c));
        proof {
            assert forall|a: int, b: int|
                0 <= a < r@.len() && 0 <= b < r@[a].1@.len() implies lists_safe(var_lists(#[trigger] r@[a].1@[b].1)) by {
                if a < r0.len() {
                    assert(r@[a] == r0[a]);
                }
            }
        }
    }
    r
}

fn clone_list(l: &Vec<(String, ResolvedVariable)>) -> (r: Vec<(String, ResolvedVariable)>)
    ensures
        r@.len() == l@.len(),
        forall|i: int| 0 <= i < l@.len() ==> (#[trigger] r@[i]).0@ == l@[i].0@ && rv_same(r@[i].1, l@[i].1),
{
    let mut r: Vec<(String, ResolvedVariable)> = Vec::new();
    for i in 0..l.len()
        invariant
            r@.len() == i,
            forall|k: int| 0 <= k < i ==> (#[trigger] r@[k]).0@ == l@[k].0@ && rv_same(r@[k].1, l@[k].1),
    {
        r.push(clone_entry(&l[i]));
    }
    r
}

/// The index of the name a variable tries next.
pub open spec fn further_start(v: ResolvedVariable) -> int {
    match v.resolved_id {
        Some(x) => x + 1,
        None => 0,
    }
}

/// A null variable of several names, one of whose further names the set
/// knows to be not null.
pub open spec fn null_mismatch(es: Entries, v: ResolvedVariable) -> bool {
    &&& v.value is Null
    &&& v.variables@.len() > 1
    &&& exists|k: int|
        further_start(v) <= k < v.variables@.len() && #[trigger] null_walk(es, v.variables@[k].name@, (es.len() + 1) as nat)
            == Some(false)
}

proof fn lemma_mismatch_same(es: Entries, a: ResolvedVariable, b: ResolvedVariable)
    requires
        rv_same(a, b),
        null_mismatch(es, b),
    ensures
        null_mismatch(es, a),
{
    let k = choose|k: int|
        further_start(b) <= k < b.variables@.len() && #[trigger] null_walk(es, b.variables@[k].name@, (es.len() + 1) as nat)
            == Some(false);
    assert(pvar_same(a.variables@[k], b.variables@[k]));
    assert(null_walk(es, a.variables@[k].name@, (es.len() + 1) as nat) == Some(false));
}

/// Moves variables whose value is null while one of their further names is
/// not null to the unresolved set.
fn unresolve_null_mismatches(var_set: &VariableSet, unvar_set: &mut VariableSet)
    requires
        old(unvar_set).wf(),
    ensures
        final(unvar_set).wf(),
        keys_grow(old(unvar_set)@, final(unvar_set)@),
        var_set@.len() < usize::MAX ==> forall|i: int|
            0 <= i < var_set@.len() && null_mismatch(var_set@, #[trigger] var_set@[i].1) ==> key_index(
                final(unvar_set)@,
                var_set@[i].0,
            ) >= 0,
{
    let ghost u0 = unvar_set@;
    let ghost es = var_set@;
    assert(keys_grow(u0, u0));
    let map = var_set.to_map();
    let mut filter: Vec<(String, ResolvedVariable)> = Vec::new();
    for i in 0..map.len()
        invariant
            entries_same(map@.map_values(|e: (String, ResolvedVariable)| (e.0@, e.1)), es),
            forall|q: int|
                0 <= q < i && null_mismatch(es, #[trigger] es[q].1) ==> exists|f: int|
                    0 <= f < filter@.len() && (#[trigger] filter@[f]).0@ == es[q].0 && null_mismatch(es, filter@[f].1),
    {
        let v = &map[i].1;
        let null = match v.value {
            ParsedValue::Null => true,
            _ => false,
        };
        let ghost f0 = filter@;
        if null && v.variables.len() > 1 {
            let c = v.clone();
            let nm = map[i].0.clone();
            filter.push((nm, c));
            proof {
                let mv = map@.map_values(|e: (String, ResolvedVariable)| (e.0@, e.1));
                assert(mv[i as int].0 == es[i as int].0 && rv_same(mv[i as int].1, es[i as int].1));
                assert(mv[i as int] == (map@[i as int].0@, map@[i as int].1));
                if null_mismatch(es, es[i as int].1) {
                    lemma_mismatch_same(es, map@[i as int].1, es[i as int].1);
                    lemma_mismatch_same(es, c, map@[i as int].1);
                    assert(filter@[f0.len() as int].0@ == es[i as int].0);
                }
                assert forall|q: int|
                    0 <= q < i + 1 && null_mismatch(es, #[trigger] es[q].1) implies exists|f: int|
                        0 <= f < filter@.len() && (#[trigger] filter@[f]).0@ == es[q].0 && null_mismatch(es, filter@[f].1) by {
                    if q < i {
                        let f = choose|f: int| 0 <= f < f0.len() && (#[trigger] f0[f]).0@ == es[q].0 && null_mismatch(es, f0[f].1);
                        assert(filter@[f] == f0[f]);
                    } else {
                        assert(filter@[f0.len() as int].0@ == es[q].0);
                    }
                }
            }
        } else {
            proof {
                assert forall|q: int|
                    0 <= q < i + 1 && null_mismatch(es, #[trigger] es[q].1) implies exists|f: int|
                        0 <= f < filter@.len() && (#[trigger] filter@[f]).0@ == es[q].0 && null_mismatch(es, filter@[f].1) by {
                    if q == i {
                        let mv = map@.map_values(|e: (String, ResolvedVariable)| (e.0@, e.1));
                        assert(rv_same(mv[i as int].1, es[i as int].1));
                        assert(mv[i as int] == (map@[i as int].0@, map@[i as int].1));
                        lemma_mismatch_same(es, map@[i as int].1, es[i as int].1);
                        assert(false);
                    }
                }
            }
        }
    }
    for i in 0..map.len()
        invariant
            forall|q: int|
                0 <= q < es.len() && null_mismatch(es, #[trigger] es[q].1) ==> exists|f: int|
                    0 <= f < filter@.len() && (#[trigger] filter@[f]).0@ == es[q].0 && null_mismatch(es, filter@[f].1),
    {
        let sib = &map[i].1.siblings;
        for j in 0..sib.len()
            invariant
                i < map@.len(),
                forall|q: int|
                    0 <= q < es.len() && null_mismatch(es, #[trigger] es[q].1) ==> exists|f: int|
                        0 <= f < filter@.len() && (#[trigger] filter@[f]).0@ == es[q].0 && null_mismatch(es, filter@[f].1),
        {
            let null = match sib[j].value {
                ParsedValue::Null => true,
                _ => false,
            };
            if null && sib[j].variables.len() > 1 {
                let ghost f0 = filter@;
                filter.push((map[i].0.clone(), sib[j].clone()));
                proof {
                    assert forall|q: int|
                        0 <= q < es.len() && null_mismatch(es, #[trigger] es[q].1) implies exists|f: int|
                            0 <= f < filter@.len() && (#[trigger] filter@[f]).0@ == es[q].0 && null_mismatch(es, filter@[f].1) by {
                        let f = choose|f: int| 0 <= f < f0.len() && (#[trigger] f0[f]).0@ == es[q].0 && null_mismatch(es, f0[f].1);
                        assert(filter@[f] == f0[f]);
                    }
                }
            }
        }
    }
    if var_set.variables.len() == usize::MAX {
        return;
    }
    for i in 0..filter.len()
        invariant
            unvar_set.wf(),
            var_set@.len() < usize::MAX,
            keys_grow(u0, unvar_set@),
            es == var_set@,
            forall|f: int| 0 <= f < i && null_mismatch(es, #[trigger] filter@[f].1) ==> key_index(unvar_set@, filter@[f].0@) >= 0,
    {
        let og = filter[i].1.clone();
        let mut val = filter[i].1.clone();
        let n = val.variables.len();
        let ghost fv = filter@[i as int].1;
        let ghost st = further_start(fv);
        let ghost u_in = unvar_set@;
        loop
            invariant_except_break
                var_set@.len() < usize::MAX,
                n == val.variables@.len(),
                i < filter@.len(),
                es == var_set@,
                unvar_set@ == u_in,
                pvars_same(val.variables@, fv.variables@),
                st <= further_start(val),
                forall|k: int| st <= k < further_start(val) && k < n ==> #[trigger] null_walk(es, fv.variables@[k].name@, (es.len() + 1) as nat) != Some(false),
            invariant
                unvar_set.wf(),
                keys_grow(u0, unvar_set@),
                keys_grow(u_in, unvar_set@),
                st == further_start(fv),
                fv == filter@[i as int].1,
            ensures
                unvar_set.wf(),
                keys_grow(u0, unvar_set@),
                keys_grow(u_in, unvar_set@),
                null_mismatch(es, fv) ==> key_index(unvar_set@, filter@[i as int].0@) >= 0,
            decreases (match val.resolved_id {
                None => n + 1,
                Some(k) => if k < n {
                    n - k
                } else {
                    0
                },
            }),
        {
            let ghost idx = further_start(val);
            match val.next() {
                Some(v) => {
                    assert(pvar_same(val.variables@[idx], fv.variables@[idx]));
                    let not_null = match var_set.is_null_checked(v.name.as_str()) {
                        Some(b) => !b,
                        None => false,
                    };
                    if not_null {
                        let ghost pre = unvar_set@;
                        let ghost ogv = og;
                        unvar_set.inc_insert(filter[i].0.as_str(), og);
                        proof {
                            assert(inc_inserted(pre, unvar_set@, filter@[i as int].0@, ogv));
                            lemma_inc_grow(pre, unvar_set@, filter@[i as int].0@, ogv);
                            lemma_grow_trans(u0, pre, unvar_set@);
                            lemma_grow_trans(u_in, pre, unvar_set@);
                        }
                        break;
                    }
                },
                None => {
                    proof {
                        if null_mismatch(es, fv) {
                            let k = choose|k: int|
                                further_start(fv) <= k < fv.variables@.len() && #[trigger] null_walk(
                                    es,
                                    fv.variables@[k].name@,
                                    (es.len() + 1) as nat,
                                ) == Some(false);
                            assert(k < idx);
                            assert(false);
                        }
                    }
                    break;
                },
            }
        }
        proof {
            assert forall|f: int| 0 <= f < i + 1 && null_mismatch(es, #[trigger] filter@[f].1) implies key_index(
                unvar_set@,
                filter@[f].0@,
            ) >= 0 by {
                if f < i {
                    assert(key_index(u_in, filter@[f].0@) >= 0);
                }
            }
        }
    }
    proof {
        assert forall|q: int| 0 <= q < es.len() && null_mismatch(es, #[trigger] es[q].1) implies key_index(unvar_set@, es[q].0) >= 0 by {
            let f = choose|f: int| 0 <= f < filter@.len() && (#[trigger] filter@[f]).0@ == es[q].0 && null_mismatch(es, filter@[f].1);
        }
    }
}

/// Whether the references a source parsed have changes that apply without
/// a panic.
pub open spec fn src_safe(sv: SourcedVariable) -> bool {
    forall|j: int|
        0 <= j < parsed_refs(sv.variables@).len() ==> crate::color::no_panics(
            (#[trigger] parsed_refs(sv.variables@)[j]).operations@,
        )
}

proof fn lemma_ops_same_panics(a: Seq<crate::color::Operation>, b: Seq<crate::color::Operation>, ps: Seq<crate::color::OpParse>)
    requires
        crate::parsing::ops_match(a, ps),
        crate::parsing::ops_match(b, ps),
    ensures
        crate::color::no_panics(a) == crate::color::no_panics(b),
{
    assert forall|i: int| 0 <= i < a.len() implies crate::color::apply_panics(#[trigger] a[i]) == crate::color::apply_panics(b[i]) by {
        assert(crate::parsing::op_matches(a[i], ps[i]));
        assert(crate::parsing::op_matches(b[i], ps[i]));
    }
    if !crate::color::no_panics(a) {
        let i = choose|i: int| 0 <= i < a.len() && #[trigger] crate::color::apply_panics(a[i]);
        assert(crate::color::apply_panics(b[i]));
    }
    if !crate::color::no_panics(b) {
        let i = choose|i: int| 0 <= i < b.len() && #[trigger] crate::color::apply_panics(b[i]);
        assert(crate::color::apply_panics(a[i]));
    }
}

proof fn lemma_refs_same(xs: Seq<VarRef>, ys: Seq<VarRef>, names: Seq<Seq<char>>)
    requires
        xs.len() == names.len(),
        ys.len() == names.len(),
        forall|i: int| 0 <= i < names.len() ==> var_ref_of(names[i], #[trigger] xs[i]) && var_ref_of(names[i], ys[i]),
    ensures
        parsed_refs(xs).len() == parsed_refs(ys).len(),
        forall|j: int| 0 <= j < parsed_refs(xs).len() ==> crate::color::no_panics((#[trigger] parsed_refs(xs)[j]).operations@)
            == crate::color::no_panics(parsed_refs(ys)[j].operations@),
    decreases names.len(),
{
    if names.len() > 0 {
        let n = names.len() - 1;
        assert forall|i: int| 0 <= i < n implies var_ref_of(names.drop_last()[i], #[trigger] xs.drop_last()[i]) && var_ref_of(names.drop_last()[i], ys.drop_last()[i]) by {
            assert(xs.drop_last()[i] == xs[i]);
            assert(ys.drop_last()[i] == ys[i]);
            assert(var_ref_of(names[i], xs[i]));
        }
        lemma_refs_same(xs.drop_last(), ys.drop_last(), names.drop_last());
        assert(var_ref_of(names[n], xs[n]));
        assert(xs.last() == xs[n] && ys.last() == ys[n]);
        let px = parsed_refs(xs);
        let py = parsed_refs(ys);
        match crate::parsing::parse_var(names[n]) {
            Ok((nm, ps)) => {
                let a = xs[n]->Parsed_0;
                let b = ys[n]->Parsed_0;
                lemma_ops_same_panics(a.operations@, b.operations@, ps);
                assert forall|j: int| 0 <= j < px.len() implies crate::color::no_panics((#[trigger] px[j]).operations@)
                    == crate::color::no_panics(py[j].operations@) by {
                    if j < px.len() - 1 {
                        assert(px[j] == parsed_refs(xs.drop_last())[j]);
                        assert(py[j] == parsed_refs(ys.drop_last())[j]);
                    }
                }
            },
            Err(_) => {
                assert(px == parsed_refs(xs.drop_last()));
                assert(py == parsed_refs(ys.drop_last()));
            },
        }
    }
}

/// Whether a template string's changes apply without a panic depends only
/// on the site it is read at.
pub proof fn lemma_site_safe(site: VarSite, a: SourcedVariable, b: SourcedVariable)
    requires
        site_rel(site, a),
        site_rel(site, b),
    ensures
        src_safe(a) == src_safe(b),
{
    let names = var_names(site.1);
    lemma_refs_same(a.variables@, b.variables@, names);
    let pa = parsed_refs(a.variables@);
    let pb = parsed_refs(b.variables@);
    if !src_safe(a) {
        let j = choose|j: int| 0 <= j < pa.len() && !crate::color::no_panics((#[trigger] pa[j]).operations@);
        assert(!crate::color::no_panics(pb[j].operations@));
    }
    if !src_safe(b) {
        let j = choose|j: int| 0 <= j < pb.len() && !crate::color::no_panics((#[trigger] pb[j]).operations@);
        assert(crate::color::no_panics(pa[j].operations@) == crate::color::no_panics(pb[j].operations@));
    }
}

/// The name a template string's first parsed reference gives.
pub open spec fn src_name(sv: SourcedVariable) -> Seq<char> {
    parsed_refs(sv.variables@)[0].name@
}

/// Every template string parsed a reference, and no two give the same name.
pub open spec fn names_apart(pv: Seq<SourcedVariable>) -> bool {
    &&& forall|i: int| 0 <= i < pv.len() ==> parsed_refs((#[trigger] pv[i]).variables@).len() > 0
    &&& forall|i: int, j: int| 0 <= i < j < pv.len() ==> src_name(#[trigger] pv[i]) != src_name(#[trigger] pv[j])
}

/// `v` is the variable the template string `sv` describes, resolved to its
/// first name (see `ResolvedVariable::from_src`).
pub open spec fn from_src_of(v: ResolvedVariable, sv: SourcedVariable) -> bool {
    &&& v.path@ == parse_path(sv.path@)
    &&& pv_same(v.value, sv.value)
    &&& pvars_same(v.variables@, parsed_refs(sv.variables@))
    &&& v.resolved_id == Some(0usize)
    &&& v.siblings@.len() == 0
}

proof fn lemma_all_resolvable(es: Entries)
    requires
        forall|i: int| 0 <= i < es.len() ==> is_resolvable_spec(#[trigger] es[i].1),
    ensures
        unresolved_of(es).len() == 0,
        resolvable_of(es) == es,
    decreases es.len(),
{
    if es.len() > 0 {
        let d = es.drop_last();
        assert forall|i: int| 0 <= i < d.len() implies is_resolvable_spec(#[trigger] d[i].1) by {
            assert(d[i] == es[i]);
        }
        lemma_all_resolvable(d);
        assert(is_resolvable_spec(es[es.len() - 1].1));
        assert(resolvable_of(es) =~= es);
    }
}

/// Settles the variables the template names: values of one name that
/// agree (up to the name's changes) become one variable, the others
/// overrides. The first set holds only resolvable variables. Where every
/// template string names a variable of its own, each becomes the variable
/// of that name, in order.
pub fn resolve_variables<S: ColorSpace>(
    var_diff: &KeyDiffInfo,
    overrides: Vec<ResolvedVariable>,
    space: &S,
) -> (r: (VariableSet, VariableSet))
    requires
        forall|i: int| 0 <= i < var_diff.parsed_vars@.len() ==> src_safe(#[trigger] var_diff.parsed_vars@[i]),
        list_safe(overrides@),
    ensures
        r.0.wf(),
        r.1.wf(),
        forall|i: int| 0 <= i < r.0@.len() ==> is_resolvable_spec(#[trigger] r.0@[i].1),
        var_diff.parsed_vars@.len() == 0 ==> r.0@.len() == 0,
        forall|j: int| 0 <= j < overrides@.len() ==> key_index(r.1@, rv_name(#[trigger] overrides@[j])) >= 0,
        names_apart(var_diff.parsed_vars@) ==> r.0@.len() == var_diff.parsed_vars@.len() && forall|i: int|
            0 <= i < r.0@.len() ==> (#[trigger] r.0@[i]).0 == src_name(var_diff.parsed_vars@[i]) && from_src_of(
                r.0@[i].1,
                var_diff.parsed_vars@[i],
            ),
{
    let ghost ov = overrides@;
    let ghost pv = var_diff.parsed_vars@;
    let ghost apart = names_apart(pv);
    let mut var_set = VariableSet::new();
    let mut unvar_set = VariableSet::new();
    assert(entries_safe(var_set@));
    for i in 0..var_diff.parsed_vars.len()
        invariant
            forall|k: int| 0 <= k < var_diff.parsed_vars@.len() ==> src_safe(#[trigger] var_diff.parsed_vars@[k]),
            var_set.wf(),
            entries_safe(var_set@),
            var_diff.parsed_vars@.len() == 0 ==> var_set@.len() == 0,
            pv == var_diff.parsed_vars@,
            apart == names_apart(pv),
            apart ==> var_set@.len() == i && forall|k: int|
                0 <= k < i ==> (#[trigger] var_set@[k]).0 == src_name(pv[k]) && from_src_of(var_set@[k].1, pv[k]),
    {
        proof {
            if apart {
                assert(parsed_refs(pv[i as int].variables@).len() > 0);
            }
        }
        if var_diff.parsed_vars[i].variables.len() > 0 {
            let var = ResolvedVariable::from_src(&var_diff.parsed_vars[i]);
            proof {
                let sv = var_diff.parsed_vars@[i as int];
                assert(src_safe(sv));
                assert forall|j: int| 0 <= j < var_lists(var).len() implies crate::color::no_panics(#[trigger] var_lists(var)[j]) by {
                    assert(pvar_same(var.variables@[j], parsed_refs(sv.variables@)[j]));
                }
            }
            let name = var.name();
            let ghost es = var_set@;
            let ghost vv = var;
            proof {
                if apart {
                    let sv = pv[i as int];
                    assert(pvar_same(var.variables@[0], parsed_refs(sv.variables@)[0]));
                    assert(name@ == src_name(sv));
                    crate::parsing::lemma_key_index_pub(es, name@);
                    if key_index(es, name@) >= 0 {
                        let k = key_index(es, name@);
                        assert(es[k].0 == src_name(pv[k]));
                        assert(src_name(pv[k]) != src_name(pv[i as int]));
                    }
                }
            }
            safe_ins(&mut var_set, name.as_str(), var, space);
            proof {
                if apart {
                    assert(var_set@ == es.push((name@, vv)));
                    assert forall|k: int|
                        0 <= k < i + 1 implies (#[trigger] var_set@[k]).0 == src_name(pv[k]) && from_src_of(var_set@[k].1, pv[k]) by {
                        if k < i {
                            assert(var_set@[k] == es[k]);
                        }
                    }
                }
            }
        }
    }
    let ghost vs1 = var_set@;
    proof {
        if apart {
            assert forall|k: int| 0 <= k < vs1.len() implies is_resolvable_spec(#[trigger] vs1[k].1) by {
                assert(from_src_of(vs1[k].1, pv[k]));
                assert(parsed_refs(pv[k].variables@).len() > 0);
            }
            lemma_all_resolvable(vs1);
        }
    }
    assert(entries_safe(unvar_set@));
    for i in 0..overrides.len()
        invariant
            list_safe(overrides@),
            unvar_set.wf(),
            entries_safe(unvar_set@),
            ov == overrides@,
            forall|j: int| 0 <= j < i ==> key_index(unvar_set@, rv_name(#[trigger] ov[j])) >= 0,
    {
        let o = overrides[i].clone();
        proof {
            lemma_clone_safe(o, overrides@[i as int]);
        }
        let name = o.name();
        let ghost pre = unvar_set@;
        let ghost ogv = o;
        safe_ins(&mut unvar_set, name.as_str(), o, space);
        proof {
            lemma_safe_grow(pre, unvar_set@, name@, ogv);
            assert(rv_name(ogv) == rv_name(ov[i as int]));
        }
    }
    let ghost u1 = unvar_set@;
    assert(keys_grow(u1, u1));
    let unresolved = var_set.get_unresolved();
    proof {
        lemma_unresolved_in(var_set@);
        assert forall|k: int| 0 <= k < unresolved@.len() implies lists_safe(var_lists(#[trigger] unresolved@[k])) by {
            let j = choose|j: int| 0 <= j < var_set@.len() && #[trigger] unresolved_of(var_set@)[k] == var_set@[j].1;
            assert(lists_safe(var_lists(var_set@[j].1)));
            lemma_clone_safe(unresolved@[k], unresolved_of(var_set@)[k]);
        }
    }
    let mut pointers: Vec<ResolvedVariable> = Vec::new();
    let mut unresolved_vars: Vec<ResolvedVariable> = Vec::new();
    for i in 0..unresolved.len()
        invariant
            list_safe(unresolved@),
            list_safe(unresolved_vars@),
            unresolved@.len() == 0 ==> pointers@.len() == 0,
    {
        let v = unresolved[i].clone();
        proof {
            lemma_clone_safe(v, unresolved@[i as int]);
        }
        if v.is_pointer() {
            pointers.push(v);
        } else {
            unresolved_vars.push(v);
        }
    }
    let mut uset: Vec<(JSPath, Groups)> = Vec::new();
    for i in 0..pointers.len()
        invariant
            list_safe(unresolved_vars@),
            forall|k: int| 0 <= k < uset@.len() ==> groups_safe((#[trigger] uset@[k]).1@),
            unvar_set.wf(),
            pointers@.len() == 0 ==> uset@.len() == 0,
            keys_grow(u1, unvar_set@),
    {
        let p = &pointers[i];
        match &p.value {
            ParsedValue::Variables(paths) => {
                for t in 0..paths.len()
                    invariant
                        list_safe(unresolved_vars@),
                        forall|k: int| 0 <= k < uset@.len() ==> groups_safe((#[trigger] uset@[k]).1@),
                        unvar_set.wf(),
                        keys_grow(u1, unvar_set@),
                {
                    let path = &paths[t];
                    match find_by_path(&unresolved_vars, path) {
                        Some(u) => {
                            let uv = &unresolved_vars[u];
                            assert(lists_safe(var_lists(unresolved_vars@[u as int])));
                            let identity = uv.identity(space);
                            let c = uv.clone();
                            proof {
                                lemma_clone_safe(c, unresolved_vars@[u as int]);
                            }
                            add_to_set(&mut uset, &p.path, identity, (path.clone(), c));
                        },
                        None => match find_sibling(&unresolved_vars, path) {
                            Some((a, b)) => {
                                let sib = unresolved_vars[a].siblings[b].clone();
                                let ghost pre = unvar_set@;
                                let ghost sv = sib;
                                unvar_set.inc_insert(path.as_str(), sib);
                                proof {
                                    assert(inc_inserted(pre, unvar_set@, path@, sv));
                                    lemma_inc_grow(pre, unvar_set@, path@, sv);
                                    lemma_grow_trans(u1, pre, unvar_set@);
                                }
                            },
                            None => {},
                        },
                    }
                }
            },
            _ => {},
        }
    }
    for i in 0..uset.len()
        invariant
            forall|k: int| 0 <= k < uset@.len() ==> groups_safe((#[trigger] uset@[k]).1@),
            var_set.wf(),
            unvar_set.wf(),
            var_diff.parsed_vars@.len() == 0 ==> var_set@.len() == 0 && uset@.len() == 0,
            keys_grow(u1, unvar_set@),
            apart ==> uset@.len() == 0 && var_set@ == vs1,
    {
        let groups = clone_groups(&uset[i].1);
        let ghost pre = unvar_set@;
        process_group(&uset[i].0, groups, &mut var_set, &mut unvar_set, space);
        proof {
            lemma_grow_trans(u1, pre, unvar_set@);
        }
    }
    let ghost pre = var_set@;
    var_set.resolve();
    proof {
        lemma_resolvable_all(pre);
    }
    let ghost pre = unvar_set@;
    unresolve_null_mismatches(&var_set, &mut unvar_set);
    proof {
        lemma_grow_trans(u1, pre, unvar_set@);
        assert forall|j: int| 0 <= j < ov.len() implies key_index(unvar_set@, rv_name(#[trigger] ov[j])) >= 0 by {
            assert(key_index(u1, rv_name(ov[j])) >= 0);
        }
    }
    (var_set, unvar_set)
}

/// The text a `$none` stands for: a null value in a variable file.
pub open spec fn toml_null() -> Seq<char> {
    "$none"@
}

/// One flag of the `rev` command.
#[derive(Debug)]
pub enum ReverseFlags {
    Threshold(usize),
    OutputDirectory(String),
    Name(String),
    InnerPath(JSPath),
    DontGenerate(Vec<char>),
}

/// The settings of the `rev` command.
#[derive(Debug)]
pub struct ReverseSettings {
    pub threshold: usize,
    pub output_directory: String,
    pub name: String,
    pub path: Option<JSPath>,
    pub generate_deletions: bool,
    pub generate_additions: bool,
    pub generate_colors: bool,
    pub generate_manual: bool,
}

/// `ReverseFlags::from_str`; `exists` tells whether the directory of a
/// `-o` flag exists.
pub open spec fn rev_flag(f: Seq<char>, home: Seq<char>, exists: bool, r: Result<ReverseFlags, ProgramError>) -> bool {
    let invalid = r matches Err(ProgramError::InvalidFlag(c, g)) && c@ == "reverse"@ && g@ == f;
    if starts_with(f, "-p"@) {
        r matches Ok(ReverseFlags::InnerPath(p)) && p@ == parse_path(flag_value(f))
    } else if starts_with(f, "-n"@) {
        r matches Ok(ReverseFlags::Name(n)) && n@ == flag_value(f)
    } else if starts_with(f, "-o"@) {
        if exists {
            r matches Ok(ReverseFlags::OutputDirectory(d)) && d@ == flag_dir(f, home)
        } else {
            invalid
        }
    } else if starts_with(f, "-t"@) {
        match crate::text::int_text(flag_value(f), false, 0, usize::MAX as int) {
            Some(t) => r matches Ok(ReverseFlags::Threshold(x)) && x == t,
            None => invalid,
        }
    } else if starts_with(f, "-g"@) {
        r matches Ok(ReverseFlags::DontGenerate(cs)) && cs@ == f.skip(1)
    } else {
        invalid
    }
}

impl ReverseFlags {
    /// Reads one flag of the `rev` command.
    pub fn from_str(flag: &str, home: &str, exists: bool) -> (r: Result<Self, ProgramError>)
        ensures
            rev_flag(flag@, home@, exists, r),
    {
        let f = chars_of(flag);
        let invalid = ProgramError::InvalidFlag(String::from_str("reverse"), flag.to_string());
        if has_prefix(&f, "-p") {
            let v = last_piece(&f, '=');
            return match JSPath::from_str(string_of(&v).as_str()) {
                Ok(p) => Ok(ReverseFlags::InnerPath(p)),
                Err(_) => Err(invalid),
            };
        }
        if has_prefix(&f, "-n") {
            return Ok(ReverseFlags::Name(string_of(&last_piece(&f, '='))));
        }
        if has_prefix(&f, "-o") {
            if !exists {
                return Err(invalid);
            }
            let mut tilde: Vec<char> = Vec::new();
            tilde.push('~');
            assert(tilde@ =~= seq!['~']);
            let d = replace_chars(&last_piece(&f, '='), &tilde, &chars_of(home));
            return Ok(ReverseFlags::OutputDirectory(string_of(&d)));
        }
        if has_prefix(&f, "-t") {
            return match crate::text::parse_usize(&last_piece(&f, '=')) {
                Some(t) => Ok(ReverseFlags::Threshold(t)),
                None => Err(invalid),
            };
        }
        if has_prefix(&f, "-g") {
            proof {
                reveal_strlit("-g");
            }
            return Ok(ReverseFlags::DontGenerate(crate::text::skip_chars(&f, 1)));
        }
        Err(invalid)
    }

    /// Reads every flag; the first that fails gives the error.
    pub fn into_vec(flags: &Vec<String>, home: &str, exists: &Vec<bool>) -> (r: Result<Vec<Self>, ProgramError>)
        requires
            exists@.len() == flags@.len(),
        ensures
            match r {
                Ok(v) => v@.len() == flags@.len() && forall|i: int|
                    0 <= i < v@.len() ==> rev_flag(flags@[i]@, home@, exists@[i], Ok(#[trigger] v@[i])),
                Err(e) => exists|i: int| 0 <= i < flags@.len() && #[trigger] rev_flag(flags@[i]@, home@, exists@[i], Err(e)),
            },
    {
        let mut v: Vec<ReverseFlags> = Vec::new();
        for i in 0..flags.len()
            invariant
                exists@.len() == flags@.len(),
                v@.len() == i,
                forall|k: int| 0 <= k < i ==> rev_flag(flags@[k]@, home@, exists@[k], Ok(#[trigger] v@[k])),
        {
            match Self::from_str(flags[i].as_str(), home, exists[i]) {
                Ok(f) => v.push(f),
                Err(e) => {
                    return Err(e);
                },
            }
        }
        Ok(v)
    }

    /// The settings the flags give, each flag setting its setting and the
    /// last one winning. Reading the flags must succeed.
    pub fn parse(flags: &Vec<String>, home: &str, exists: &Vec<bool>) -> (r: ReverseSettings)
        requires
            exists@.len() == flags@.len(),
            forall|i: int| 0 <= i < flags@.len() ==> rev_flag_ok(#[trigger] flags@[i]@, exists@[i]),
        ensures
            settings_view(r) == rev_fold(flags@.map_values(|s: String| s@), home@),
    {
        let list = match Self::into_vec(flags, home, exists) {
            Ok(l) => l,
            Err(e) => {
                proof {
                    let i = choose|i: int| 0 <= i < flags@.len() && #[trigger] rev_flag(flags@[i]@, home@, exists@[i], Err(e));
                    assert(rev_flag_ok(flags@[i]@, exists@[i]));
                }
                Vec::new()
            },
        };
        let ghost fs = flags@.map_values(|s: String| s@);
        let mut st = ReverseSettings {
            threshold: 3,
            output_directory: String::from_str("."),
            name: String::from_str("reversed-theme"),
            path: None,
            generate_deletions: true,
            generate_additions: true,
            generate_colors: true,
            generate_manual: true,
        };
        let mut list = list;
        let mut i: usize = 0;
        let n = flags.len();
        assert forall|k: int| 0 <= k < list@.len() implies rev_flag(fs[0 + k], home@, exists@[0 + k], Ok(#[trigger] list@[k])) by {
            assert(fs[k] == flags@[k]@);
        }
        while list.len() > 0
            invariant
                n == flags@.len(),
                fs == flags@.map_values(|s: String| s@),
                list@.len() == n - i,
                i <= n,
                forall|k: int| 0 <= k < list@.len() ==> rev_flag(fs[i + k], home@, exists@[i + k], Ok(#[trigger] list@[k])),
                settings_view(st) == rev_fold(fs.take(i as int), home@),
            decreases list.len(),
        {
            let f = list.remove(0);
            assert(fs.take(i + 1).drop_last() =~= fs.take(i as int));
            assert(fs.take(i + 1).last() == fs[i as int]);
            match f {
                ReverseFlags::Threshold(t) => st.threshold = t,
                ReverseFlags::OutputDirectory(p) => st.output_directory = p,
                ReverseFlags::Name(x) => st.name = x,
                ReverseFlags::InnerPath(p) => st.path = Some(p),
                ReverseFlags::DontGenerate(cs) => {
                    st.generate_deletions = !crate::text::contains_char(&cs, 'd');
                    st.generate_additions = !crate::text::contains_char(&cs, 'o');
                    st.generate_colors = !crate::text::contains_char(&cs, 'c');
                    st.generate_manual = !crate::text::contains_char(&cs, 'p');
                },
            }
            i = i + 1;
        }
        assert(fs.take(n as int) =~= fs);
        st
    }
}

/// The flag reads without an error.
pub open spec fn rev_flag_ok(f: Seq<char>, exists: bool) -> bool {
    if starts_with(f, "-p"@) || starts_with(f, "-n"@) {
        true
    } else if starts_with(f, "-o"@) {
        exists
    } else if starts_with(f, "-t"@) {
        crate::text::int_text(flag_value(f), false, 0, usize::MAX as int) is Some
    } else {
        starts_with(f, "-g"@)
    }
}

/// Threshold, output directory, name, inner path, and what to generate
/// (deletions, additions, colors, manual entries).
pub type SettingsView = (int, Seq<char>, Seq<char>, Option<Seq<KeyView>>, bool, bool, bool, bool);

pub open spec fn settings_view(st: ReverseSettings) -> SettingsView {
    (
        st.threshold as int,
        st.output_directory@,
        st.name@,
        match st.path {
            Some(p) => Some(p@),
            None => None,
        },
        st.generate_deletions,
        st.generate_additions,
        st.generate_colors,
        st.generate_manual,
    )
}

/// The settings after the flags, in order: defaults 3, `.`,
/// `reversed-theme`, no path, everything generated.
pub open spec fn rev_fold(fs: Seq<Seq<char>>, home: Seq<char>) -> SettingsView
    decreases fs.len(),
{
    if fs.len() == 0 {
        (3, "."@, "reversed-theme"@, None, true, true, true, true)
    } else {
        let p = rev_fold(fs.drop_last(), home);
        let f = fs.last();
        if starts_with(f, "-p"@) {
            (p.0, p.1, p.2, Some(parse_path(flag_value(f))), p.4, p.5, p.6, p.7)
        } else if starts_with(f, "-n"@) {
            (p.0, p.1, flag_value(f), p.3, p.4, p.5, p.6, p.7)
        } else if starts_with(f, "-o"@) {
            (p.0, flag_dir(f, home), p.2, p.3, p.4, p.5, p.6, p.7)
        } else if starts_with(f, "-t"@) {
            (crate::text::int_text(flag_value(f), false, 0, usize::MAX as int)->0, p.1, p.2, p.3, p.4, p.5, p.6, p.7)
        } else {
            let g = f.skip(1);
            (p.0, p.1, p.2, p.3, !g.contains('d'), !g.contains('o'), !g.contains('c'), !g.contains('p'))
        }
    }
}

} // verus!

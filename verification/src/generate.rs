//! Generating a theme: a template with its variables filled in from a
//! variable file.
use vstd::prelude::*;
use crate::text::{
    chars_of, string_of, append_chars, append_str, find_seq, replace_all, replace_chars, dec_digits,
    fmt_dec, split_seq, split_char, starts_with, has_prefix, eq_str, lemma_split_seq_nonempty,
    split_once, split_once_exec, lemma_find_seq_bounds,
};
use crate::color::{
    ColorSpace, Color, Operation, Operations, lists_view, no_panics, reach, normalized, update_fails,
};
use crate::json::{
    Json, JsonV, jview, jviews, jentries, JSPath, KeyView, parse_path, traverse_spec, follow,
    token_child, pointer_tokens, get_key, key_pos, lemma_key_pos_bounds, potential_var_spec,
    potential_var, remove_spec, remove_panics, pave_spec, indices_bounded, obj_find, JsonKey,
    key_view,
};
use crate::parsing::{
    strings_view, ParsedValue, ParsedVariable, value_parse, value_text_ok, var_names, parse_var,
    ops_safe, ops_match, pv_json, lists_outcome, lists_safe, lemma_var_names_nonempty,
    lemma_ops_safe, join_bar, var_names_exec, ops_safe_exec, pieces_ok,
};
use crate::args::ProgramError;

verus! {

pub open spec fn concat_all(ks: Seq<Seq<char>>) -> Seq<char>
    decreases ks.len(),
{
    if ks.len() == 0 {
        Seq::empty()
    } else {
        concat_all(ks.drop_last()) + ks.last()
    }
}

/// What `$self.` stands for: the keys leading to the value's parent, each
/// with its dot.
pub open spec fn self_key(key: Seq<Seq<char>>) -> Seq<char> {
    if key.len() >= 1 {
        concat_all(key.drop_last())
    } else {
        Seq::empty()
    }
}

pub open spec fn self_word() -> Seq<char> {
    seq!['$', 's', 'e', 'l', 'f']
}

pub open spec fn self_dot() -> Seq<char> {
    seq!['$', 's', 'e', 'l', 'f', '.']
}

/// `resolve_self_variables`: `$self.` in strings replaced by the path of
/// keys to the enclosing object, `key` the keys so far; `null` below
/// `depth` levels.
pub open spec fn self_resolved(j: JsonV, key: Seq<Seq<char>>, depth: nat) -> JsonV
    decreases depth,
{
    if depth == 0 {
        JsonV::Null
    } else {
        match j {
            JsonV::Object(o) => JsonV::Object(
                Seq::new(
                    o.len(),
                    |i: int|
                        (
                            o[i].0,
                            self_resolved(o[i].1, key.push(o[i].0 + seq!['.']), (depth - 1) as nat),
                        ),
                ),
            ),
            JsonV::Array(a) => JsonV::Array(
                Seq::new(a.len(), |i: int| self_resolved(a[i], key, (depth - 1) as nat)),
            ),
            JsonV::Str(s) => if find_seq(s, self_word()) >= 0 {
                JsonV::Str(replace_all(s, self_dot(), self_key(key)))
            } else {
                j
            },
            _ => j,
        }
    }
}

fn self_key_exec(key: &Vec<String>) -> (r: Vec<char>)
    ensures
        r@ == self_key(strings_view(key@)),
{
    let mut v: Vec<char> = Vec::new();
    if key.len() == 0 {
        return v;
    }
    let ghost ks = strings_view(key@);
    for i in 0..key.len() - 1
        invariant
            key@.len() >= 1,
            ks == strings_view(key@),
            v@ == concat_all(ks.take(i as int)),
    {
        assert(ks.take(i + 1).drop_last() == ks.take(i as int));
        append_chars(&mut v, &chars_of(key[i].as_str()));
    }
    assert(ks.take(key.len() - 1) == ks.drop_last());
    v
}

fn word_chars(dot: bool) -> (r: Vec<char>)
    ensures
        r@ == if dot {
            self_dot()
        } else {
            self_word()
        },
{
    let mut v: Vec<char> = Vec::new();
    v.push('$');
    v.push('s');
    v.push('e');
    v.push('l');
    v.push('f');
    if dot {
        v.push('.');
    }
    assert(v@ =~= if dot {
        self_dot()
    } else {
        self_word()
    });
    v
}

/// Replaces `$self.` in the strings of `source` with the keys leading to
/// the object that holds them (`key` the keys so far, each with its dot).
/// Values more than `max_depth` levels down become `null`.
pub fn resolve_self_variables(source: &Json, key: &Vec<String>, max_depth: usize) -> (r: Json)
    ensures
        jview(r) == self_resolved(jview(*source), strings_view(key@), max_depth as nat),
    decreases max_depth,
{
    if max_depth == 0 {
        return Json::Null;
    }
    match source {
        Json::Object(o) => {
            let mut v: Vec<(String, Json)> = Vec::new();
            for i in 0..o.len()
                invariant
                    v@.len() == i,
                    max_depth > 0,
                    forall|t: int|
                        0 <= t < i ==> (#[trigger] v@[t]).0@ == o@[t].0@ && jview(v@[t].1)
                            == self_resolved(
                            jview(o@[t].1),
                            strings_view(key@).push(o@[t].0@ + seq!['.']),
                            (max_depth - 1) as nat,
                        ),
            {
                let mut nk = clone_keys(key);
                let mut kd = chars_of(o[i].0.as_str());
                kd.push('.');
                assert(kd@ =~= o@[i as int].0@ + seq!['.']);
                let ghost before = nk@;
                let ks = string_of(&kd);
                nk.push(ks);
                assert(nk@ == before.push(ks));
                assert(strings_view(nk@) =~= strings_view(key@).push(o@[i as int].0@ + seq!['.']));
                let x = resolve_self_variables(&o[i].1, &nk, max_depth - 1);
                v.push((o[i].0.clone(), x));
            }
            let r = Json::Object(v);
            assert(jview(r) == self_resolved(jview(*source), strings_view(key@), max_depth as nat)) by {
                let a = jentries(v@);
                let b = match self_resolved(jview(*source), strings_view(key@), max_depth as nat) {
                    JsonV::Object(x) => x,
                    _ => Seq::empty(),
                };
                assert(a =~= b) by {
                    assert forall|t: int| 0 <= t < a.len() implies a[t] == b[t] by {
                        assert(jentries(o@)[t] == (o@[t].0@, jview(o@[t].1)));
                    }
                }
            }
            r
        },
        Json::Array(a) => {
            let mut v: Vec<Json> = Vec::new();
            for i in 0..a.len()
                invariant
                    v@.len() == i,
                    max_depth > 0,
                    forall|t: int|
                        0 <= t < i ==> jview(#[trigger] v@[t]) == self_resolved(
                            jview(a@[t]),
                            strings_view(key@),
                            (max_depth - 1) as nat,
                        ),
            {
                v.push(resolve_self_variables(&a[i], key, max_depth - 1));
            }
            let r = Json::Array(v);
            assert(jviews(v@) =~= match self_resolved(jview(*source), strings_view(key@), max_depth as nat) {
                JsonV::Array(x) => x,
                _ => Seq::empty(),
            }) by {
                assert forall|t: int| 0 <= t < v@.len() implies jviews(v@)[t] == self_resolved(
                    jviews(a@)[t],
                    strings_view(key@),
                    (max_depth - 1) as nat,
                ) by {
                    assert(jviews(a@)[t] == jview(a@[t]));
                }
            }
            r
        },
        Json::String(s) => {
            let sc = chars_of(s.as_str());
            let found = split_once_exec(&sc, &word_chars(false)).is_some();
            if found {
                let k = self_key_exec(key);
                let t = replace_chars(&sc, &word_chars(true), &k);
                Json::String(string_of(&t))
            } else {
                Json::String(s.clone())
            }
        },
        Json::Null => Json::Null,
        Json::Bool(b) => Json::Bool(*b),
        Json::Number(n) => Json::Number(n.clone()),
    }
}

fn clone_keys(key: &Vec<String>) -> (r: Vec<String>)
    ensures
        strings_view(r@) == strings_view(key@),
{
    crate::parsing::clone_strings(key)
}

/// The changes of every name a variable text refers to apply without a
/// panic.
pub open spec fn refs_safe(s: Seq<char>) -> bool {
    potential_var_spec(s) ==> forall|i: int|
        0 <= i < var_names(s).len() ==> (parse_var(#[trigger] var_names(s)[i]) matches Ok((n, ps))
            ==> ops_safe(ps))
}

/// A text that generation can read without a panic.
pub open spec fn gen_text_ok(s: Seq<char>) -> bool {
    value_text_ok(s) && refs_safe(s)
}

/// Every string in the value is one generation can read.
pub open spec fn gen_ok(j: JsonV) -> bool
    decreases j, 0nat,
{
    match j {
        JsonV::Str(s) => gen_text_ok(s),
        JsonV::Array(a) => gen_all(a),
        JsonV::Object(o) => gen_entries(o),
        _ => true,
    }
}

pub open spec fn gen_all(a: Seq<JsonV>) -> bool
    decreases a, a.len(),
{
    if a.len() == 0 {
        true
    } else {
        proof {
            assert(decreases_to!(a => a.drop_last()));
        }
        gen_all(a.drop_last()) && gen_ok(a.last())
    }
}

pub open spec fn gen_entries(o: Seq<(Seq<char>, JsonV)>) -> bool
    decreases o, o.len(),
{
    if o.len() == 0 {
        true
    } else {
        proof {
            assert(decreases_to!(o => o.drop_last()));
        }
        gen_entries(o.drop_last()) && gen_ok(o.last().1)
    }
}

pub proof fn lemma_gen_all(a: Seq<JsonV>)
    ensures
        gen_all(a) <==> forall|i: int| 0 <= i < a.len() ==> gen_ok(#[trigger] a[i]),
    decreases a.len(),
{
    if a.len() > 0 {
        lemma_gen_all(a.drop_last());
        assert forall|i: int| 0 <= i < a.len() - 1 implies a.drop_last()[i] == a[i] by {}
    }
}

pub proof fn lemma_gen_entries(o: Seq<(Seq<char>, JsonV)>)
    ensures
        gen_entries(o) <==> forall|i: int| 0 <= i < o.len() ==> gen_ok(#[trigger] o[i].1),
    decreases o.len(),
{
    if o.len() > 0 {
        lemma_gen_entries(o.drop_last());
        assert forall|i: int| 0 <= i < o.len() - 1 implies o.drop_last()[i] == o[i] by {}
    }
}

/// What a path leads to inside a value generation can read is such a value.
pub proof fn lemma_follow_gen(j: JsonV, toks: Seq<Seq<char>>)
    requires
        gen_ok(j),
    ensures
        follow(j, toks) matches Some(t) ==> gen_ok(t),
    decreases toks.len(),
{
    if toks.len() > 0 {
        match token_child(j, toks[0]) {
            Some(c) => {
                match j {
                    JsonV::Object(es) => {
                        lemma_gen_entries(es);
                        let u = crate::json::unescape(toks[0]);
                        lemma_key_pos_bounds(es, u);
                        assert(gen_ok(es[key_pos(es, u)].1));
                        assert(c == es[key_pos(es, u)].1);
                        assert(gen_ok(c));
                    },
                    JsonV::Array(a) => {
                        lemma_gen_all(a);
                        let u = crate::json::unescape(toks[0]);
                        let k = crate::json::parse_index(u)->0;
                        crate::text::lemma_int_text_unsigned(u, 0, usize::MAX as int);
                        assert(c == a[k]);
                        assert(gen_ok(c));
                    },
                    _ => {
                        assert(false);
                    },
                }
                lemma_follow_gen(c, toks.drop_first());
            },
            None => {},
        }
    }
}

/// The path a variable name stands for: its dots read as slashes.
pub open spec fn var_path(n: Seq<char>) -> Seq<KeyView> {
    parse_path(replace_all(n, seq!['.'], seq!['/']))
}

/// `r` is a possible result of `resolve_variables(j, src, ops, depth)`:
/// objects and arrays resolved value by value; a reference to a variable
/// replaced by the variable, resolved with the reference's changes added
/// (`null` when the variable does not exist); a color changed by all the
/// changes gathered, as its hex text; anything else as it reads.
pub open spec fn resolved_rel(j: JsonV, src: JsonV, ops: Seq<Seq<Operation>>, depth: nat, r: JsonV) -> bool
    decreases depth, 0nat,
{
    if depth == 0 {
        r == JsonV::Null
    } else {
        match j {
            JsonV::Object(o) => r matches JsonV::Object(ro) && ents_rel(o, ro, src, ops, (depth - 1) as nat),
            JsonV::Array(a) => r matches JsonV::Array(ra) && elems_rel(a, ra, src, ops, (depth - 1) as nat),
            JsonV::Str(s) => exists|p: ParsedValue|
                #[trigger] value_parse(s, p) && str_rel(p, src, ops, (depth - 1) as nat, r),
            _ => r == j,
        }
    }
}

pub open spec fn str_rel(p: ParsedValue, src: JsonV, ops: Seq<Seq<Operation>>, d: nat, r: JsonV) -> bool
    decreases d, 1nat,
{
    match p {
        ParsedValue::Variables(v) => v@.len() > 0 && match parse_var(v@[0]@) {
            Ok((n, ps)) => match traverse_spec(src, var_path(n)) {
                Some(t) => exists|os: Seq<Operation>|
                    #[trigger] ops_match(os, ps) && resolved_rel(t, src, ops.push(os), d, r),
                None => r == JsonV::Null,
            },
            Err(_) => r == pv_json(p),
        },
        ParsedValue::Color(c) => exists|x: Color| #[trigger] lists_outcome(c, ops, x) && r == JsonV::Str(x.hex@),
        _ => r == pv_json(p),
    }
}

pub open spec fn elems_rel(a: Seq<JsonV>, ra: Seq<JsonV>, src: JsonV, ops: Seq<Seq<Operation>>, d: nat) -> bool
    decreases d, a.len() + 2,
{
    a.len() == ra.len() && (a.len() == 0 || (elems_rel(a.drop_last(), ra.drop_last(), src, ops, d)
        && resolved_rel(a.last(), src, ops, d, ra.last())))
}

pub open spec fn ents_rel(
    o: Seq<(Seq<char>, JsonV)>,
    ro: Seq<(Seq<char>, JsonV)>,
    src: JsonV,
    ops: Seq<Seq<Operation>>,
    d: nat,
) -> bool
    decreases d, o.len() + 2,
{
    o.len() == ro.len() && (o.len() == 0 || (ents_rel(o.drop_last(), ro.drop_last(), src, ops, d)
        && ro.last().0 == o.last().0 && resolved_rel(o.last().1, src, ops, d, ro.last().1)))
}

fn var_path_exec(n: &String) -> (r: JSPath)
    ensures
        r@ == var_path(n@),
{
    let mut dot: Vec<char> = Vec::new();
    dot.push('.');
    let mut slash: Vec<char> = Vec::new();
    slash.push('/');
    assert(dot@ =~= seq!['.'] && slash@ =~= seq!['/']);
    let t = replace_chars(&chars_of(n.as_str()), &dot, &slash);
    match JSPath::from_str(string_of(&t).as_str()) {
        Ok(p) => p,
        Err(_) => JSPath::new(),
    }
}

fn clone_lists(ops: &Vec<Operations>) -> (r: Vec<Operations>)
    ensures
        lists_view(r@) == lists_view(ops@),
{
    let mut r: Vec<Operations> = Vec::new();
    for i in 0..ops.len()
        invariant
            r@.len() == i,
            forall|k: int| 0 <= k < i ==> (#[trigger] r@[k])@ == ops@[k]@,
    {
        let src = &ops[i];
        let mut l: Vec<Operation> = Vec::new();
        let n = src.len();
        for t in 0..n
            invariant
                n == src@.len(),
                l@ == src@.take(t as int),
        {
            l.push(src[t].clone());
            assert(l@ =~= src@.take(t + 1));
        }
        assert(l@ =~= src@);
        r.push(l);
    }
    assert(lists_view(r@) =~= lists_view(ops@));
    r
}

/// Resolves the references in `resolving` against `source`: a reference
/// becomes the value it names, itself resolved, with the reference's
/// changes added to `operations`; a color gets all the changes gathered.
/// Values below `max_depth` levels become `null`.
pub fn resolve_variables<S: ColorSpace>(
    resolving: &Json,
    source: &Json,
    operations: &Vec<Operations>,
    max_depth: usize,
    space: &S,
) -> (r: Json)
    requires
        gen_ok(jview(*resolving)),
        gen_ok(jview(*source)),
        lists_safe(lists_view(operations@)),
    ensures
        resolved_rel(jview(*resolving), jview(*source), lists_view(operations@), max_depth as nat, jview(r)),
    decreases max_depth,
{
    if max_depth == 0 {
        return Json::Null;
    }
    let ghost ops = lists_view(operations@);
    let ghost d = (max_depth - 1) as nat;
    match resolving {
        Json::Object(o) => {
            let ghost e = jentries(o@);
            proof {
                lemma_gen_entries(e);
            }
            let mut v: Vec<(String, Json)> = Vec::new();
            for i in 0..o.len()
                invariant
                    e == jentries(o@),
                    max_depth > 0,
                    d == max_depth - 1,
                    ops == lists_view(operations@),
                    gen_ok(jview(*source)),
                    lists_safe(ops),
                    forall|k: int| 0 <= k < e.len() ==> gen_ok(#[trigger] e[k].1),
                    ents_rel(e.take(i as int), jentries(v@), jview(*source), ops, d),
            {
                assert(e[i as int] == (o@[i as int].0@, jview(o@[i as int].1)));
                assert(gen_ok(e[i as int].1));
                let x = resolve_variables(&o[i].1, source, operations, max_depth - 1, space);
                let ghost before = jentries(v@);
                v.push((o[i].0.clone(), x));
                assert(jentries(v@) =~= before.push((o@[i as int].0@, jview(x))));
                assert(e.take(i + 1).drop_last() =~= e.take(i as int));
                assert(jentries(v@).drop_last() =~= before);
            }
            assert(e.take(o.len() as int) =~= e);
            Json::Object(v)
        },
        Json::Array(a) => {
            let ghost e = jviews(a@);
            proof {
                lemma_gen_all(e);
            }
            let mut v: Vec<Json> = Vec::new();
            for i in 0..a.len()
                invariant
                    e == jviews(a@),
                    max_depth > 0,
                    d == max_depth - 1,
                    ops == lists_view(operations@),
                    gen_ok(jview(*source)),
                    lists_safe(ops),
                    forall|k: int| 0 <= k < e.len() ==> gen_ok(#[trigger] e[k]),
                    elems_rel(e.take(i as int), jviews(v@), jview(*source), ops, d),
            {
                assert(e[i as int] == jview(a@[i as int]));
                assert(gen_ok(e[i as int]));
                let x = resolve_variables(&a[i], source, operations, max_depth - 1, space);
                let ghost before = jviews(v@);
                v.push(x);
                assert(jviews(v@) =~= before.push(jview(x)));
                assert(e.take(i + 1).drop_last() =~= e.take(i as int));
                assert(jviews(v@).drop_last() =~= before);
            }
            assert(e.take(a.len() as int) =~= e);
            Json::Array(v)
        },
        Json::String(s) => {
            let p = match ParsedValue::from_str(s.as_str(), space) {
                Ok(p) => p,
                Err(_) => ParsedValue::Null,
            };
            let ghost p0 = p;
            let r = resolve_parsed(p, s, source, operations, max_depth, space);
            assert(value_parse(s@, p0));
            r
        },
        Json::Null => Json::Null,
        Json::Bool(b) => Json::Bool(*b),
        Json::Number(n) => Json::Number(n.clone()),
    }
}

fn resolve_parsed<S: ColorSpace>(
    p: ParsedValue,
    s: &String,
    source: &Json,
    operations: &Vec<Operations>,
    max_depth: usize,
    space: &S,
) -> (r: Json)
    requires
        max_depth > 0,
        value_parse(s@, p),
        gen_text_ok(s@),
        gen_ok(jview(*source)),
        lists_safe(lists_view(operations@)),
    ensures
        str_rel(p, jview(*source), lists_view(operations@), (max_depth - 1) as nat, jview(r)),
    decreases max_depth, 0nat,
{
    match p {
        ParsedValue::Variables(var) => {
            proof {
                lemma_var_names_nonempty(s@);
                assert(strings_view(var@) == var_names(s@));
                assert(var@[0]@ == var_names(s@)[0]);
            }
            match ParsedVariable::from_str(var[0].as_str()) {
                Ok(pv) => {
                    let path = var_path_exec(&pv.name);
                    match path.traverse(source) {
                        Ok(t) => {
                            let mut new_ops = clone_lists(operations);
                            let ghost os = pv.operations@;
                            proof {
                                let ps = parse_var(var@[0]@)->Ok_0.1;
                                assert(ops_safe(ps));
                                lemma_ops_safe(os, ps);
                                lemma_follow_gen(jview(*source), pointer_tokens(path@));
                            }
                            new_ops.push(pv.operations);
                            assert(lists_view(new_ops@) =~= lists_view(operations@).push(os));
                            let r = resolve_variables(t, source, &new_ops, max_depth - 1, space);
                            assert(ops_match(os, parse_var(var@[0]@)->Ok_0.1));
                            r
                        },
                        Err(_) => Json::Null,
                    }
                },
                Err(_) => ParsedValue::Variables(var).into_value(),
            }
        },
        ParsedValue::Color(c) => {
            let mut c = c;
            let ghost c0 = c;
            proof {
                assert forall|k: int| 0 <= k < operations@.len() implies no_panics((#[trigger] operations@[k])@) by {
                    assert(lists_view(operations@)[k] == operations@[k]@);
                }
            }
            let res = c.update_ops(operations.as_slice(), space);
            proof {
                let ls = lists_view(operations@);
                match res {
                    Ok(_) => {},
                    Err(_) => {
                        let (i, m) = choose|i: int, m: Color|
                            0 <= i < operations@.len() && crate::color::lists_reach(c0, lists_view(operations@).take(i), m)
                                && #[trigger] crate::color::update_fails(m, operations@[i]@, c);
                        assert(ls[i] == operations@[i]@);
                        assert(crate::color::update_fails(m, ls[i], c));
                    },
                }
                assert(lists_outcome(c0, ls, c));
            }
            Json::String(c.to_string())
        },
        other => other.into_value(),
    }
}

/// A possible outcome of `Color::update`: every change applied, or a
/// failure partway.
pub open spec fn update_outcome(c: Color, os: Seq<Operation>, d: Color) -> bool {
    reach(c, normalized(os), d) || update_fails(c, os, d)
}

/// The names can be read with changes that apply without a panic.
pub open spec fn names_safe(names: Seq<Seq<char>>) -> bool {
    forall|i: int|
        0 <= i < names.len() ==> (parse_var(#[trigger] names[i]) matches Ok((n, ps)) ==> ops_safe(ps))
}

/// `handle_value` on a list of variable names: the value of the first
/// name (null when missing); a color string changed by the name's
/// changes; the next names tried while the value is null.
pub open spec fn handled_names(names: Seq<Seq<char>>, vars: JsonV, r: JsonV) -> bool
    decreases names.len(),
{
    if names.len() == 0 {
        r == JsonV::Str(join_bar(names))
    } else {
        match parse_var(names[0]) {
            Ok((n, ps)) => {
                let value = match traverse_spec(vars, var_path(n)) {
                    Some(t) => t,
                    None => JsonV::Null,
                };
                if value is Null {
                    if names.len() > 1 {
                        handled_names(names.drop_first(), vars, r)
                    } else {
                        r == JsonV::Null
                    }
                } else {
                    found_rel(value, ps, r)
                }
            },
            Err(_) => r == JsonV::Str(join_bar(names)),
        }
    }
}

/// `handle_value`: variable references are looked up, anything else is the
/// value as JSON.
pub open spec fn handled(p: ParsedValue, vars: JsonV, r: JsonV) -> bool {
    match p {
        ParsedValue::Variables(v) => handled_names(strings_view(v@), vars, r),
        _ => r == pv_json(p),
    }
}

/// The part of `handled_names` for a value that is not null.
pub open spec fn found_rel(value: JsonV, ps: Seq<crate::color::OpParse>, r: JsonV) -> bool {
    match value {
        JsonV::Str(v) => if ps.len() > 0 {
            exists|p: ParsedValue|
                #[trigger] value_parse(v, p) && if p is Color {
                    exists|os: Seq<Operation>, d: Color|
                        #![trigger ops_match(os, ps), update_outcome(p->Color_0, os, d)]
                        ops_match(os, ps) && update_outcome(p->Color_0, os, d) && r == JsonV::Str(d.hex@)
                } else {
                    r == value
                }
        } else {
            r == value
        },
        _ => r == value,
    }
}

fn found_value<S: ColorSpace>(
    value: Json,
    ops: Operations,
    Ghost(ps): Ghost<Seq<crate::color::OpParse>>,
    space: &S,
) -> (r: Json)
    requires
        ops_match(ops@, ps),
        ops_safe(ps),
        gen_ok(jview(value)),
    ensures
        found_rel(jview(value), ps, jview(r)),
{
    match &value {
        Json::String(v) => {
            if ops.len() > 0 {
                let p = match ParsedValue::from_str(v.as_str(), space) {
                    Ok(p) => p,
                    Err(_) => ParsedValue::Null,
                };
                let ghost p0 = p;
                match p {
                    ParsedValue::Color(c) => {
                        let mut color = c;
                        let ghost c0 = color;
                        proof {
                            lemma_ops_safe(ops@, ps);
                        }
                        let ghost os = ops@;
                        let _ = color.update(ops, space);
                        assert(update_outcome(c0, os, color));
                        Json::String(color.to_string())
                    },
                    _ => {
                        assert(value_parse(v@, p0));
                        value
                    },
                }
            } else {
                value
            }
        },
        _ => value,
    }
}

fn handle_names<S: ColorSpace>(names: &Vec<String>, k: usize, variables: &Json, space: &S) -> (r: Json)
    requires
        k <= names@.len(),
        gen_ok(jview(*variables)),
        names_safe(strings_view(names@)),
    ensures
        handled_names(strings_view(names@).skip(k as int), jview(*variables), jview(r)),
    decreases names@.len() - k,
{
    let ghost ns = strings_view(names@).skip(k as int);
    if k >= names.len() {
        assert(ns =~= Seq::<Seq<char>>::empty());
        assert(join_bar(ns) == Seq::<char>::empty());
        return Json::String(String::new());
    }
    assert(ns[0] == names@[k as int]@);
    assert(strings_view(names@)[k as int] == ns[0]);
    match ParsedVariable::from_str(names[k].as_str()) {
        Ok(pv) => {
            let path = var_path_exec(&pv.name);
            let value = match path.traverse(variables) {
                Ok(t) => t.clone(),
                Err(_) => Json::Null,
            };
            proof {
                lemma_follow_gen(jview(*variables), pointer_tokens(path@));
            }
            let is_null = match &value {
                Json::Null => true,
                _ => false,
            };
            if is_null {
                if names.len() - k > 1 {
                    assert(ns.drop_first() =~= strings_view(names@).skip(k + 1));
                    handle_names(names, k + 1, variables, space)
                } else {
                    Json::Null
                }
            } else {
                found_value(value, pv.operations, Ghost(parse_var(ns[0])->Ok_0.1), space)
            }
        },
        Err(_) => {
            let mut rest: Vec<String> = Vec::new();
            for t in k..names.len()
                invariant
                    k <= t <= names@.len(),
                    strings_view(rest@) == strings_view(names@).subrange(k as int, t as int),
            {
                let ghost before = rest@;
                let c = names[t].clone();
                assert(c@ == names@[t as int]@);
                rest.push(c);
                assert(strings_view(rest@) =~= strings_view(before).push(names@[t as int]@));
                assert(strings_view(rest@) =~= strings_view(names@).subrange(k as int, t + 1));
            }
            assert(strings_view(names@).subrange(k as int, names@.len() as int) =~= ns);
            ParsedValue::Variables(rest).into_value()
        },
    }
}

/// Fills in a template value: variable references get the variables'
/// values (see `handled`); anything else becomes JSON as it reads.
pub fn handle_value<S: ColorSpace>(parsed: ParsedValue, variables: &Json, space: &S) -> (r: Json)
    requires
        gen_ok(jview(*variables)),
        parsed matches ParsedValue::Variables(v) ==> names_safe(strings_view(v@)),
    ensures
        handled(parsed, jview(*variables), jview(r)),
{
    match parsed {
        ParsedValue::Variables(names) => {
            let r = handle_names(&names, 0, variables, space);
            assert(strings_view(names@).skip(0) == strings_view(names@));
            r
        },
        other => other.into_value(),
    }
}

/// A template string filled in: read as a value, then handled.
pub open spec fn text_filled(s: Seq<char>, vars: JsonV, r: JsonV) -> bool {
    exists|p: ParsedValue| #[trigger] value_parse(s, p) && handled(p, vars, r)
}

/// `match_variables`: an object template with every string filled in,
/// inside nested objects and arrays too.
pub open spec fn matched(t: JsonV, vars: JsonV, r: JsonV) -> bool
    decreases t, 0nat,
{
    match t {
        JsonV::Object(o) => r matches JsonV::Object(ro) && matched_entries(o, ro, vars),
        _ => false,
    }
}

pub open spec fn matched_entries(o: Seq<(Seq<char>, JsonV)>, ro: Seq<(Seq<char>, JsonV)>, vars: JsonV) -> bool
    decreases o, o.len(),
{
    o.len() == ro.len() && (o.len() == 0 || ({
        proof {
            assert(decreases_to!(o => o.drop_last()));
        }
        matched_entries(o.drop_last(), ro.drop_last(), vars) && ro.last().0 == o.last().0
            && matched_value(o.last().1, vars, ro.last().1)
    }))
}

pub open spec fn matched_value(x: JsonV, vars: JsonV, r: JsonV) -> bool
    decreases x, 1nat,
{
    match x {
        JsonV::Str(s) => text_filled(s, vars, r),
        JsonV::Array(a) => r matches JsonV::Array(ra) && matched_elems(a, ra, vars),
        JsonV::Object(_) => matched(x, vars, r),
        _ => r == x,
    }
}

pub open spec fn matched_elems(a: Seq<JsonV>, ra: Seq<JsonV>, vars: JsonV) -> bool
    decreases a, a.len(),
{
    a.len() == ra.len() && (a.len() == 0 || ({
        proof {
            assert(decreases_to!(a => a.drop_last()));
        }
        matched_elems(a.drop_last(), ra.drop_last(), vars) && matched_elem(a.last(), vars, ra.last())
    }))
}

pub open spec fn matched_elem(x: JsonV, vars: JsonV, r: JsonV) -> bool
    decreases x, 1nat,
{
    match x {
        JsonV::Object(_) => matched(x, vars, r),
        JsonV::Str(s) => text_filled(s, vars, r),
        _ => r == x,
    }
}

/// Template strings generation can read: values that read without a
/// panic, whose references name variables with changes that apply.
pub proof fn lemma_gen_names(s: Seq<char>, p: ParsedValue)
    requires
        gen_text_ok(s),
        value_parse(s, p),
    ensures
        p matches ParsedValue::Variables(v) ==> names_safe(strings_view(v@)),
{
    if p is Variables {
        assert forall|i: int| 0 <= i < var_names(s).len() implies (parse_var(#[trigger] var_names(s)[i]) matches Ok((n, ps))
            ==> ops_safe(ps)) by {}
    }
}

fn fill_text<S: ColorSpace>(s: &String, variables: &Json, space: &S) -> (r: Json)
    requires
        gen_text_ok(s@),
        gen_ok(jview(*variables)),
    ensures
        text_filled(s@, jview(*variables), jview(r)),
{
    let p = match ParsedValue::from_str(s.as_str(), space) {
        Ok(p) => p,
        Err(_) => ParsedValue::Null,
    };
    let ghost p0 = p;
    proof {
        lemma_gen_names(s@, p);
    }
    let r = handle_value(p, variables, space);
    assert(value_parse(s@, p0) && handled(p0, jview(*variables), jview(r)));
    r
}

/// Fills in an object template: every string is read and its variable
/// references replaced by the variables' values (see `handled`), in nested
/// objects and arrays too.
pub fn match_variables<S: ColorSpace>(template: &Json, variables: &Json, space: &S) -> (r: Json)
    requires
        jview(*template) is Object,
        gen_ok(jview(*template)),
        gen_ok(jview(*variables)),
    ensures
        matched(jview(*template), jview(*variables), jview(r)),
    decreases template, 0nat,
{
    match template {
        Json::Object(o) => {
            let ghost e = jentries(o@);
            proof {
                lemma_gen_entries(e);
            }
            let mut v: Vec<(String, Json)> = Vec::new();
            for i in 0..o.len()
                invariant
                    e == jentries(o@),
                    *template == Json::Object(*o),
                    gen_ok(jview(*variables)),
                    forall|k: int| 0 <= k < e.len() ==> gen_ok(#[trigger] e[k].1),
                    matched_entries(e.take(i as int), jentries(v@), jview(*variables)),
            {
                assert(e[i as int] == (o@[i as int].0@, jview(o@[i as int].1)));
                assert(gen_ok(e[i as int].1));
                assert(decreases_to!(*template => (*template)->Object_0));
                assert(decreases_to!(*o => o@));
                assert(decreases_to!(o@ => o@[i as int]));
                assert(decreases_to!(o@[i as int] => o@[i as int].1));
                let x = match_value(&o[i].1, variables, space);
                let ghost before = jentries(v@);
                v.push((o[i].0.clone(), x));
                assert(jentries(v@) =~= before.push((o@[i as int].0@, jview(x))));
                assert(e.take(i + 1).drop_last() =~= e.take(i as int));
                assert(jentries(v@).drop_last() =~= before);
            }
            assert(e.take(o.len() as int) =~= e);
            Json::Object(v)
        },
        _ => Json::Null,
    }
}

fn match_value<S: ColorSpace>(x: &Json, variables: &Json, space: &S) -> (r: Json)
    requires
        gen_ok(jview(*x)),
        gen_ok(jview(*variables)),
    ensures
        matched_value(jview(*x), jview(*variables), jview(r)),
    decreases x, 1nat,
{
    match x {
        Json::String(s) => fill_text(s, variables, space),
        Json::Object(_) => match_variables(x, variables, space),
        Json::Array(a) => {
            let ghost e = jviews(a@);
            proof {
                lemma_gen_all(e);
            }
            let mut v: Vec<Json> = Vec::new();
            for i in 0..a.len()
                invariant
                    e == jviews(a@),
                    *x == Json::Array(*a),
                    gen_ok(jview(*variables)),
                    forall|k: int| 0 <= k < e.len() ==> gen_ok(#[trigger] e[k]),
                    matched_elems(e.take(i as int), jviews(v@), jview(*variables)),
            {
                assert(e[i as int] == jview(a@[i as int]));
                assert(gen_ok(e[i as int]));
                assert(decreases_to!(*x => (*x)->Array_0));
                assert(decreases_to!(*a => a@));
                assert(decreases_to!(a@ => a@[i as int]));
                let y = match &a[i] {
                    Json::Object(_) => match_variables(&a[i], variables, space),
                    Json::String(s) => fill_text(s, variables, space),
                    other => other.clone(),
                };
                assert(matched_elem(e[i as int], jview(*variables), jview(y)));
                let ghost before = jviews(v@);
                v.push(y);
                assert(jviews(v@) =~= before.push(jview(y)));
                assert(e.take(i + 1).drop_last() =~= e.take(i as int));
                assert(jviews(v@).drop_last() =~= before);
                assert(e.take(i + 1).last() == e[i as int]);
                assert(jviews(v@).last() == jview(y));
            }
            assert(e.take(a.len() as int) =~= e);
            Json::Array(v)
        },
        other => other.clone(),
    }
}

/// What `regex::Regex::new(pattern)` and then `is_match(text)` give:
/// `None` when the pattern does not compile, else whether the pattern
/// matches somewhere in the text.
pub uninterp spec fn regex_match(pattern: Seq<char>, text: Seq<char>) -> Option<bool>;

/// `regex::Regex::new` followed by `Regex::is_match`: compiles the pattern
/// and tells whether it matches somewhere in the text. The crate's regex
/// engine decides; its answer is only named here.
#[verifier::external_body]
fn regex_is_match(pattern: &str, text: &str) -> (r: Option<bool>)
    ensures
        r == regex_match(pattern@, text@),
{
    match regex::Regex::new(pattern) {
        Ok(re) => Some(re.is_match(text)),
        Err(_) => None,
    }
}

pub open spec fn anchored(key: Seq<char>) -> Seq<char> {
    seq!['^'] + key + seq!['$']
}

/// The value of the last entry whose key, anchored at both ends, is a
/// pattern matching `path`; `j` when none does.
pub open spec fn leaf_override(map: Seq<(Seq<char>, JsonV)>, path: Seq<char>, j: JsonV, n: int) -> JsonV
    decreases n,
{
    if n <= 0 || n > map.len() {
        j
    } else if regex_match(anchored(map[n - 1].0), path) == Some(true) {
        map[n - 1].1
    } else {
        leaf_override(map, path, j, n - 1)
    }
}

/// `replace_regex`: every value that is not an object or array, found at
/// `path`, replaced by the override whose key pattern matches its path.
pub open spec fn regex_replaced(map: Seq<(Seq<char>, JsonV)>, j: JsonV, path: Seq<char>) -> JsonV
    decreases j,
{
    match j {
        JsonV::Object(o) => JsonV::Object(
            Seq::new(
                o.len(),
                |i: int|
                    if 0 <= i < o.len() {
                        (o[i].0, regex_replaced(map, o[i].1, path + seq!['/'] + o[i].0))
                    } else {
                        (Seq::empty(), JsonV::Null)
                    },
            ),
        ),
        JsonV::Array(a) => JsonV::Array(
            Seq::new(
                a.len(),
                |i: int|
                    if 0 <= i < a.len() {
                        regex_replaced(map, a[i], path + seq!['/'] + dec_digits(i as nat))
                    } else {
                        JsonV::Null
                    },
            ),
        ),
        _ => leaf_override(map, path, j, map.len() as int),
    }
}

fn anchored_exec(key: &String) -> (r: String)
    ensures
        r@ == anchored(key@),
{
    let mut v: Vec<char> = Vec::new();
    v.push('^');
    append_chars(&mut v, &chars_of(key.as_str()));
    v.push('$');
    assert(v@ =~= anchored(key@));
    string_of(&v)
}

fn regex_replaced_exec(key_map: &Vec<(String, Json)>, data: &Json, path: &Vec<char>) -> (r: Json)
    ensures
        jview(r) == regex_replaced(jentries(key_map@), jview(*data), path@),
    decreases data,
{
    let ghost m = jentries(key_map@);
    match data {
        Json::Object(o) => {
            let mut v: Vec<(String, Json)> = Vec::new();
            for i in 0..o.len()
                invariant
                    m == jentries(key_map@),
                    *data == Json::Object(*o),
                    v@.len() == i,
                    forall|t: int|
                        0 <= t < i ==> (#[trigger] v@[t]).0@ == o@[t].0@ && jview(v@[t].1)
                            == regex_replaced(m, jview(o@[t].1), path@ + seq!['/'] + o@[t].0@),
            {
                assert(decreases_to!(*data => (*data)->Object_0));
                assert(decreases_to!(*o => o@));
                assert(decreases_to!(o@ => o@[i as int]));
                assert(decreases_to!(o@[i as int] => o@[i as int].1));
                let mut p = path.clone();
                p.push('/');
                append_chars(&mut p, &chars_of(o[i].0.as_str()));
                assert(p@ =~= path@ + seq!['/'] + o@[i as int].0@);
                let x = regex_replaced_exec(key_map, &o[i].1, &p);
                v.push((o[i].0.clone(), x));
            }
            proof {
                let want = regex_replaced(m, jview(*data), path@);
                assert forall|t: int| 0 <= t < o@.len() implies jentries(v@)[t] == want->Object_0[t] by {
                    assert(jentries(o@)[t] == (o@[t].0@, jview(o@[t].1)));
                }
                assert(jentries(v@) =~= want->Object_0);
            }
            Json::Object(v)
        },
        Json::Array(a) => {
            let mut v: Vec<Json> = Vec::new();
            for i in 0..a.len()
                invariant
                    m == jentries(key_map@),
                    *data == Json::Array(*a),
                    v@.len() == i,
                    forall|t: int|
                        0 <= t < i ==> jview(#[trigger] v@[t]) == regex_replaced(
                            m,
                            jview(a@[t]),
                            path@ + seq!['/'] + dec_digits(t as nat),
                        ),
            {
                assert(decreases_to!(*data => (*data)->Array_0));
                assert(decreases_to!(*a => a@));
                assert(decreases_to!(a@ => a@[i as int]));
                let mut p = path.clone();
                p.push('/');
                append_chars(&mut p, &fmt_dec(i));
                assert(p@ =~= path@ + seq!['/'] + dec_digits(i as nat));
                v.push(regex_replaced_exec(key_map, &a[i], &p));
            }
            proof {
                let want = regex_replaced(m, jview(*data), path@);
                assert forall|t: int| 0 <= t < a@.len() implies jviews(v@)[t] == want->Array_0[t] by {
                    assert(jviews(a@)[t] == jview(a@[t]));
                }
                assert(jviews(v@) =~= want->Array_0);
            }
            Json::Array(v)
        },
        _ => {
            let text = string_of(path);
            let mut r = data.clone();
            for i in 0..key_map.len()
                invariant
                    m == jentries(key_map@),
                    text@ == path@,
                    !(jview(*data) is Object) && !(jview(*data) is Array),
                    jview(r) == leaf_override(m, path@, jview(*data), i as int),
            {
                assert(m[i as int] == (key_map@[i as int].0@, jview(key_map@[i as int].1)));
                let pat = anchored_exec(&key_map[i].0);
                match regex_is_match(pat.as_str(), text.as_str()) {
                    Some(true) => {
                        r = key_map[i].1.clone();
                    },
                    _ => {},
                }
            }
            r
        },
    }
}

/// Replaces every value that is not an object or array, at its path from
/// `start_path`, with the value of the last override whose key (a pattern,
/// anchored at both ends) matches that path.
pub fn replace_regex(key_map: &Vec<(String, Json)>, data: &mut Json, start_path: &str)
    ensures
        jview(*final(data)) == regex_replaced(jentries(key_map@), jview(*old(data)), start_path@),
{
    let r = regex_replaced_exec(key_map, data, &chars_of(start_path));
    *data = r;
}

fn refs_safe_exec(s: &String) -> (r: bool)
    requires
        value_text_ok(s@),
    ensures
        r == refs_safe(s@),
{
    if !potential_var(s.as_str()) {
        return true;
    }
    let names = var_names_exec(&chars_of(s.as_str()));
    let ghost ns = var_names(s@);
    for i in 0..names.len()
        invariant
            strings_view(names@) == ns,
            ns == var_names(s@),
            potential_var_spec(s@),
            forall|j: int|
                0 <= j < i ==> (parse_var(#[trigger] ns[j]) matches Ok((n, ps)) ==> ops_safe(ps)),
    {
        assert(names@[i as int]@ == ns[i as int]);
        match ParsedVariable::from_str(names[i].as_str()) {
            Ok(v) => {
                if !ops_safe_exec(&v.operations, Ghost(parse_var(ns[i as int])->Ok_0.1)) {
                    assert(potential_var_spec(s@));
                    assert(0 <= i < var_names(s@).len());
                    assert(!(parse_var(var_names(s@)[i as int]) matches Ok((n, ps)) ==> ops_safe(ps)));
                    return false;
                }
            },
            Err(_) => {},
        }
    }
    true
}

/// Tells whether every string of `j` is one generation can read (see
/// `gen_ok`).
pub fn gen_ok_exec<S: ColorSpace>(j: &Json, space: &S) -> (r: bool)
    ensures
        r == gen_ok(jview(*j)),
    decreases j,
{
    match j {
        Json::String(s) => ParsedValue::text_ok(s.as_str(), space) && refs_safe_exec(s),
        Json::Array(a) => {
            proof {
                lemma_gen_all(jviews(a@));
            }
            for i in 0..a.len()
                invariant
                    *j == Json::Array(*a),
                    forall|k: int| 0 <= k < i ==> gen_ok(#[trigger] jview(a@[k])),
            {
                assert(decreases_to!(*j => (*j)->Array_0));
                assert(decreases_to!(*a => a@));
                assert(decreases_to!(a@ => a@[i as int]));
                if !gen_ok_exec(&a[i], space) {
                    assert(jviews(a@)[i as int] == jview(a@[i as int]));
                    assert(!gen_ok(jviews(a@)[i as int]));
                    proof {
                        lemma_gen_all(jviews(a@));
                    }
                    return false;
                }
            }
            assert forall|k: int| 0 <= k < jviews(a@).len() implies gen_ok(#[trigger] jviews(a@)[k]) by {
                assert(jviews(a@)[k] == jview(a@[k]));
            }
            true
        },
        Json::Object(o) => {
            proof {
                lemma_gen_entries(jentries(o@));
            }
            for i in 0..o.len()
                invariant
                    *j == Json::Object(*o),
                    forall|k: int| 0 <= k < i ==> gen_ok(#[trigger] jview(o@[k].1)),
            {
                assert(decreases_to!(*j => (*j)->Object_0));
                assert(decreases_to!(*o => o@));
                assert(decreases_to!(o@ => o@[i as int]));
                assert(decreases_to!(o@[i as int] => o@[i as int].1));
                if !gen_ok_exec(&o[i].1, space) {
                    assert(jentries(o@)[i as int].1 == jview(o@[i as int].1));
                    assert(!gen_ok(jentries(o@)[i as int].1));
                    proof {
                        lemma_gen_entries(jentries(o@));
                    }
                    return false;
                }
            }
            assert forall|k: int| 0 <= k < jentries(o@).len() implies gen_ok(#[trigger] jentries(o@)[k].1) by {
                assert(jentries(o@)[k].1 == jview(o@[k].1));
            }
            true
        },
        _ => true,
    }
}

/// How deep variables are resolved.
pub const MAX_RECURSION_DEPTH: usize = 8;

/// The value of key `k` of an object.
pub open spec fn field(j: JsonV, k: Seq<char>) -> Option<JsonV> {
    match j {
        JsonV::Object(o) => get_key(o, k),
        _ => None,
    }
}

/// The `deletions.keys` listed by the variables.
pub open spec fn deletion_list(v: JsonV) -> Seq<JsonV> {
    match field(v, "deletions"@) {
        Some(d) => match field(d, "keys"@) {
            Some(JsonV::Array(ks)) => ks,
            _ => Seq::empty(),
        },
        None => Seq::empty(),
    }
}

/// One deletion: the value at the path removed, or the template as it was
/// when that fails.
#[verifier::opaque]
pub open spec fn del_step(t: JsonV, k: JsonV) -> JsonV {
    match k {
        JsonV::Str(s) => match remove_spec(t, parse_path(s)) {
            Some(x) => x,
            None => t,
        },
        _ => t,
    }
}

/// One deletion panics: the key is not a string, or removing panics.
#[verifier::opaque]
pub open spec fn del_panics(t: JsonV, k: JsonV) -> bool {
    !(k is Str) || remove_panics(t, parse_path(k->Str_0))
}

/// The template after the first `n` deletions.
pub open spec fn deleted(t: JsonV, ks: Seq<JsonV>, n: int) -> JsonV
    decreases n,
{
    if n <= 0 || n > ks.len() {
        t
    } else {
        del_step(deleted(t, ks, n - 1), ks[n - 1])
    }
}

/// Applying the deletions panics: they are not an object with an array of
/// strings under `keys`, or a path is empty or leads below a value that is
/// neither an object nor an array.
pub open spec fn deletions_panic(t: JsonV, v: JsonV) -> bool {
    match field(v, "deletions"@) {
        Some(d) => !(d is Object) || match field(d, "keys"@) {
            Some(JsonV::Array(ks)) => exists|i: int|
                0 <= i < ks.len() && del_panics(deleted(t, ks, i), #[trigger] ks[i]),
            Some(_) => true,
            None => false,
        },
        None => false,
    }
}

/// The overrides of the variables, key by key.
pub open spec fn override_list(v: JsonV) -> Seq<(Seq<char>, JsonV)> {
    match field(v, "overrides"@) {
        Some(JsonV::Object(o)) => o,
        _ => Seq::empty(),
    }
}

/// The value after paving the first `n` overrides; `None` at the first
/// that fails.
pub open spec fn paved(m: JsonV, ov: Seq<(Seq<char>, JsonV)>, n: int) -> Option<JsonV>
    decreases n,
{
    if n <= 0 || n > ov.len() {
        Some(m)
    } else {
        match paved(m, ov, n - 1) {
            Some(x) => pave_spec(x, parse_path(ov[n - 1].0), ov[n - 1].1),
            None => None,
        }
    }
}

/// The overrides panic: `overrides-regex` or `overrides` is not an object,
/// or an override path has an index too large to grow an array to.
pub open spec fn overrides_panic(v: JsonV) -> bool {
    (field(v, "overrides-regex"@) matches Some(x) && !(x is Object)) || (field(v, "overrides"@)
        matches Some(x) && (!(x is Object) || exists|i: int|
        0 <= i < x->Object_0.len() && !indices_bounded(parse_path(#[trigger] x->Object_0[i].0))))
}

/// The matched template with the regex overrides applied.
pub open spec fn regex_applied(m: JsonV, v: JsonV) -> JsonV {
    match field(v, "overrides-regex"@) {
        Some(JsonV::Object(map)) => regex_replaced(map, m, Seq::empty()),
        _ => m,
    }
}

/// Everything after resolving the variables to `v`: deletions, matching,
/// overrides.
pub open spec fn steps_result(t: JsonV, v: JsonV, r: Result<JsonV, ()>) -> bool {
    let t2 = deleted(t, deletion_list(v), deletion_list(v).len() as int);
    if deletions_panic(t, v) || !(t2 is Object) || !gen_ok(v) || !gen_ok(t2) || overrides_panic(v) {
        r is Err
    } else {
        exists|m: JsonV|
            #[trigger] matched(t2, v, m) && match paved(regex_applied(m, v), override_list(v), override_list(v).len() as int) {
                Some(out) => r == Ok::<JsonV, ()>(out),
                None => r is Err,
            }
    }
}

/// `field` for objects of the library.
fn field_exec<'a>(j: &'a Json, k: &str) -> (r: Option<&'a Json>)
    ensures
        match r {
            Some(x) => field(jview(*j), k@) == Some(jview(*x)),
            None => field(jview(*j), k@) is None,
        },
{
    match j {
        Json::Object(o) => match obj_find(o, &chars_of(k)) {
            Some(i) => {
                proof {
                    lemma_key_pos_bounds(jentries(o@), k@);
                }
                assert(jentries(o@)[i as int].1 == jview(o@[i as int].1));
                Some(&o[i].1)
            },
            None => None,
        },
        _ => None,
    }
}

fn parent_path(p: &JSPath) -> (r: JSPath)
    requires
        p@.len() > 0,
    ensures
        r@ == p@.drop_last(),
{
    let mut v: Vec<JsonKey> = Vec::new();
    for i in 0..p.0.len() - 1
        invariant
            p.0@.len() > 0,
            v@ == p.0@.take(i as int),
    {
        v.push(p.0[i].clone());
        assert(v@ =~= p.0@.take(i + 1));
    }
    let r = JSPath(v);
    assert(r@ =~= p@.drop_last());
    r
}

/// Applies one deletion; `false` on a deletion that cannot be applied.
fn delete_one(template: &mut Json, k: &Json) -> (ok: bool)
    ensures
        ok == !del_panics(jview(*old(template)), jview(*k)),
        ok ==> jview(*final(template)) == del_step(jview(*old(template)), jview(*k)),
{
    reveal(del_panics);
    reveal(del_step);
    let k = match k {
        Json::String(k) => k,
        _ => {
            return false;
        },
    };
    let path = match JSPath::from_str(k.as_str()) {
        Ok(p) => p,
        Err(_) => JSPath::new(),
    };
    if path.0.len() == 0 {
        assert(path@.len() == 0);
        return false;
    }
    let parent = parent_path(&path);
    match parent.traverse(template) {
        Ok(x) => {
            let scalar = match x {
                Json::Array(_) | Json::Object(_) => false,
                _ => true,
            };
            if scalar {
                return false;
            }
        },
        Err(_) => {},
    }
    let _ = path.remove(template);
    true
}

fn apply_deletions(template: &mut Json, v: &Json) -> (ok: bool)
    ensures
        ok == !deletions_panic(jview(*old(template)), jview(*v)),
        ok ==> jview(*final(template)) == deleted(
            jview(*old(template)),
            deletion_list(jview(*v)),
            deletion_list(jview(*v)).len() as int,
        ),
{
    let ghost t0 = jview(*template);
    let d = match field_exec(v, "deletions") {
        None => {
            return true;
        },
        Some(d) => d,
    };
    let is_obj = match d {
        Json::Object(_) => true,
        _ => false,
    };
    if !is_obj {
        return false;
    }
    let keys = match field_exec(d, "keys") {
        None => {
            return true;
        },
        Some(k) => k,
    };
    let ks = match keys {
        Json::Array(ks) => ks,
        _ => {
            return false;
        },
    };
    let ghost kv = jviews(ks@);
    assert(deletion_list(jview(*v)) == kv);
    delete_all(template, ks)
}

#[verifier::rlimit(80)]
fn delete_all(template: &mut Json, ks: &Vec<Json>) -> (ok: bool)
    ensures
        ok == !exists|i: int|
            0 <= i < jviews(ks@).len() && del_panics(deleted(jview(*old(template)), jviews(ks@), i), #[trigger] jviews(ks@)[i]),
        ok ==> jview(*final(template)) == deleted(jview(*old(template)), jviews(ks@), jviews(ks@).len() as int),
{
    let ghost t0 = jview(*template);
    let ghost kv = jviews(ks@);
    for i in 0..ks.len()
        invariant
            kv == jviews(ks@),
            t0 == jview(*old(template)),
            jview(*template) == deleted(t0, kv, i as int),
            forall|j: int| 0 <= j < i ==> !del_panics(deleted(t0, kv, j), #[trigger] kv[j]),
    {
        assert(kv[i as int] == jview(ks@[i as int]));
        if !delete_one(template, &ks[i]) {
            assert(0 <= i < kv.len() && del_panics(deleted(t0, kv, i as int), kv[i as int]));
            return false;
        }
    }
    assert(!exists|i: int| 0 <= i < kv.len() && del_panics(deleted(t0, kv, i), #[trigger] kv[i]));
    true
}

fn steps_error() -> (r: ProgramError)
    ensures
        r is Processing,
{
    let mut s = String::new();
    crate::text::push_char(&mut s, '?');
    ProgramError::Processing(s)
}

pub open spec fn result_view(r: Result<Json, ProgramError>) -> Result<JsonV, ()> {
    match r {
        Ok(x) => Ok(jview(x)),
        Err(_) => Err(()),
    }
}

fn apply_overrides(matches: &mut Json, v: &Json) -> (r: Result<(), ProgramError>)
    requires
        !overrides_panic(jview(*v)),
    ensures
        r is Ok <==> paved(jview(*old(matches)), override_list(jview(*v)), override_list(jview(*v)).len() as int) is Some,
        r is Ok ==> paved(jview(*old(matches)), override_list(jview(*v)), override_list(jview(*v)).len() as int) == Some(jview(*final(matches))),
{
    let ghost m0 = jview(*matches);
    match field_exec(v, "overrides") {
        Some(Json::Object(ov)) => {
            let ghost ol = jentries(ov@);
            assert(override_list(jview(*v)) == ol);
            for i in 0..ov.len()
                invariant
                    ol == jentries(ov@),
                    field(jview(*v), "overrides"@) == Some(JsonV::Object(ol)),
                    override_list(jview(*v)) == ol,
                    m0 == jview(*old(matches)),
                    !overrides_panic(jview(*v)),
                    paved(m0, ol, i as int) == Some(jview(*matches)),
            {
                assert(ol[i as int] == (ov@[i as int].0@, jview(ov@[i as int].1)));
                let path = match JSPath::from_str(ov[i].0.as_str()) {
                    Ok(p) => p,
                    Err(_) => JSPath::new(),
                };
                assert(indices_bounded(parse_path(ol[i as int].0)));
                let ghost before = jview(*matches);
                let val = ov[i].1.clone();
                assert(jview(val) == ol[i as int].1);
                match path.pave(matches, val) {
                    Ok(()) => {},
                    Err(e) => {
                        assert(paved(m0, ol, i + 1) is None);
                        proof {
                            lemma_paved_none(m0, ol, i + 1, ol.len() as int);
                        }
                        return Err(e);
                    },
                }
            }
            Ok(())
        },
        _ => {
            assert(override_list(jview(*v)) == Seq::<(Seq<char>, JsonV)>::empty());
            Ok(())
        },
    }
}

proof fn lemma_paved_none(m: JsonV, ov: Seq<(Seq<char>, JsonV)>, n: int, k: int)
    requires
        0 < n <= k <= ov.len(),
        paved(m, ov, n) is None,
    ensures
        paved(m, ov, k) is None,
    decreases k - n,
{
    if n < k {
        lemma_paved_none(m, ov, n, k - 1);
    }
}

/// The steps after resolving the variables (see `steps_result`).
pub fn apply_steps<S: ColorSpace>(template: Json, v: &Json, space: &S) -> (r: Result<Json, ProgramError>)
    ensures
        steps_result(jview(template), jview(*v), result_view(r)),
{
    let ghost t0 = jview(template);
    let mut t = template;
    if !apply_deletions(&mut t, v) {
        return Err(steps_error());
    }
    let is_obj = match &t {
        Json::Object(_) => true,
        _ => false,
    };
    if !is_obj || !gen_ok_exec(v, space) || !gen_ok_exec(&t, space) || !no_override_panic(v) {
        return Err(steps_error());
    }
    let mut matches = match_variables(&t, v, space);
    let ghost m = jview(matches);
    match field_exec(v, "overrides-regex") {
        Some(Json::Object(map)) => {
            replace_regex(map, &mut matches, "");
            proof {
                reveal_strlit("");
            }
        },
        _ => {},
    }
    assert(jview(matches) == regex_applied(m, jview(*v)));
    let res = apply_overrides(&mut matches, v);
    match res {
        Ok(()) => {
            let r = Ok(matches);
            assert(matched(jview(t), jview(*v), m));
            r
        },
        Err(e) => {
            assert(matched(jview(t), jview(*v), m));
            Err(e)
        },
    }
}

fn no_override_panic(v: &Json) -> (r: bool)
    ensures
        r == !overrides_panic(jview(*v)),
{
    match field_exec(v, "overrides-regex") {
        Some(Json::Object(_)) => {},
        Some(_) => {
            return false;
        },
        None => {},
    }
    match field_exec(v, "overrides") {
        Some(Json::Object(ov)) => {
            let ghost ol = jentries(ov@);
            assert(field(jview(*v), "overrides"@) == Some(JsonV::Object(ol)));
            for i in 0..ov.len()
                invariant
                    ol == jentries(ov@),
                    field(jview(*v), "overrides"@) == Some(JsonV::Object(ol)),
                    forall|j: int| 0 <= j < i ==> indices_bounded(parse_path(#[trigger] ol[j].0)),
            {
                assert(ol[i as int].0 == ov@[i as int].0@);
                let path = match JSPath::from_str(ov[i].0.as_str()) {
                    Ok(p) => p,
                    Err(_) => JSPath::new(),
                };
                if !indices_ok(&path) {
                    assert(!indices_bounded(parse_path(ol[i as int].0)));
                    let ghost x = field(jview(*v), "overrides"@)->Some_0;
                    assert(x->Object_0[i as int].0 == ol[i as int].0);
                    assert(overrides_panic(jview(*v)));
                    return false;
                }
            }
            true
        },
        Some(_) => false,
        None => true,
    }
}

/// Generates a theme from a template and the variables of a variable file:
/// `$self.` resolved, then references resolved (`MAX_RECURSION_DEPTH` levels
/// deep), then the listed deletions applied to the template, its strings
/// filled in, and the overrides (by pattern, then by path) applied (see
/// `steps_result`).
pub fn gen<S: ColorSpace>(template: Json, variables: &Json, space: &S) -> (r: Result<Json, ProgramError>)
    requires
        gen_ok(self_resolved(jview(*variables), seq![seq!['$']], MAX_RECURSION_DEPTH as nat)),
    ensures
        exists|v: JsonV|
            #[trigger] resolved_rel(
                self_resolved(jview(*variables), seq![seq!['$']], MAX_RECURSION_DEPTH as nat),
                self_resolved(jview(*variables), seq![seq!['$']], MAX_RECURSION_DEPTH as nat),
                Seq::empty(),
                MAX_RECURSION_DEPTH as nat,
                v,
            ) && steps_result(jview(template), v, result_view(r)),
{
    let mut dollar = String::new();
    crate::text::push_char(&mut dollar, '$');
    let mut root: Vec<String> = Vec::new();
    root.push(dollar);
    assert(strings_view(root@) =~= seq![seq!['$']]);
    let v1 = resolve_self_variables(variables, &root, MAX_RECURSION_DEPTH);
    let no_ops: Vec<Operations> = Vec::new();
    assert(lists_view(no_ops@) =~= Seq::<Seq<Operation>>::empty());
    let v2 = resolve_variables(&v1, &v1, &no_ops, MAX_RECURSION_DEPTH, space);
    let ghost vv = jview(v2);
    let r = apply_steps(template, &v2, space);
    assert(resolved_rel(jview(v1), jview(v1), Seq::empty(), MAX_RECURSION_DEPTH as nat, vv));
    r
}

pub(crate) fn indices_ok(p: &JSPath) -> (r: bool)
    ensures
        r == indices_bounded(p@),
{
    for i in 0..p.0.len()
        invariant
            forall|j: int| 0 <= j < i ==> (#[trigger] p@[j] matches KeyView::Index(x) ==> x < usize::MAX),
    {
        match &p.0[i] {
            JsonKey::Index(x) => {
                if *x == usize::MAX {
                    assert(!(p@[i as int] matches KeyView::Index(x) ==> x < usize::MAX));
                    return false;
                }
            },
            _ => {},
        }
    }
    true
}

/// One flag of the `gen` command.
#[derive(Debug)]
pub enum FlagTypes {
    OutputDirectory(String),
    InputDirectory(String),
    InnerPath(JSPath),
    Name(String),
    ReplaceName,
}

/// The settings of the `gen` command.
#[derive(Debug)]
pub struct Flags {
    pub replace_name: bool,
    pub output_directory: String,
    pub input_directory: String,
    pub name: String,
    pub path: Option<JSPath>,
}

/// The text after the last `=` of a flag (all of it when there is none).
pub open spec fn flag_value(f: Seq<char>) -> Seq<char> {
    split_seq(f, '=').last()
}

/// The directory a flag names, with `~` read as the home directory.
pub open spec fn flag_dir(f: Seq<char>, home: Seq<char>) -> Seq<char> {
    replace_all(flag_value(f), seq!['~'], home)
}

/// `FlagTypes::from_str`; `exists` tells whether the directory of a `-i`
/// or `-o` flag exists.
pub open spec fn gen_flag(f: Seq<char>, home: Seq<char>, exists: bool, r: Result<FlagTypes, ProgramError>) -> bool {
    if f == "-r"@ {
        r matches Ok(FlagTypes::ReplaceName)
    } else if starts_with(f, "-n"@) {
        r matches Ok(FlagTypes::Name(n)) && n@ == flag_value(f)
    } else if starts_with(f, "-p"@) {
        r matches Ok(FlagTypes::InnerPath(p)) && p@ == parse_path(flag_value(f))
    } else if starts_with(f, "-i"@) || starts_with(f, "-o"@) {
        if exists {
            if starts_with(f, "-i"@) {
                r matches Ok(FlagTypes::InputDirectory(d)) && d@ == flag_dir(f, home)
            } else {
                r matches Ok(FlagTypes::OutputDirectory(d)) && d@ == flag_dir(f, home)
            }
        } else {
            r matches Err(ProgramError::Processing(m)) && m@ == "Directory does not exist: "@ + flag_dir(f, home)
        }
    } else {
        r matches Err(ProgramError::InvalidFlag(c, g)) && c@ == "reverse"@ && g@ == f
    }
}

pub(crate) fn last_piece(f: &Vec<char>, sep: char) -> (r: Vec<char>)
    ensures
        r@ == split_seq(f@, sep).last(),
{
    let pieces = split_char(f, sep);
    proof {
        lemma_split_seq_nonempty(f@, sep);
    }
    let n = pieces.len();
    pieces[n - 1].clone()
}

fn processing_msg(prefix: &str, tail: &Vec<char>) -> (r: ProgramError)
    ensures
        r matches ProgramError::Processing(m) && m@ == prefix@ + tail@,
{
    crate::args::processing_error(prefix, tail)
}

impl FlagTypes {
    /// The directory a `-i` or `-o` flag names (`~` read as `home`), which
    /// has to exist; `None` for the other flags.
    pub fn flag_directory(flag: &str, home: &str) -> (r: Option<String>)
        ensures
            (starts_with(flag@, "-i"@) || starts_with(flag@, "-o"@)) && !starts_with(flag@, "-n"@)
                && !starts_with(flag@, "-p"@) && flag@ != "-r"@ ==> (r matches Some(d) && d@ == flag_dir(flag@, home@)),
    {
        let f = chars_of(flag);
        let mut tilde: Vec<char> = Vec::new();
        tilde.push('~');
        assert(tilde@ =~= seq!['~']);
        let d = replace_chars(&last_piece(&f, '='), &tilde, &chars_of(home));
        Some(string_of(&d))
    }

    /// Reads one flag; `exists` tells whether the directory named by a `-i`
    /// or `-o` flag exists.
    pub fn from_str(flag: &str, home: &str, exists: bool) -> (r: Result<Self, ProgramError>)
        ensures
            gen_flag(flag@, home@, exists, r),
    {
        let f = chars_of(flag);
        if eq_str(&f, "-r") {
            return Ok(FlagTypes::ReplaceName);
        }
        if has_prefix(&f, "-n") {
            return Ok(FlagTypes::Name(string_of(&last_piece(&f, '='))));
        }
        if has_prefix(&f, "-p") {
            let v = last_piece(&f, '=');
            return match JSPath::from_str(string_of(&v).as_str()) {
                Ok(p) => Ok(FlagTypes::InnerPath(p)),
                Err(_) => Err(ProgramError::InvalidFlag(String::from_str("reverse"), flag.to_string())),
            };
        }
        let is_in = has_prefix(&f, "-i");
        if is_in || has_prefix(&f, "-o") {
            let mut tilde: Vec<char> = Vec::new();
            tilde.push('~');
            assert(tilde@ =~= seq!['~']);
            let d = replace_chars(&last_piece(&f, '='), &tilde, &chars_of(home));
            if !exists {
                return Err(processing_msg("Directory does not exist: ", &d));
            }
            if is_in {
                return Ok(FlagTypes::InputDirectory(string_of(&d)));
            } else {
                return Ok(FlagTypes::OutputDirectory(string_of(&d)));
            }
        }
        Err(ProgramError::InvalidFlag(String::from_str("reverse"), flag.to_string()))
    }

    /// Reads every flag; the first that fails gives the error.
    pub fn into_vec(flags: &Vec<String>, home: &str, exists: &Vec<bool>) -> (r: Result<Vec<Self>, ProgramError>)
        requires
            exists@.len() == flags@.len(),
        ensures
            match r {
                Ok(v) => v@.len() == flags@.len() && forall|i: int|
                    0 <= i < v@.len() ==> gen_flag(flags@[i]@, home@, exists@[i], Ok(#[trigger] v@[i])),
                Err(e) => exists|i: int|
                    0 <= i < flags@.len() && gen_flag(flags@[i]@, home@, exists@[i], Err(e)) && forall|j: int|
                        0 <= j < i ==> #[trigger] gen_flag_ok(flags@[j]@, home@, exists@[j]),
            },
    {
        let mut v: Vec<FlagTypes> = Vec::new();
        for i in 0..flags.len()
            invariant
                exists@.len() == flags@.len(),
                v@.len() == i,
                forall|k: int| 0 <= k < i ==> gen_flag(flags@[k]@, home@, exists@[k], Ok(#[trigger] v@[k])),
        {
            match Self::from_str(flags[i].as_str(), home, exists[i]) {
                Ok(f) => v.push(f),
                Err(e) => {
                    assert forall|j: int| 0 <= j < i implies #[trigger] gen_flag_ok(flags@[j]@, home@, exists@[j]) by {
                        assert(gen_flag(flags@[j]@, home@, exists@[j], Ok(v@[j])));
                    }
                    return Err(e);
                },
            }
        }
        Ok(v)
    }

    /// The settings the flags give: each flag sets its setting, the last
    /// one winning; defaults `.`, `.`, `generated-theme`, no path, no
    /// replacing.
    pub fn parse(flags: &Vec<String>, home: &str, exists: &Vec<bool>) -> (r: Result<Flags, ProgramError>)
        requires
            exists@.len() == flags@.len(),
        ensures
            r is Ok <==> forall|i: int| 0 <= i < flags@.len() ==> #[trigger] gen_flag_ok(flags@[i]@, home@, exists@[i]),
            r matches Err(e) ==> exists|i: int|
                0 <= i < flags@.len() && gen_flag(flags@[i]@, home@, exists@[i], Err(e)),
            r matches Ok(f) ==> flags_result(flags@.map_values(|s: String| s@), home@, exists@, f),
    {
        let list = match Self::into_vec(flags, home, exists) {
            Ok(l) => l,
            Err(e) => {
                proof {
                    let i = choose|i: int|
                        0 <= i < flags@.len() && gen_flag(flags@[i]@, home@, exists@[i], Err(e)) && forall|j: int|
                            0 <= j < i ==> #[trigger] gen_flag_ok(flags@[j]@, home@, exists@[j]);
                    lemma_gen_flag_ok(flags@[i]@, home@, exists@[i], Err(e));
                }
                return Err(e);
            },
        };
        proof {
            assert forall|i: int| 0 <= i < flags@.len() implies #[trigger] gen_flag_ok(flags@[i]@, home@, exists@[i]) by {
                lemma_gen_flag_ok(flags@[i]@, home@, exists@[i], Ok(list@[i]));
            }
        }
        let mut output_directory = String::from_str(".");
        let mut input_directory = String::from_str(".");
        let mut name = String::from_str("generated-theme");
        let mut path: Option<JSPath> = None;
        let mut replace_name = false;
        let ghost fs = flags@.map_values(|s: String| s@);
        let mut list = list;
        let mut i: usize = 0;
        assert forall|k: int| 0 <= k < list@.len() implies gen_flag(fs[0 + k], home@, exists@[0 + k], Ok(#[trigger] list@[k])) by {
            assert(fs[k] == flags@[k]@);
        }
        let n = list.len();
        while list.len() > 0
            invariant
                n == flags@.len(),
                fs == flags@.map_values(|s: String| s@),
                list@.len() == n - i,
                i <= n,
                forall|k: int| 0 <= k < list@.len() ==> gen_flag(fs[i + k], home@, exists@[i + k], Ok(#[trigger] list@[k])),
                output_directory@ == last_out(fs, home@, i as int, "."@),
                input_directory@ == last_in(fs, home@, i as int, "."@),
                name@ == last_name(fs, i as int, "generated-theme"@),
                path_view(path) == last_inner(fs, i as int),
                replace_name == any_replace(fs, i as int),
            decreases list.len(),
        {
            let f = list.remove(0);
            assert(gen_flag(fs[i as int], home@, exists@[i as int], Ok(f)));
            match f {
                FlagTypes::OutputDirectory(p) => output_directory = p,
                FlagTypes::InputDirectory(p) => input_directory = p,
                FlagTypes::Name(x) => name = x,
                FlagTypes::InnerPath(p) => path = Some(p),
                FlagTypes::ReplaceName => replace_name = true,
            }
            i = i + 1;
        }
        Ok(Flags { replace_name, output_directory, input_directory, name, path })
    }
}

proof fn lemma_gen_flag_ok(f: Seq<char>, home: Seq<char>, exists: bool, r: Result<FlagTypes, ProgramError>)
    requires
        gen_flag(f, home, exists, r),
    ensures
        r is Ok ==> gen_flag_ok(f, home, exists),
        r is Err ==> !gen_flag_ok(f, home, exists),
{
}

pub open spec fn gen_flag_ok(f: Seq<char>, home: Seq<char>, exists: bool) -> bool {
    !(f != "-r"@ && !starts_with(f, "-n"@) && !starts_with(f, "-p"@) && (((starts_with(f, "-i"@)
        || starts_with(f, "-o"@)) && !exists) || !(starts_with(f, "-i"@) || starts_with(f, "-o"@))))
}

pub open spec fn path_view(p: Option<JSPath>) -> Option<Seq<KeyView>> {
    match p {
        Some(x) => Some(x@),
        None => None,
    }
}

pub open spec fn is_out(f: Seq<char>) -> bool {
    f != "-r"@ && !starts_with(f, "-n"@) && !starts_with(f, "-p"@) && !starts_with(f, "-i"@) && starts_with(f, "-o"@)
}

pub open spec fn is_in(f: Seq<char>) -> bool {
    f != "-r"@ && !starts_with(f, "-n"@) && !starts_with(f, "-p"@) && starts_with(f, "-i"@)
}

pub open spec fn is_name(f: Seq<char>) -> bool {
    f != "-r"@ && starts_with(f, "-n"@)
}

pub open spec fn is_inner(f: Seq<char>) -> bool {
    f != "-r"@ && !starts_with(f, "-n"@) && starts_with(f, "-p"@)
}

pub open spec fn last_out(fs: Seq<Seq<char>>, home: Seq<char>, n: int, d: Seq<char>) -> Seq<char>
    decreases n,
{
    if n <= 0 || n > fs.len() {
        d
    } else if is_out(fs[n - 1]) {
        flag_dir(fs[n - 1], home)
    } else {
        last_out(fs, home, n - 1, d)
    }
}

pub open spec fn last_in(fs: Seq<Seq<char>>, home: Seq<char>, n: int, d: Seq<char>) -> Seq<char>
    decreases n,
{
    if n <= 0 || n > fs.len() {
        d
    } else if is_in(fs[n - 1]) {
        flag_dir(fs[n - 1], home)
    } else {
        last_in(fs, home, n - 1, d)
    }
}

pub open spec fn last_name(fs: Seq<Seq<char>>, n: int, d: Seq<char>) -> Seq<char>
    decreases n,
{
    if n <= 0 || n > fs.len() {
        d
    } else if is_name(fs[n - 1]) {
        flag_value(fs[n - 1])
    } else {
        last_name(fs, n - 1, d)
    }
}

pub open spec fn last_inner(fs: Seq<Seq<char>>, n: int) -> Option<Seq<KeyView>>
    decreases n,
{
    if n <= 0 || n > fs.len() {
        None
    } else if is_inner(fs[n - 1]) {
        Some(parse_path(flag_value(fs[n - 1])))
    } else {
        last_inner(fs, n - 1)
    }
}

pub open spec fn any_replace(fs: Seq<Seq<char>>, n: int) -> bool
    decreases n,
{
    if n <= 0 || n > fs.len() {
        false
    } else {
        fs[n - 1] == "-r"@ || any_replace(fs, n - 1)
    }
}

/// The settings of well-formed flags.
pub open spec fn flags_result(fs: Seq<Seq<char>>, home: Seq<char>, exists: Seq<bool>, f: Flags) -> bool {
    &&& f.output_directory@ == last_out(fs, home, fs.len() as int, "."@)
    &&& f.input_directory@ == last_in(fs, home, fs.len() as int, "."@)
    &&& f.name@ == last_name(fs, fs.len() as int, "generated-theme"@)
    &&& path_view(f.path) == last_inner(fs, fs.len() as int)
    &&& f.replace_name == any_replace(fs, fs.len() as int)
}

impl Flags {
    /// The directory the variable files are read from.
    pub fn directory(&self) -> (r: String)
        ensures
            r@ == self.input_directory@,
    {
        self.input_directory.clone()
    }
}


/// The value a name stands for in the variables: nothing (`None`) when the
/// name does not read as a variable, null when it is not defined.
pub open spec fn name_value(name: Seq<char>, vars: JsonV) -> Option<JsonV> {
    match parse_var(name) {
        Ok((n, _)) => Some(
            match traverse_spec(vars, var_path(n)) {
                Some(t) => t,
                None => JsonV::Null,
            },
        ),
        Err(_) => None,
    }
}

/// Fallbacks (`$x|$y`): where the first name is missing or null and more
/// names follow, the filled value is the one the remaining names give.
pub proof fn law_fallback_to_next_name(names: Seq<Seq<char>>, vars: JsonV, r: JsonV)
    requires
        names.len() > 1,
        name_value(names[0], vars) == Some(JsonV::Null),
    ensures
        handled_names(names, vars, r) == handled_names(names.drop_first(), vars, r),
{
}

/// The last of the names missing or null gives null.
pub proof fn law_last_missing_name_is_null(names: Seq<Seq<char>>, vars: JsonV, r: JsonV)
    requires
        names.len() == 1,
        name_value(names[0], vars) == Some(JsonV::Null),
    ensures
        handled_names(names, vars, r) == (r == JsonV::Null),
{
}

/// Where the first name is defined (not null), the names after it are
/// never tried: the value is the one the first name alone gives.
pub proof fn law_first_defined_name_wins(names: Seq<Seq<char>>, vars: JsonV, r: JsonV)
    requires
        names.len() > 1,
        name_value(names[0], vars) matches Some(v) && !(v is Null),
    ensures
        handled_names(names, vars, r) == handled_names(seq![names[0]], vars, r),
{
    assert(seq![names[0]][0] == names[0]);
}

/// A name defined as a value that is not text gives that value.
pub proof fn law_defined_value_is_used(names: Seq<Seq<char>>, vars: JsonV, r: JsonV)
    requires
        names.len() > 0,
        name_value(names[0], vars) matches Some(v) && !(v is Null) && !(v is Str),
    ensures
        handled_names(names, vars, r) == (Some(r) == name_value(names[0], vars)),
{
}

} // verus!

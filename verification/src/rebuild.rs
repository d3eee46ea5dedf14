//! Reversing a theme: from a template and a theme built from it, the
//! variable file that would build the theme again.
use vstd::prelude::*;
use crate::text::{chars_of, string_of, append_chars, starts_with, has_prefix, skip_chars, chars_eq};
use crate::color::{ColorSpace, Operation, Component, apply_panics, no_panics, is_op, is_arith_op, comp_value};
use crate::json::{
    Json, JsonV, jview, jviews, jentries, JSPath, KeyView, parse_path, path_text, traverse_spec,
    follow, token_child, unescape, key_pos, lemma_key_pos_bounds, pointer_tokens, get_key,
    indices_bounded, pave_spec, same_type, same_type_spec,
};
use crate::parsing::{
    SourcedVariable, VarRef, ResolvedVariable, VariableSet, ParsedValue, parsed_refs, all_strings,
    lemma_all_strings_seq, lemma_all_strings_entries, source_text_ok, value_text_ok, strings_view,
    Entries, value_from,
};
use crate::args::{ProgramError, processing_error};
use crate::reverse::{
    key_diff, kd_walk, site_rel, source_ok, src_safe, resolve_variables, to_color_map, replace_color,
    ReverseSettings, lemma_no_vars_safe, VarSite, names_apart, src_name, from_src_of,
};
use crate::toml_out::{
    TomlLine, lines_view, toml_plan, toml_ready, into_toml, color_is_table, deletion_order,
    paths_view, generate_toml_string, OverrideV,
};
use crate::parsing::lists_safe;
use crate::parsing::var_lists;

verus! {

fn op_is(t: &Vec<char>, c: char) -> (r: bool)
    ensures
        r == is_op(t@, c),
{
    let r = t.len() == 1 && t[0] == c;
    proof {
        if t.len() == 1 {
            if t[0] == c {
                assert(t@ =~= seq![c]);
            } else {
                assert(t@[0] != seq![c][0]);
            }
        }
    }
    r
}

fn apply_panics_exec(o: &Operation) -> (r: bool)
    ensures
        r == apply_panics(*o),
{
    let t = chars_of(o.1.as_str());
    let is_hex = match &o.0 {
        Component::Hex(_) => true,
        _ => false,
    };
    let arith = op_is(&t, '+') || op_is(&t, '-') || op_is(&t, '*') || op_is(&t, '/');
    (is_hex && arith) || (!is_hex && op_is(&t, '.')) || (op_is(&t, '/') && o.0.value() == 0)
}

fn no_panics_exec(ops: &Vec<Operation>) -> (r: bool)
    ensures
        r == no_panics(ops@),
{
    for i in 0..ops.len()
        invariant
            forall|k: int| 0 <= k < i ==> !apply_panics(#[trigger] ops@[k]),
    {
        if apply_panics_exec(&ops[i]) {
            return false;
        }
    }
    true
}

fn src_safe_exec(sv: &SourcedVariable) -> (r: bool)
    ensures
        r == src_safe(*sv),
{
    let ghost vs = sv.variables@;
    let ghost mut acc: Seq<crate::parsing::ParsedVariable> = Seq::empty();
    assert(vs.take(0) =~= Seq::<VarRef>::empty());
    for i in 0..sv.variables.len()
        invariant
            vs == sv.variables@,
            acc == parsed_refs(vs.take(i as int)),
            forall|j: int| 0 <= j < acc.len() ==> no_panics((#[trigger] acc[j]).operations@),
    {
        assert(vs.take(i + 1).drop_last() =~= vs.take(i as int));
        assert(vs.take(i + 1).last() == vs[i as int]);
        match &sv.variables[i] {
            VarRef::Parsed(p) => {
                let ok = no_panics_exec(&p.operations);
                if !ok {
                    proof {
                        lemma_parsed_refs_prefix(vs, i + 1);
                        assert(parsed_refs(vs.take(i + 1)) == acc.push(*p));
                        assert(parsed_refs(vs.take(i + 1))[acc.len() as int] == *p);
                        assert(parsed_refs(vs)[acc.len() as int] == *p);
                        assert(vs == sv.variables@);
                    }
                    return false;
                }
                proof {
                    acc = acc.push(*p);
                }
            },
            VarRef::Name(_) => {},
        }
    }
    assert(vs.take(sv.variables.len() as int) =~= vs);
    true
}

proof fn lemma_parsed_refs_prefix(vs: Seq<VarRef>, n: int)
    requires
        0 <= n <= vs.len(),
    ensures
        parsed_refs(vs.take(n)).len() <= parsed_refs(vs).len(),
        forall|j: int| 0 <= j < parsed_refs(vs.take(n)).len() ==> #[trigger] parsed_refs(vs.take(n))[j] == parsed_refs(vs)[j],
    decreases vs.len(),
{
    if n == vs.len() {
        assert(vs.take(n) =~= vs);
    } else {
        let d = vs.drop_last();
        lemma_parsed_refs_prefix(d, n);
        assert(d.take(n) =~= vs.take(n));
        assert forall|j: int| 0 <= j < parsed_refs(vs.take(n)).len() implies #[trigger] parsed_refs(vs.take(n))[j] == parsed_refs(vs)[j] by {
            assert(parsed_refs(d.take(n))[j] == parsed_refs(d)[j]);
        }
    }
}

/// Whatever a path leads to inside a value whose texts all pass `p` has
/// texts that all pass `p` too.
pub proof fn lemma_follow_strings(j: JsonV, toks: Seq<Seq<char>>, p: spec_fn(Seq<char>) -> bool)
    requires
        all_strings(j, p),
    ensures
        follow(j, toks) matches Some(x) ==> all_strings(x, p),
    decreases toks.len(),
{
    if toks.len() > 0 {
        match token_child(j, toks[0]) {
            Some(c) => {
                match j {
                    JsonV::Object(es) => {
                        lemma_key_pos_bounds(es, unescape(toks[0]));
                        lemma_all_strings_entries(es, p);
                        assert(all_strings(es[key_pos(es, unescape(toks[0]))].1, p));
                    },
                    JsonV::Array(a) => {
                        lemma_all_strings_seq(a, p);
                        crate::text::lemma_int_text_unsigned(unescape(toks[0]), 0, usize::MAX as int);
                        let i = crate::json::parse_index(unescape(toks[0]))->0;
                        assert(all_strings(a[i], p));
                    },
                    _ => {},
                }
                lemma_follow_strings(c, toks.drop_first(), p);
            },
            None => {},
        }
    }
}

/// The index of the last `c` in `s`, or -1.
pub open spec fn last_index_of(s: Seq<char>, c: char) -> int
    decreases s.len(),
{
    if s.len() == 0 {
        -1
    } else if s.last() == c {
        s.len() - 1
    } else {
        last_index_of(s.drop_last(), c)
    }
}

proof fn lemma_last_index_bounds(s: Seq<char>, c: char)
    ensures
        -1 <= last_index_of(s, c) < s.len(),
        last_index_of(s, c) >= 0 ==> s[last_index_of(s, c)] == c,
    decreases s.len(),
{
    if s.len() > 0 && s.last() != c {
        lemma_last_index_bounds(s.drop_last(), c);
    }
}

/// Where a variable goes in the grouped values: `a.b.c` is the key `c` of
/// the table `a.b`, a name without a dot is a top-level key.
pub open spec fn group_path(n: Seq<char>) -> Seq<KeyView> {
    let i = last_index_of(n, '.');
    if i < 0 {
        parse_path(n)
    } else {
        parse_path(n.take(i) + seq!['/'] + n.skip(i + 1))
    }
}

fn group_path_exec(n: &Vec<char>) -> (r: JSPath)
    ensures
        r@ == group_path(n@),
{
    proof {
        lemma_last_index_bounds(n@, '.');
    }
    let mut i: usize = n.len();
    assert(n@.take(n.len() as int) =~= n@);
    while i > 0 && n[i - 1] != '.'
        invariant
            i <= n@.len(),
            last_index_of(n@, '.') == last_index_of(n@.take(i as int), '.'),
        decreases i,
    {
        assert(n@.take(i as int).drop_last() =~= n@.take(i - 1));
        i -= 1;
    }
    let text = if i == 0 {
        assert(n@.take(0) =~= Seq::<char>::empty());
        n.clone()
    } else {
        assert(n@.take(i as int).last() == '.');
        let mut t = crate::text::sub_chars(n, 0, i - 1);
        t.push('/');
        append_chars(&mut t, &skip_chars(n, i));
        assert(t@ =~= n@.take(i - 1) + seq!['/'] + n@.skip(i as int));
        t
    };
    match JSPath::from_str(string_of(&text).as_str()) {
        Ok(p) => p,
        Err(_) => JSPath::new(),
    }
}

/// The `$::` entries of a template object: their keys without the mark,
/// with their values.
pub open spec fn manual_entries(o: Seq<(Seq<char>, JsonV)>) -> Seq<(Seq<char>, JsonV)>
    decreases o.len(),
{
    if o.len() == 0 {
        Seq::empty()
    } else if starts_with(o.last().0, "$::"@) {
        manual_entries(o.drop_last()).push((o.last().0.skip(3), o.last().1))
    } else {
        manual_entries(o.drop_last())
    }
}

/// The paths of the `$::` entries, which the comparison leaves alone.
pub open spec fn manual_keys(o: Seq<(Seq<char>, JsonV)>) -> Seq<Seq<char>>
    decreases o.len(),
{
    if o.len() == 0 {
        Seq::empty()
    } else if starts_with(o.last().0, "$::"@) {
        manual_keys(o.drop_last()).push(seq!['/'] + o.last().0)
    } else {
        manual_keys(o.drop_last())
    }
}

pub open spec fn template_entries(t: JsonV) -> Seq<(Seq<char>, JsonV)> {
    match t {
        JsonV::Object(o) => o,
        _ => Seq::empty(),
    }
}

fn manual_split(template: &Json) -> (r: (Vec<String>, Vec<(String, Json)>))
    ensures
        strings_view(r.0@) == manual_keys(template_entries(jview(*template))),
        jentries(r.1@) == manual_entries(template_entries(jview(*template))),
{
    let mut keys: Vec<String> = Vec::new();
    let mut entries: Vec<(String, Json)> = Vec::new();
    match template {
        Json::Object(o) => {
            let ghost ov = jentries(o@);
            for i in 0..o.len()
                invariant
                    ov == jentries(o@),
                    strings_view(keys@) == manual_keys(ov.take(i as int)),
                    jentries(entries@) == manual_entries(ov.take(i as int)),
            {
                assert(ov.take(i + 1).drop_last() =~= ov.take(i as int));
                assert(ov.take(i + 1).last() == ov[i as int]);
                let k = chars_of(o[i].0.as_str());
                if has_prefix(&k, "$::") {
                    proof {
                        reveal_strlit("$::");
                    }
                    let mut path: Vec<char> = Vec::new();
                    path.push('/');
                    append_chars(&mut path, &k);
                    let ghost k0 = keys@;
                    keys.push(string_of(&path));
                    assert(strings_view(keys@) =~= strings_view(k0).push(path@));
                    let ghost e0 = entries@;
                    entries.push((string_of(&skip_chars(&k, 3)), o[i].1.clone()));
                    assert(jentries(entries@) =~= jentries(e0).push((ov[i as int].0.skip(3), ov[i as int].1)));
                }
            }
            assert(ov.take(o.len() as int) =~= ov);
        },
        _ => {
            assert(strings_view(keys@) =~= Seq::<Seq<char>>::empty());
            assert(jentries(entries@) =~= Seq::<(Seq<char>, JsonV)>::empty());
        },
    }
    (keys, entries)
}

/// The texts of `ks` that are not in `ign`, in order.
pub open spec fn kept(ks: Seq<Seq<char>>, ign: Seq<Seq<char>>) -> Seq<Seq<char>>
    decreases ks.len(),
{
    if ks.len() == 0 {
        Seq::empty()
    } else if ign.contains(ks.last()) {
        kept(ks.drop_last(), ign)
    } else {
        kept(ks.drop_last(), ign).push(ks.last())
    }
}

fn contains_text(v: &Vec<String>, t: &Vec<char>) -> (r: bool)
    ensures
        r == strings_view(v@).contains(t@),
{
    for i in 0..v.len()
        invariant
            forall|k: int| 0 <= k < i ==> strings_view(v@)[k] != t@,
    {
        if chars_eq(&chars_of(v[i].as_str()), t) {
            assert(strings_view(v@)[i as int] == t@);
            return true;
        }
    }
    false
}

fn kept_exec(ks: &Vec<String>, ign: &Vec<String>) -> (r: Vec<String>)
    ensures
        strings_view(r@) == kept(strings_view(ks@), strings_view(ign@)),
{
    let ghost kv = strings_view(ks@);
    let mut r: Vec<String> = Vec::new();
    for i in 0..ks.len()
        invariant
            kv == strings_view(ks@),
            strings_view(r@) == kept(kv.take(i as int), strings_view(ign@)),
    {
        assert(kv.take(i + 1).drop_last() =~= kv.take(i as int));
        assert(kv.take(i + 1).last() == kv[i as int]);
        if !contains_text(ign, &chars_of(ks[i].as_str())) {
            let ghost r0 = r@;
            r.push(ks[i].clone());
            assert(strings_view(r@) =~= strings_view(r0).push(kv[i as int]));
        }
    }
    assert(kv.take(ks.len() as int) =~= kv);
    r
}

fn parse_paths(ks: &Vec<String>) -> (r: Vec<JSPath>)
    ensures
        crate::toml_out::paths_view(r@) == strings_view(ks@).map_values(|k: Seq<char>| parse_path(k)),
{
    let mut r: Vec<JSPath> = Vec::new();
    for i in 0..ks.len()
        invariant
            crate::toml_out::paths_view(r@) == strings_view(ks@).take(i as int).map_values(
                |k: Seq<char>| parse_path(k),
            ),
    {
        let p = match JSPath::from_str(ks[i].as_str()) {
            Ok(p) => p,
            Err(_) => JSPath::new(),
        };
        let ghost r0 = r@;
        assert(p@ == parse_path(ks@[i as int]@));
        r.push(p);
        assert(crate::toml_out::paths_view(r@) =~= crate::toml_out::paths_view(r0).push(
            parse_path(ks@[i as int]@),
        ));
        assert(strings_view(ks@).take(i + 1) =~= strings_view(ks@).take(i as int).push(ks@[i as int]@));
        assert(strings_view(ks@).take(i + 1).map_values(|k: Seq<char>| parse_path(k)) =~= strings_view(
            ks@,
        ).take(i as int).map_values(|k: Seq<char>| parse_path(k)).push(parse_path(ks@[i as int]@)));
    }
    assert(strings_view(ks@).take(ks.len() as int) =~= strings_view(ks@));
    r
}


/// The deletions the comparison finds: the template's keys that the theme
/// lacks, but for the `$::` entries.
pub open spec fn found_deletions(template: JsonV, theme: JsonV) -> Seq<Seq<KeyView>> {
    kept(kd_walk(template, theme, Seq::empty(), true).0, manual_keys(template_entries(template))).map_values(
        |k: Seq<char>| parse_path(k),
    )
}

/// The paths a list of texts names.
pub open spec fn listed_paths(a: Seq<JsonV>) -> Seq<Seq<KeyView>> {
    a.map_values(|v: JsonV| parse_path(v->Str_0))
}

/// The deletions a `$::deletions` entry lists: an array of paths, or an
/// object whose `keys` entry is one.
pub open spec fn manual_deletions(m: Seq<(Seq<char>, JsonV)>) -> Seq<Seq<KeyView>>
    decreases m.len(),
{
    if m.len() == 0 {
        Seq::empty()
    } else {
        let p = manual_deletions(m.drop_last());
        let e = m.last();
        if e.0 == "deletions"@ {
            match e.1 {
                JsonV::Array(a) => p + listed_paths(a),
                JsonV::Object(o) => match get_key(o, "keys"@) {
                    Some(JsonV::Array(a)) => p + listed_paths(a),
                    _ => p,
                },
                _ => p,
            }
        } else {
            p
        }
    }
}

fn processing(m: &str) -> (r: ProgramError)
    ensures
        r matches ProgramError::Processing(x) && x@ == m@,
{
    ProgramError::Processing(String::from_str(m))
}

/// Adds the paths a list of texts names; an item that is no text is an
/// error.
fn add_listed(dels: &mut Vec<JSPath>, keys: &Vec<Json>) -> (r: Result<(), ProgramError>)
    ensures
        r is Ok <==> forall|i: int| 0 <= i < keys@.len() ==> #[trigger] keys@[i] is String,
        r is Ok ==> paths_view(final(dels)@) == paths_view(old(dels)@) + listed_paths(jviews(keys@)),
        r matches Err(e) ==> e matches ProgramError::Processing(m)
            && m@ == "Invalid $::deletions value: every key must be a string"@,
{
    let ghost d0 = paths_view(dels@);
    let ghost kv = jviews(keys@);
    for i in 0..keys.len()
        invariant
            kv == jviews(keys@),
            paths_view(dels@) == d0 + listed_paths(kv.take(i as int)),
            forall|k: int| 0 <= k < i ==> #[trigger] keys@[k] is String,
    {
        match &keys[i] {
            Json::String(t) => {
                let p = match JSPath::from_str(t.as_str()) {
                    Ok(p) => p,
                    Err(_) => JSPath::new(),
                };
                let ghost pre = dels@;
                dels.push(p);
                assert(paths_view(dels@) =~= paths_view(pre).push(p@));
                assert(listed_paths(kv.take(i + 1)) =~= listed_paths(kv.take(i as int)).push(parse_path(kv[i as int]->Str_0)));
            },
            _ => {
                return Err(processing("Invalid $::deletions value: every key must be a string"));
            },
        }
    }
    assert(kv.take(keys.len() as int) =~= kv);
    Ok(())
}

fn color_tables_ok(d: &Vec<(String, Json)>) -> (r: bool)
    ensures
        r == color_is_table(jentries(d@)),
{
    let color = chars_of("color");
    for i in 0..d.len()
        invariant
            color@ == "color"@,
            forall|k: int| 0 <= k < i && (#[trigger] jentries(d@)[k]).0 == "color"@ ==> jentries(d@)[k].1 is Object,
    {
        if chars_eq(&chars_of(d[i].0.as_str()), &color) {
            match &d[i].1 {
                Json::Object(_) => {},
                _ => {
                    assert(jentries(d@)[i as int].0 == "color"@);
                    return false;
                },
            }
        }
    }
    true
}

fn pave_at(path: &JSPath, grouped: &mut Json, val: Json) -> (r: Result<(), ProgramError>)
    ensures
        !indices_bounded(path@) ==> *final(grouped) == *old(grouped) && (r matches Err(
            ProgramError::Processing(m),
        ) && m@ == "Invalid path: index out of range"@),
        indices_bounded(path@) ==> (r is Ok <==> pave_spec(jview(*old(grouped)), path@, jview(val)) is Some),
        r is Ok ==> Some(jview(*final(grouped))) == pave_spec(jview(*old(grouped)), path@, jview(val)),
        indices_bounded(path@) ==> (r matches Err(e) ==> (e matches ProgramError::Processing(m) && m@
            == "Invalid path: "@ + path_text(path@))),
        r matches Err(e) ==> e matches ProgramError::Processing(m) && starts_with(m@, "Invalid path: "@),
        r matches Err(e) ==> e matches ProgramError::Processing(m) && path_failure(m@),
{
    proof {
        reveal_strlit("Invalid path: ");
        reveal_strlit("Invalid path: index out of range");
        assert(("Invalid path: "@ + path_text(path@)).take("Invalid path: "@.len() as int) =~= "Invalid path: "@);
        assert("Invalid path: index out of range"@.take("Invalid path: "@.len() as int) =~= "Invalid path: "@);
    }
    if !crate::generate::indices_ok(path) {
        return Err(processing("Invalid path: index out of range"));
    }
    let r = path.pave(grouped, val);
    proof {
        if r is Err && path@.len() == 0 {
            assert(pave_spec(jview(*old(grouped)), path@, jview(val)) is Some);
        }
    }
    r
}

/// The message of a path that cannot be paved: an index out of range, or
/// the text of the (non-empty) path.
pub open spec fn path_failure(m: Seq<char>) -> bool {
    m == "Invalid path: index out of range"@ || exists|q: Seq<KeyView>|
        q.len() > 0 && m == "Invalid path: "@ + #[trigger] path_text(q)
}

/// The grouped variables: each value paved, in order, at the path its name
/// gives (null values left out); `None` where a path cannot be paved.
pub open spec fn paved_vars(es: Seq<(Seq<char>, ParsedValue)>) -> Option<JsonV>
    decreases es.len(),
{
    if es.len() == 0 {
        Some(JsonV::Object(Seq::empty()))
    } else {
        match paved_vars(es.drop_last()) {
            None => None,
            Some(g) => {
                let n = es.last().0;
                let v = es.last().1;
                if v is Null {
                    Some(g)
                } else if !indices_bounded(group_path(n)) {
                    None
                } else {
                    pave_spec(g, group_path(n), crate::parsing::pv_json(v))
                }
            },
        }
    }
}

/// The name and value of each template string.
pub open spec fn src_entries(svs: Seq<SourcedVariable>) -> Seq<(Seq<char>, ParsedValue)> {
    svs.map_values(|sv: SourcedVariable| (src_name(sv), sv.value))
}

/// `svs` are the template strings read at the sites.
pub open spec fn sites_read(sites: Seq<VarSite>, svs: Seq<SourcedVariable>) -> bool {
    svs.len() == sites.len() && forall|i: int| 0 <= i < sites.len() ==> site_rel(sites[i], #[trigger] svs[i])
}

/// Every site names a variable of its own.
pub open spec fn sites_apart(sites: Seq<VarSite>) -> bool {
    forall|svs: Seq<SourcedVariable>| #[trigger] sites_read(sites, svs) ==> names_apart(svs)
}

/// Reversing with neither colors nor hand-written entries, where each
/// template string names a variable of its own.
pub open spec fn plain_reverse(theme: JsonV, template: JsonV, flags: ReverseSettings) -> bool {
    !flags.generate_colors && !flags.generate_manual && sites_apart(kd_walk(template, theme, Seq::empty(), true).2)
}

/// The keys the theme has that the template lacks or holds otherwise (but
/// for the template's `$::` entries): each is written as an override.
pub open spec fn found_overrides(template: JsonV, theme: JsonV) -> Seq<Seq<char>> {
    let kd = kd_walk(theme, template, Seq::empty(), false);
    kept(kd.0 + kd.1, manual_keys(template_entries(template)))
}

/// Some override of `t` goes by the name `n`.
pub open spec fn has_override(t: Seq<OverrideV>, n: Seq<char>) -> bool {
    exists|j: int| 0 <= j < t.len() && (#[trigger] t[j]).0 == n
}

/// Every key of `ks` has an override, under the text of its path.
pub open spec fn overrides_named(t: Seq<OverrideV>, ks: Seq<Seq<char>>) -> bool {
    forall|i: int| 0 <= i < ks.len() ==> #[trigger] has_override(t, path_text(parse_path(ks[i])))
}

proof fn lemma_named_in_plan(t: Seq<OverrideV>, es: crate::parsing::Entries, ks: Seq<Seq<char>>)
    requires
        crate::toml_out::by_name(t, crate::toml_out::overrides_view(es)),
        forall|i: int| 0 <= i < ks.len() ==> crate::parsing::key_index(es, path_text(parse_path(#[trigger] ks[i]))) >= 0,
    ensures
        overrides_named(t, ks),
{
    assert forall|i: int| 0 <= i < ks.len() implies #[trigger] has_override(t, path_text(parse_path(ks[i]))) by {
        let n = path_text(parse_path(ks[i]));
        crate::parsing::lemma_key_index_pub(es, n);
        let q = crate::parsing::key_index(es, n);
        let ov = crate::toml_out::overrides_view(es);
        let o = ov[q];
        assert(ov.contains(o));
        assert(ov.to_set().contains(o));
        assert(t.to_set().contains(o));
        assert(t.contains(o));
        let j = choose|j: int| 0 <= j < t.len() && t[j] == o;
        assert(t[j].0 == n);
    }
}

/// `lines` is a variable file for the theme and its template: its
/// deletions are the template's keys that the theme lacks (but for `$::`
/// entries), with those a `$::deletions` entry lists; where the reverse is
/// plain, its variables are the grouped values of the template strings;
/// every key the theme adds to the template, or holds otherwise, has an
/// override.
pub open spec fn reversed(theme: JsonV, template: JsonV, flags: ReverseSettings, lines: Seq<TomlLine>) -> bool {
    exists|g: JsonV, t: Seq<OverrideV>, dl: Seq<Seq<KeyView>>|
        #![trigger toml_plan(toml_ready(g)->Object_0, t, dl, flags.generate_colors, flags.generate_additions, flags.generate_deletions)]
        g is Object && overrides_named(t, found_overrides(template, theme)) && (plain_reverse(theme, template, flags) ==> exists|svs: Seq<SourcedVariable>|
            #[trigger] sites_read(kd_walk(template, theme, Seq::empty(), true).2, svs) && paved_vars(src_entries(svs))
                == Some(g)) && deletion_order(
            dl,
            found_deletions(template, theme) + if flags.generate_manual && flags.generate_deletions {
                manual_deletions(manual_entries(template_entries(template)))
            } else {
                Seq::empty()
            },
        ) && lines_view(lines) == toml_plan(
            toml_ready(g)->Object_0,
            t,
            dl,
            flags.generate_colors,
            flags.generate_additions,
            flags.generate_deletions,
        )
}

/// A `$::deletions` value that lists deletions: an array of texts, or an
/// object whose `keys` is one.
pub open spec fn deletions_ok(v: JsonV) -> bool {
    match v {
        JsonV::Array(a) => forall|i: int| 0 <= i < a.len() ==> #[trigger] a[i] is Str,
        JsonV::Object(o) => (get_key(o, "keys"@) matches Some(JsonV::Array(a)) && forall|i: int|
            0 <= i < a.len() ==> #[trigger] a[i] is Str),
        _ => false,
    }
}

/// The reasons reversing fails, each with its message: a template change
/// that cannot be applied; a path that cannot be paved; a hand-written
/// `$::color`, `$::deletions` or `$::overrides` entry of the wrong shape
/// (when that entry is generated); a `color` entry or a whole set of
/// variables that is no table.
pub open spec fn reverse_failure(tv: JsonV, hv: JsonV, flags: ReverseSettings, m: Seq<char>) -> bool {
    let mv = manual_entries(template_entries(tv));
    let kd = kd_walk(tv, hv, Seq::empty(), true);
    ||| m == "Invalid template: a color change that cannot be applied"@ && exists|i: int, sv: SourcedVariable|
        0 <= i < kd.2.len() && #[trigger] site_rel(kd.2[i], sv) && !src_safe(sv)
    ||| path_failure(m)
    ||| m == "Could not generate toml output: the color entry is not a table\nThis is probably indicative of needing to use the -p inner path"@ && flags.generate_colors
    ||| m == "Could not generate toml output: the variables are not a table\nThis is probably indicative of needing to use the -p inner path"@
    ||| m == "Invalid $::color value\nExpected an object with colors: {color: Value}\nAlternative run with flag -gc to ignore colors"@ && flags.generate_manual && flags.generate_colors && exists|i: int|
        0 <= i < mv.len() && (#[trigger] mv[i]).0 == "color"@ && !(mv[i].1 is Object)
    ||| (m == "Invalid $::deletions value\nExpected an array of strings or an object with keys: []\nAlternative run with flag -gd to ignore deletions"@ || m == "Invalid $::deletions value: every key must be a string"@) && flags.generate_manual && flags.generate_deletions && exists|i: int|
        0 <= i < mv.len() && (#[trigger] mv[i]).0 == "deletions"@ && !deletions_ok(mv[i].1)
    ||| m == "Invalid $::overrides value\nExpected an object\nAlternative run with flag -ga to ignore overrides"@ && flags.generate_manual && flags.generate_additions && exists|i: int|
        0 <= i < mv.len() && (#[trigger] mv[i]).0 == "overrides"@ && !(mv[i].1 is Object)
    ||| m == "Invalid $::overrides value: a text that cannot be read"@ && flags.generate_manual && flags.generate_additions && exists|i: int|
        0 <= i < mv.len() && (#[trigger] mv[i]).0 == "overrides"@ && (mv[i].1 matches JsonV::Object(o) && exists|k: int|
            0 <= k < o.len() && ((#[trigger] o[k]).1 matches JsonV::Str(t) && !crate::parsing::value_text_ok(t)))
}

/// The name and value of each variable.
pub open spec fn vm_entries(vm: Seq<(String, ResolvedVariable)>) -> Seq<(Seq<char>, ParsedValue)> {
    vm.map_values(|e: (String, ResolvedVariable)| (e.0@, e.1.value))
}

proof fn lemma_paved_same(
    a: Seq<(Seq<char>, ParsedValue)>,
    b: Seq<(Seq<char>, ParsedValue)>,
    vm: Seq<(String, ResolvedVariable)>,
    vars: crate::parsing::Entries,
    pv: Seq<SourcedVariable>,
)
    requires
        a == vm_entries(vm),
        b == src_entries(pv),
        crate::parsing::entries_same(vm.map_values(|e: (String, ResolvedVariable)| (e.0@, e.1)), vars),
        vars.len() == pv.len(),
        forall|i: int| 0 <= i < vars.len() ==> (#[trigger] vars[i]).0 == src_name(pv[i]) && from_src_of(vars[i].1, pv[i]),
    ensures
        paved_vars(a) == paved_vars(b),
    decreases a.len(),
{
    let mv = vm.map_values(|e: (String, ResolvedVariable)| (e.0@, e.1));
    if a.len() > 0 {
        let n = (a.len() - 1) as int;
        assert(mv[n] == (vm[n].0@, vm[n].1));
        assert(from_src_of(vars[n].1, pv[n]));
        let vm2 = vm.drop_last();
        let pv2 = pv.drop_last();
        let vars2 = vars.drop_last();
        assert(vm_entries(vm2) =~= a.drop_last());
        assert(src_entries(pv2) =~= b.drop_last());
        assert(vm2.map_values(|e: (String, ResolvedVariable)| (e.0@, e.1)) =~= mv.drop_last());
        assert forall|i: int| 0 <= i < vars2.len() implies (#[trigger] vars2[i]).0 == src_name(pv2[i]) && from_src_of(vars2[i].1, pv2[i]) by {
            assert(vars2[i] == vars[i]);
        }
        lemma_paved_same(a.drop_last(), b.drop_last(), vm2, vars2, pv2);
        assert(a.last().0 == b.last().0);
        assert(crate::parsing::pv_same(a.last().1, b.last().1));
    } else {
        assert(b.len() == 0);
    }
}

/// Paves each variable's value at the path its name gives (see
/// `paved_vars`).
fn group_vars(vm: &Vec<(String, ResolvedVariable)>) -> (r: Result<Json, ProgramError>)
    ensures
        r is Ok <==> paved_vars(vm_entries(vm@)) is Some,
        r matches Ok(g) ==> Some(jview(g)) == paved_vars(vm_entries(vm@)),
        r matches Err(e) ==> e matches ProgramError::Processing(m) && starts_with(m@, "Invalid path: "@) && path_failure(m@),
{
    let mut grouped = Json::Object(Vec::new());
    proof {
        if let Json::Object(o) = &grouped {
            assert(jentries(o@) =~= Seq::<(Seq<char>, JsonV)>::empty());
        }
        assert(vm_entries(vm@).take(0) =~= Seq::<(Seq<char>, ParsedValue)>::empty());
    }
    for i in 0..vm.len()
        invariant
            Some(jview(grouped)) == paved_vars(vm_entries(vm@).take(i as int)),
    {
        let ghost es = vm_entries(vm@);
        proof {
            assert(es.take(i + 1).drop_last() =~= es.take(i as int));
            assert(es.take(i + 1).last() == (vm@[i as int].0@, vm@[i as int].1.value));
        }
        match &vm[i].1.value {
            ParsedValue::Null => {},
            _ => {
                let path = group_path_exec(&chars_of(vm[i].0.as_str()));
                let val = vm[i].1.value.clone().into_value();
                match pave_at(&path, &mut grouped, val) {
                    Ok(()) => {},
                    Err(e) => {
                        proof {
                            lemma_paved_none(es, (i + 1) as int);
                            assert(es.take(vm@.len() as int) =~= es);
                        }
                        return Err(e);
                    },
                }
            },
        }
    }
    proof {
        assert(vm_entries(vm@).take(vm@.len() as int) =~= vm_entries(vm@));
    }
    Ok(grouped)
}

/// Once paving fails it stays failed.
proof fn lemma_paved_none(es: Seq<(Seq<char>, ParsedValue)>, k: int)
    requires
        0 <= k <= es.len(),
        paved_vars(es.take(k)) is None,
    ensures
        paved_vars(es) is None,
    decreases es.len() - k,
{
    if k < es.len() {
        assert(es.take(k + 1).drop_last() =~= es.take(k));
        lemma_paved_none(es, k + 1);
    } else {
        assert(es.take(k) =~= es);
    }
}

/// Some template string names a change that cannot be applied.
pub open spec fn template_unsafe(tv: JsonV, hv: JsonV) -> bool {
    let kd = kd_walk(tv, hv, Seq::empty(), true);
    exists|i: int, sv: SourcedVariable| 0 <= i < kd.2.len() && #[trigger] site_rel(kd.2[i], sv) && !src_safe(sv)
}

/// A plain reverse that nothing makes fail: every template change can be
/// applied and the template strings' values pave into a table.
pub open spec fn reverse_settles(theme: JsonV, template: JsonV, flags: ReverseSettings) -> bool {
    &&& plain_reverse(theme, template, flags)
    &&& !template_unsafe(template, theme)
    &&& forall|svs: Seq<SourcedVariable>|
        #[trigger] sites_read(kd_walk(template, theme, Seq::empty(), true).2, svs) ==> paved_vars(src_entries(svs)) matches Some(
            JsonV::Object(_),
        )
}

/// Reverses one theme against its template into the lines of a variable
/// file: the deletions it lists are the template's keys that the theme
/// lacks (but for `$::` entries), with those a `$::deletions` entry lists.
#[verifier::loop_isolation(false)]
#[verifier::rlimit(60)]
#[verifier::spinoff_prover]
pub fn reverse_theme<S: ColorSpace>(
    theme: &Json,
    template: &Json,
    flags: &ReverseSettings,
    space: &S,
) -> (r: Result<Vec<TomlLine>, ProgramError>)
    requires
        source_ok(jview(*theme)),
        source_ok(jview(*template)),
    ensures
        r matches Ok(lines) ==> reversed(jview(*theme), jview(*template), *flags, lines@),
        r matches Err(e) ==> e matches ProgramError::Processing(m) && reverse_failure(
            jview(*template),
            jview(*theme),
            *flags,
            m@,
        ),
        template_unsafe(jview(*template), jview(*theme)) ==> (r matches Err(ProgramError::Processing(m)) && m@
            == "Invalid template: a color change that cannot be applied"@),
        !flags.generate_colors && !flags.generate_manual && kd_walk(jview(*template), jview(*theme), Seq::empty(), true).2.len()
            == 0 ==> r is Ok,
        reverse_settles(jview(*theme), jview(*template), *flags) ==> r is Ok,
{
    let ghost tv = jview(*template);
    let ghost hv = jview(*theme);
    let (ignore, manual) = manual_split(template);
    let var_diff = key_diff(template, theme, String::new(), true, space);
    assert(var_diff.parsed_vars@.len() == kd_walk(tv, hv, Seq::empty(), true).2.len());
    let override_diff = key_diff(theme, template, String::new(), false, space);

    // Overrides: what the theme has that the template lacks or holds otherwise.
    let mut candidates = override_diff.missing.clone();
    let mut more = override_diff.collisions.clone();
    candidates.append(&mut more);
    let keys = kept_exec(&candidates, &ignore);
    let ghost fo = strings_view(keys@);
    proof {
        assert(strings_view(candidates@) =~= kd_walk(hv, tv, Seq::empty(), false).0 + kd_walk(hv, tv, Seq::empty(), false).1);
        assert(fo == found_overrides(tv, hv));
    }
    let mut ov_list: Vec<ResolvedVariable> = Vec::new();
    for i in 0..keys.len()
        invariant
            hv == jview(*theme),
            source_ok(hv),
            crate::reverse::list_safe(ov_list@),
            fo == strings_view(keys@),
            ov_list@.len() == i,
            forall|j: int| 0 <= j < i ==> crate::parsing::rv_name(#[trigger] ov_list@[j]) == path_text(parse_path(fo[j])),
    {
        proof {
            let p = parse_path(keys@[i as int]@);
            lemma_follow_strings(hv, crate::json::pointer_tokens(p), |s: Seq<char>| source_text_ok(s));
        }
        let rv = ResolvedVariable::from_path(keys[i].as_str(), theme, space);
        proof {
            lemma_no_vars_safe(rv);
        }
        proof {
            assert(fo[i as int] == keys@[i as int]@);
        }
        ov_list.push(rv);
    }
    let ghost ovs = ov_list@;

    // Deletions: what the template has that the theme lacks.
    let del_keys = kept_exec(&var_diff.missing, &ignore);
    let mut deletions = parse_paths(&del_keys);
    let ghost found = paths_view(deletions@);
    assert(found == found_deletions(tv, hv));

    for i in 0..var_diff.parsed_vars.len()
        invariant
            forall|k: int| 0 <= k < i ==> src_safe(#[trigger] var_diff.parsed_vars@[k]),
    {
        if !src_safe_exec(&var_diff.parsed_vars[i]) {
            proof {
                let kd = kd_walk(tv, hv, Seq::empty(), true);
                assert(site_rel(kd.2[i as int], var_diff.parsed_vars@[i as int]));
                assert(template_unsafe(tv, hv));
            }
            return Err(processing("Invalid template: a color change that cannot be applied"));
        }
    }
    proof {
        if template_unsafe(tv, hv) {
            let kd = kd_walk(tv, hv, Seq::empty(), true);
            let (i, sv) = choose|i: int, sv: SourcedVariable|
                0 <= i < kd.2.len() && #[trigger] site_rel(kd.2[i], sv) && !src_safe(sv);
            crate::reverse::lemma_site_safe(kd.2[i], sv, var_diff.parsed_vars@[i]);
            assert(src_safe(var_diff.parsed_vars@[i]));
        }
    }
    let (mut variables, mut overrides) = resolve_variables(&var_diff, ov_list, space);
    let ghost ur = overrides@;
    proof {
        assert forall|j: int| 0 <= j < fo.len() implies crate::parsing::key_index(ur, path_text(parse_path(#[trigger] fo[j]))) >= 0 by {
            assert(crate::parsing::key_index(ur, crate::parsing::rv_name(ovs[j])) >= 0);
        }
        assert(crate::reverse::keys_grow(ur, ur));
    }
    let ghost pv = var_diff.parsed_vars@;
    let ghost plain = plain_reverse(hv, tv, *flags);
    let ghost vars0 = variables@;
    proof {
        if plain {
            assert(sites_read(kd_walk(tv, hv, Seq::empty(), true).2, pv));
            assert(names_apart(pv));
        }
    }

    // Colors found in more values than the threshold become variables.
    let color_map = to_color_map(&variables, &overrides, space);
    if flags.generate_colors {
        let vm = variables.to_map();
        for i in 0..vm.len()
            invariant
                variables.wf(),
        {
            let mut v = vm[i].1.clone();
            v.value = replace_color(&vm[i].1.value, &color_map, flags.threshold, space);
            variables.insert(vm[i].0.as_str(), v);
        }
        let om = overrides.to_map();
        for i in 0..om.len()
            invariant
                overrides.wf(),
                crate::reverse::keys_grow(ur, overrides@),
        {
            let mut v = om[i].1.clone();
            v.value = replace_color(&om[i].1.value, &color_map, flags.threshold, space);
            let ghost pre = overrides@;
            proof {
                crate::reverse::lemma_grow_set_entry(pre, om[i as int].0@, v);
            }
            overrides.insert(om[i].0.as_str(), v);
            proof {
                crate::reverse::lemma_grow_trans(ur, pre, overrides@);
            }
        }
        for i in 0..color_map.len()
            invariant
                variables.wf(),
        {
            if color_map[i].2.len() >= flags.threshold {
                let var = ResolvedVariable::init(color_map[i].1.as_str(), ParsedValue::String(color_map[i].0.clone()));
                variables.inc_insert(color_map[i].1.as_str(), var);
            }
        }
    }

    // Group the variables by the tables their names give.
    let vm = variables.to_map();
    let ghost no_vars = var_diff.parsed_vars@.len() == 0 && !flags.generate_colors;
    assert(no_vars ==> vm@.len() == 0);
    proof {
        if plain {
            assert(variables@ == vars0);
            lemma_paved_same(vm_entries(vm@), src_entries(pv), vm@, vars0, pv);
        }
    }
    let mut grouped = match group_vars(&vm) {
        Ok(g) => g,
        Err(e) => {
            return Err(e);
        },
    };

    // The entries written by hand in the template.
    let ghost mv = jentries(manual@);
    let ghost base = paths_view(deletions@);
    if flags.generate_manual {
        for i in 0..manual.len()
            invariant
                mv == jentries(manual@),
                base == found,
                overrides.wf(),
                crate::reverse::keys_grow(ur, overrides@),
                paths_view(deletions@) == base + if flags.generate_deletions {
                    manual_deletions(mv.take(i as int))
                } else {
                    Seq::empty()
                },
                mv == manual_entries(template_entries(tv)),
                source_ok(tv),
        {
            assert(mv.take(i + 1).drop_last() =~= mv.take(i as int));
            assert(mv.take(i + 1).last() == mv[i as int]);
            let name = chars_of(manual[i].0.as_str());
            let val = &manual[i].1;
            let is_color = crate::text::eq_str(&name, "color");
            let is_deletions = crate::text::eq_str(&name, "deletions");
            let is_overrides = crate::text::eq_str(&name, "overrides");
            if is_color && flags.generate_colors {
                assert(!(mv[i as int].0 == "deletions"@)) by {
                    reveal_strlit("color");
                    reveal_strlit("deletions");
                    assert("color"@[0] != "deletions"@[0]);
                }
                match val {
                    Json::Object(obj) => {
                        for k in 0..obj.len() {
                            let mut pn = chars_of("color/");
                            append_chars(&mut pn, &chars_of(obj[k].0.as_str()));
                            let path = group_path_exec(&pn);
                            match pave_at(&path, &mut grouped, obj[k].1.clone()) {
                                Ok(()) => {},
                                Err(e) => {
                                    return Err(e);
                                },
                            }
                        }
                    },
                    _ => {
                        return Err(processing(
                            "Invalid $::color value\nExpected an object with colors: {color: Value}\nAlternative run with flag -gc to ignore colors",
                        ));
                    },
                }
            } else if is_deletions && flags.generate_deletions {
                let ghost d0 = paths_view(deletions@);
                match val {
                    Json::Array(keys) => {
                        match add_listed(&mut deletions, keys) {
                            Ok(()) => {},
                            Err(e) => {
                                proof {
                                    let q = choose|q: int| 0 <= q < keys@.len() && !(#[trigger] keys@[q] is String);
                                    assert(jviews(keys@)[q] == jview(keys@[q]));
                                    assert(mv[i as int].1 == JsonV::Array(jviews(keys@)));
                                    assert(!deletions_ok(mv[i as int].1));
                                }
                                return Err(e);
                            },
                        }
                    },
                    Json::Object(o) => {
                        let kc = chars_of("keys");
                        proof {
                            lemma_key_pos_bounds(jentries(o@), kc@);
                        }
                        match crate::json::obj_find(o, &kc) {
                            Some(j) => match &o[j].1 {
                                Json::Array(keys) => {
                                    proof {
                                        lemma_key_pos_bounds(jentries(o@), "keys"@);
                                    }
                                    match add_listed(&mut deletions, keys) {
                                        Ok(()) => {},
                                        Err(e) => {
                                            proof {
                                                let q = choose|q: int| 0 <= q < keys@.len() && !(#[trigger] keys@[q] is String);
                                                assert(jviews(keys@)[q] == jview(keys@[q]));
                                                assert(jentries(o@)[j as int].1 == jview(o@[j as int].1));
                                                assert(get_key(jentries(o@), "keys"@) == Some(JsonV::Array(jviews(keys@))));
                                                assert(mv[i as int].1 == JsonV::Object(jentries(o@)));
                                                assert(!deletions_ok(mv[i as int].1));
                                            }
                                            return Err(e);
                                        },
                                    }
                                },
                                _ => {
                                    return Err(processing(
                                        "Invalid $::deletions value\nExpected an array of strings or an object with keys: []\nAlternative run with flag -gd to ignore deletions",
                                    ));
                                },
                            },
                            None => {
                                return Err(processing(
                                    "Invalid $::deletions value\nExpected an array of strings or an object with keys: []\nAlternative run with flag -gd to ignore deletions",
                                ));
                            },
                        }
                    },
                    _ => {
                        return Err(processing(
                            "Invalid $::deletions value\nExpected an array of strings or an object with keys: []\nAlternative run with flag -gd to ignore deletions",
                        ));
                    },
                }
            } else if is_overrides && flags.generate_additions {
                assert(!(mv[i as int].0 == "deletions"@)) by {
                    reveal_strlit("overrides");
                    reveal_strlit("deletions");
                    assert("overrides"@[0] != "deletions"@[0]);
                }
                match val {
                    Json::Object(map) => {
                        for k in 0..map.len()
                            invariant
                                overrides.wf(),
                                crate::reverse::keys_grow(ur, overrides@),
                        {
                            let ok = match &map[k].1 {
                                Json::String(t) => ParsedValue::text_ok(t.as_str(), space),
                                _ => true,
                            };
                            if !ok {
                                proof {
                                    assert(jentries(map@)[k as int].1 == jview(map@[k as int].1));
                                    assert(mv[i as int].1 == JsonV::Object(jentries(map@)));
                                }
                                return Err(processing("Invalid $::overrides value: a text that cannot be read"));
                            }
                            let var = ResolvedVariable::init_override(map[k].0.as_str(), &map[k].1, space);
                            let ghost pre = overrides@;
                            proof {
                                crate::reverse::lemma_grow_set_entry(pre, map@[k as int].0@, var);
                            }
                            overrides.insert(map[k].0.as_str(), var);
                            proof {
                                crate::reverse::lemma_grow_trans(ur, pre, overrides@);
                            }
                        }
                    },
                    _ => {
                        return Err(processing(
                            "Invalid $::overrides value\nExpected an object\nAlternative run with flag -ga to ignore overrides",
                        ));
                    },
                }
            } else {
                let path = group_path_exec(&name);
                match pave_at(&path, &mut grouped, val.clone()) {
                    Ok(()) => {},
                    Err(e) => {
                        return Err(e);
                    },
                }
            }
        }
        assert(mv.take(manual.len() as int) =~= mv);
    }
    let ghost want = found + if flags.generate_manual && flags.generate_deletions {
        manual_deletions(manual_entries(template_entries(tv)))
    } else {
        Seq::empty()
    };
    assert(paths_view(deletions@) =~= want);
    let data = into_toml(&grouped);
    match &data {
        Json::Object(d) => {
            if flags.generate_colors && !color_tables_ok(d) {
                return Err(processing(
                    "Could not generate toml output: the color entry is not a table\nThis is probably indicative of needing to use the -p inner path",
                ));
            }
        },
        _ => {
            return Err(processing(
                "Could not generate toml output: the variables are not a table\nThis is probably indicative of needing to use the -p inner path",
            ));
        },
    }
    let lines = generate_toml_string(&grouped, &overrides, &deletions, flags);
    proof {
        let g = jview(grouped);
        assert(g is Object);
        let (t, dl) = choose|t: Seq<OverrideV>, dl: Seq<Seq<KeyView>>|
            crate::toml_out::by_name(t, crate::toml_out::overrides_view(overrides@)) && deletion_order(dl, paths_view(deletions@))
                && lines_view(lines@) == toml_plan(
                toml_ready(g)->Object_0,
                t,
                dl,
                flags.generate_colors,
                flags.generate_additions,
                flags.generate_deletions,
            );
        assert(deletion_order(dl, want));
        assert forall|j: int| 0 <= j < fo.len() implies crate::parsing::key_index(overrides@, path_text(parse_path(#[trigger] fo[j]))) >= 0 by {
            assert(crate::parsing::key_index(ur, path_text(parse_path(fo[j]))) >= 0);
        }
        lemma_named_in_plan(t, overrides@, fo);
        assert(lines_view(lines@) == toml_plan(
            toml_ready(g)->Object_0,
            t,
            dl,
            flags.generate_colors,
            flags.generate_additions,
            flags.generate_deletions,
        ));
    }
    Ok(lines)
}


/// Where reversing starts: the value at the inner path, when one is given.
pub open spec fn start_at(j: JsonV, p: Option<Seq<KeyView>>) -> Option<JsonV> {
    match p {
        Some(p) => traverse_spec(j, p),
        None => Some(j),
    }
}

pub open spec fn path_of(flags: ReverseSettings) -> Option<Seq<KeyView>> {
    match flags.path {
        Some(p) => Some(p@),
        None => None,
    }
}

/// The file name for the `i`th theme of an array: its `name` text, or the
/// base name followed by the index.
pub open spec fn theme_name(theme: JsonV, base: Seq<char>, i: int) -> Seq<char> {
    match traverse_spec(theme, parse_path("/name"@)) {
        Some(JsonV::Str(n)) => n,
        _ => base + crate::text::dec_digits(i as nat),
    }
}

pub open spec fn with_toml(n: Seq<char>) -> Seq<char> {
    n + ".toml"@
}

/// Both starting values are arrays and the template's is empty, which the
/// reversal cannot read a template from.
pub open spec fn empty_template_array(theme: JsonV, template: JsonV, p: Option<Seq<KeyView>>) -> bool {
    match (start_at(theme, p), start_at(template, p)) {
        (Some(JsonV::Array(_)), Some(JsonV::Array(a))) => a.len() == 0,
        _ => false,
    }
}

fn start_value<'a>(j: &'a Json, flags: &ReverseSettings) -> (r: Option<&'a Json>)
    ensures
        match r {
            Some(v) => start_at(jview(*j), path_of(*flags)) == Some(jview(*v)),
            None => start_at(jview(*j), path_of(*flags)) is None,
        },
{
    match &flags.path {
        Some(p) => match p.traverse(j) {
            Ok(v) => Some(v),
            Err(_) => None,
        },
        None => Some(j),
    }
}

/// Tells whether both starting values are arrays and the template's is
/// empty (see `empty_template_array`), which `reverse` does not take.
pub fn template_array_empty(theme: &Json, template: &Json, flags: &ReverseSettings) -> (r: bool)
    ensures
        r == empty_template_array(jview(*theme), jview(*template), path_of(*flags)),
{
    match (start_value(theme, flags), start_value(template, flags)) {
        (Some(Json::Array(_)), Some(Json::Array(a))) => a.len() == 0,
        _ => false,
    }
}

proof fn lemma_start_ok(j: JsonV, p: Option<Seq<KeyView>>)
    requires
        source_ok(j),
    ensures
        start_at(j, p) matches Some(x) ==> source_ok(x),
{
    match p {
        Some(q) => lemma_follow_strings(j, pointer_tokens(q), |s: Seq<char>| source_text_ok(s)),
        None => {},
    }
}

/// The `k`th file reversed from an array of themes.
pub open spec fn file_for(hv: Seq<JsonV>, tv: Seq<JsonV>, flags: ReverseSettings, k: int, f: (String, Vec<TomlLine>)) -> bool {
    &&& same_type_spec(hv[k], tv[0])
    &&& f.0@ == with_toml(theme_name(hv[k], flags.name@, k))
    &&& reversed(hv[k], tv[0], flags, f.1@)
}

/// Every theme of an array has the type of the template's first and
/// reverses against it without fail (see `reverse_settles`).
pub open spec fn array_settles(ths: Seq<JsonV>, tps: Seq<JsonV>, flags: ReverseSettings) -> bool {
    forall|i: int| 0 <= i < ths.len() ==> same_type_spec(ths[i], tps[0]) && #[trigger] reverse_settles(ths[i], tps[0], flags)
}

/// What reversing a theme against its template gives (see `reverse`).
pub open spec fn reverse_outcome(
    theme: JsonV,
    template: JsonV,
    flags: ReverseSettings,
    r: Result<Vec<(String, Vec<TomlLine>)>, ProgramError>,
) -> bool {
    let p = path_of(flags);
    let th = start_at(theme, p);
    let tp = start_at(template, p);
    if th is None || tp is None {
        r matches Err(ProgramError::Processing(m)) && m@ == "Invalid starting path."@
    } else if p is Some && !same_type_spec(th->0, tp->0) {
        r matches Err(ProgramError::Processing(m)) && m@ == "Starting path types do not match."@
    } else {
        match (th->0, tp->0) {
            (JsonV::Object(_), JsonV::Object(_)) => {
                &&& r matches Ok(files) ==> files@.len() == 1 && files@[0].0@ == with_toml(flags.name@) && reversed(
                    th->0,
                    tp->0,
                    flags,
                    files@[0].1@,
                )
                &&& r matches Err(e) ==> e matches ProgramError::Processing(m) && reverse_failure(tp->0, th->0, flags, m@)
                &&& reverse_settles(th->0, tp->0, flags) ==> r is Ok
            },
            (JsonV::Array(ths), JsonV::Array(tps)) => {
                &&& r matches Ok(files) ==> files@.len() == ths.len() && forall|i: int|
                    0 <= i < ths.len() ==> file_for(ths, tps, flags, i, #[trigger] files@[i])
                &&& array_settles(ths, tps, flags) ==> r is Ok
            },
            _ => r matches Err(ProgramError::Processing(m)) && m@ == "Invalid starting path."@,
        }
    }
}

/// Reverses a theme against its template, from the inner path when one is
/// given: one variable file for an object, one for each theme of an array
/// (named by its `name` text, or by the base name and its index). The
/// files are given by name, with their lines.
pub fn reverse<S: ColorSpace>(theme: &Json, template: &Json, flags: &ReverseSettings, space: &S) -> (r: Result<
    Vec<(String, Vec<TomlLine>)>,
    ProgramError,
>)
    requires
        source_ok(jview(*theme)),
        source_ok(jview(*template)),
        !empty_template_array(jview(*theme), jview(*template), path_of(*flags)),
    ensures
        reverse_outcome(jview(*theme), jview(*template), *flags, r),
{
    let ghost p = path_of(*flags);
    proof {
        lemma_start_ok(jview(*theme), p);
        lemma_start_ok(jview(*template), p);
    }
    let th = match start_value(theme, flags) {
        Some(v) => v,
        None => {
            return Err(processing("Invalid starting path."));
        },
    };
    let tp = match start_value(template, flags) {
        Some(v) => v,
        None => {
            return Err(processing("Invalid starting path."));
        },
    };
    if flags.path.is_some() && !same_type(th, tp) {
        return Err(processing("Starting path types do not match."));
    }
    let mut files: Vec<(String, Vec<TomlLine>)> = Vec::new();
    match (th, tp) {
        (Json::Object(_), Json::Object(_)) => {
            let lines = match reverse_theme(th, tp, flags, space) {
                Ok(l) => l,
                Err(e) => {
                    return Err(e);
                },
            };
            let mut n = chars_of(flags.name.as_str());
            append_chars(&mut n, &chars_of(".toml"));
            files.push((string_of(&n), lines));
        },
        (Json::Array(ths), Json::Array(tps)) => {
            let ghost tv = jviews(tps@);
            let ghost hv = jviews(ths@);
            proof {
                lemma_all_strings_seq(hv, |s: Seq<char>| source_text_ok(s));
                lemma_all_strings_seq(tv, |s: Seq<char>| source_text_ok(s));
            }
            let first = &tps[0];
            let name_path = match JSPath::from_str("/name") {
                Ok(q) => q,
                Err(_) => JSPath::new(),
            };
            for i in 0..ths.len()
                invariant
                    hv == jviews(ths@),
                    tv == jviews(tps@),
                    start_at(jview(*theme), path_of(*flags)) == Some(JsonV::Array(hv)),
                    start_at(jview(*template), path_of(*flags)) == Some(JsonV::Array(tv)),
                    tv.len() > 0,
                    jview(*first) == tv[0],
                    name_path@ == parse_path("/name"@),
                    forall|k: int| 0 <= k < hv.len() ==> source_ok(#[trigger] hv[k]),
                    forall|k: int| 0 <= k < tv.len() ==> source_ok(#[trigger] tv[k]),
                    files@.len() == i,
                    forall|k: int| 0 <= k < i ==> file_for(hv, tv, *flags, k, #[trigger] files@[k]),
            {
                let x = &ths[i];
                assert(jview(*x) == hv[i as int]);
                proof {
                    assert(jview(*first) == tv[0]);
                    assert(reverse_settles(hv[i as int], tv[0], *flags) == reverse_settles(jview(*x), jview(*first), *flags));
                }
                if !same_type(x, first) {
                    let mut m = chars_of("Array index ");
                    append_chars(&mut m, &crate::text::fmt_dec(i));
                    append_chars(&mut m, &chars_of(" types do not match."));
                    proof {
                        assert(!same_type_spec(hv[i as int], tv[0]));
                        assert(!array_settles(hv, tv, *flags));
                    }
                    return Err(ProgramError::Processing(string_of(&m)));
                }
                let mut n = match name_path.traverse(x) {
                    Ok(Json::String(s)) => chars_of(s.as_str()),
                    _ => {
                        let mut b = chars_of(flags.name.as_str());
                        append_chars(&mut b, &crate::text::fmt_dec(i));
                        b
                    },
                };
                assert(n@ == theme_name(hv[i as int], flags.name@, i as int));
                append_chars(&mut n, &chars_of(".toml"));
                let lines = match reverse_theme(x, first, flags, space) {
                    Ok(l) => l,
                    Err(e) => {
                        proof {
                            assert(!reverse_settles(hv[i as int], tv[0], *flags));
                            assert(!array_settles(hv, tv, *flags));
                        }
                        return Err(e);
                    },
                };
                let fname = string_of(&n);
                assert(fname@ == with_toml(theme_name(hv[i as int], flags.name@, i as int)));
                assert(same_type_spec(hv[i as int], tv[0]));
                assert(reversed(hv[i as int], tv[0], *flags, lines@));
                let ghost f0 = files@;
                files.push((fname, lines));
                assert(files@[i as int].0@ == with_toml(theme_name(hv[i as int], flags.name@, i as int)));
                assert(file_for(hv, tv, *flags, i as int, files@[i as int]));
                assert forall|k: int| 0 <= k < i + 1 implies file_for(hv, tv, *flags, k, #[trigger] files@[k]) by {
                    if k < i {
                        assert(files@[k] == f0[k]);
                    }
                }
            }
        },
        _ => {
            return Err(processing("Invalid starting path."));
        },
    }
    Ok(files)
}


/// Tells whether every text of a value reads safely both as a value and
/// as variable references (see `source_ok`), which `reverse` needs of the
/// theme and the template.
pub fn source_ok_exec<S: ColorSpace>(j: &Json, space: &S) -> (r: bool)
    ensures
        r == source_ok(jview(*j)),
    decreases j,
{
    match j {
        Json::String(s) => ParsedValue::text_ok(s.as_str(), space) && crate::parsing::pieces_ok_exec(&chars_of(s.as_str())),
        Json::Array(a) => {
            proof {
                lemma_all_strings_seq(jviews(a@), |s: Seq<char>| source_text_ok(s));
            }
            for i in 0..a.len()
                invariant
                    *j == Json::Array(*a),
                    forall|k: int| 0 <= k < i ==> source_ok(#[trigger] jview(a@[k])),
                    crate::parsing::all_strings_seq(jviews(a@), |s: Seq<char>| source_text_ok(s)) <==> forall|i: int|
                        0 <= i < jviews(a@).len() ==> all_strings(#[trigger] jviews(a@)[i], |s: Seq<char>| source_text_ok(s)),
            {
                assert(decreases_to!(*j => (*j)->Array_0));
                assert(decreases_to!(*a => a@));
                assert(decreases_to!(a@ => a@[i as int]));
                if !source_ok_exec(&a[i], space) {
                    assert(jviews(a@)[i as int] == jview(a@[i as int]));
                    return false;
                }
            }
            assert forall|i: int| 0 <= i < jviews(a@).len() implies all_strings(#[trigger] jviews(a@)[i], |s: Seq<char>| source_text_ok(s)) by {
                assert(jviews(a@)[i] == jview(a@[i]));
            }
            true
        },
        Json::Object(o) => {
            proof {
                lemma_all_strings_entries(jentries(o@), |s: Seq<char>| source_text_ok(s));
            }
            for i in 0..o.len()
                invariant
                    *j == Json::Object(*o),
                    forall|k: int| 0 <= k < i ==> source_ok(#[trigger] jview(o@[k].1)),
                    crate::parsing::all_strings_entries(jentries(o@), |s: Seq<char>| source_text_ok(s)) <==> forall|i: int|
                        0 <= i < jentries(o@).len() ==> all_strings(#[trigger] jentries(o@)[i].1, |s: Seq<char>| source_text_ok(s)),
            {
                assert(decreases_to!(*j => (*j)->Object_0));
                assert(decreases_to!(*o => o@));
                assert(decreases_to!(o@ => o@[i as int]));
                assert(decreases_to!(o@[i as int] => o@[i as int].1));
                if !source_ok_exec(&o[i].1, space) {
                    assert(jentries(o@)[i as int].1 == jview(o@[i as int].1));
                    return false;
                }
            }
            assert forall|i: int| 0 <= i < jentries(o@).len() implies all_strings(#[trigger] jentries(o@)[i].1, |s: Seq<char>| source_text_ok(s)) by {
                assert(jentries(o@)[i].1 == jview(o@[i].1));
            }
            true
        },
        _ => true,
    }
}


/// The lines are `pre`, the `[overrides]` header, one line for each
/// override of `t`, then `post`.
pub open spec fn overrides_between(
    ls: Seq<crate::toml_out::LineV>,
    pre: Seq<crate::toml_out::LineV>,
    t: Seq<OverrideV>,
    post: Seq<crate::toml_out::LineV>,
) -> bool {
    ls == pre + seq![
        crate::toml_out::LineV::Text("\n# Overrides"@),
        crate::toml_out::LineV::Text("[overrides]"@),
    ] + crate::toml_out::override_lines(t) + post
}

proof fn lemma_kd_obj_missing(m1: Seq<(Seq<char>, JsonV)>, m2: Seq<(Seq<char>, JsonV)>, k: int, n: int)
    requires
        0 <= k < n <= m1.len(),
        get_key(m2, m1[k].0) is None,
    ensures
        crate::reverse::kd_obj(m1, m2, Seq::empty(), false, n).0.contains(
            crate::check::child_prefix(Seq::empty(), m1[k].0),
        ),
    decreases n,
{
    let x = crate::check::child_prefix(Seq::empty(), m1[k].0);
    let prev = crate::reverse::kd_obj(m1, m2, Seq::empty(), false, n - 1);
    let r = crate::reverse::kd_obj(m1, m2, Seq::empty(), false, n).0;
    if k == n - 1 {
        assert(r[prev.0.len() as int] == x);
    } else {
        lemma_kd_obj_missing(m1, m2, k, n - 1);
        let i = prev.0.index_of(x);
        assert(r[i] == x);
    }
}

proof fn lemma_kept_has(ks: Seq<Seq<char>>, ign: Seq<Seq<char>>, x: Seq<char>)
    requires
        ks.contains(x),
        !ign.contains(x),
    ensures
        kept(ks, ign).contains(x),
    decreases ks.len(),
{
    if ks.last() == x {
        let r = kept(ks, ign);
        assert(r[r.len() - 1] == x);
    } else {
        let i = ks.index_of(x);
        assert(ks.drop_last()[i] == x);
        lemma_kept_has(ks.drop_last(), ign, x);
        let r0 = kept(ks.drop_last(), ign);
        let j = r0.index_of(x);
        assert(kept(ks, ign)[j] == x);
    }
}

proof fn lemma_manual_keys_marked(o: Seq<(Seq<char>, JsonV)>, x: Seq<char>)
    requires
        manual_keys(o).contains(x),
    ensures
        x.len() > 0 && x[0] == '/' && starts_with(x.drop_first(), "$::"@),
    decreases o.len(),
{
    let r0 = manual_keys(o.drop_last());
    if r0.contains(x) {
        lemma_manual_keys_marked(o.drop_last(), x);
    } else {
        let i = manual_keys(o).index_of(x);
        assert(i == r0.len());
        assert((seq!['/'] + o.last().0).drop_first() =~= o.last().0);
    }
}

/// A member the theme adds to its template (at the top, outside the `$::`
/// entries) is written back: the reversed file holds, after its
/// `[overrides]` header, one `"path" = value` line for each override, one
/// of them going by the member's path.
pub proof fn law_added_member_is_overridden(
    hm: Seq<(Seq<char>, JsonV)>,
    tm: Seq<(Seq<char>, JsonV)>,
    flags: ReverseSettings,
    lines: Seq<TomlLine>,
    k: int,
)
    requires
        reversed(JsonV::Object(hm), JsonV::Object(tm), flags, lines),
        flags.generate_additions,
        0 <= k < hm.len(),
        get_key(tm, hm[k].0) is None,
        !starts_with(hm[k].0, "$::"@),
    ensures
        exists|t: Seq<OverrideV>, pre: Seq<crate::toml_out::LineV>, post: Seq<crate::toml_out::LineV>|
            #[trigger] overrides_between(lines_view(lines), pre, t, post) && has_override(
                t,
                path_text(parse_path(seq!['/'] + hm[k].0)),
            ),
{
    let theme = JsonV::Object(hm);
    let template = JsonV::Object(tm);
    let x = seq!['/'] + hm[k].0;
    assert(crate::check::child_prefix(Seq::empty(), hm[k].0) =~= x);
    lemma_kd_obj_missing(hm, tm, k, hm.len() as int);
    let kd = kd_walk(theme, template, Seq::empty(), false);
    assert(kd.0.contains(x));
    let both = kd.0 + kd.1;
    let i = kd.0.index_of(x);
    assert(both[i] == x);
    let ign = manual_keys(template_entries(template));
    if ign.contains(x) {
        lemma_manual_keys_marked(template_entries(template), x);
        assert(x.drop_first() =~= hm[k].0);
    }
    lemma_kept_has(both, ign, x);
    let fo = found_overrides(template, theme);
    let q = fo.index_of(x);
    let (g, t, dl) = choose|g: JsonV, t: Seq<OverrideV>, dl: Seq<Seq<KeyView>>|
        #![trigger toml_plan(toml_ready(g)->Object_0, t, dl, flags.generate_colors, flags.generate_additions, flags.generate_deletions)]
        g is Object && overrides_named(t, found_overrides(template, theme)) && (plain_reverse(theme, template, flags) ==> exists|svs: Seq<SourcedVariable>|
            #[trigger] sites_read(kd_walk(template, theme, Seq::empty(), true).2, svs) && paved_vars(src_entries(svs))
                == Some(g)) && deletion_order(
            dl,
            found_deletions(template, theme) + if flags.generate_manual && flags.generate_deletions {
                manual_deletions(manual_entries(template_entries(template)))
            } else {
                Seq::empty()
            },
        ) && lines_view(lines) == toml_plan(
            toml_ready(g)->Object_0,
            t,
            dl,
            flags.generate_colors,
            flags.generate_additions,
            flags.generate_deletions,
        );
    assert(has_override(t, path_text(parse_path(fo[q]))));
    let d = toml_ready(g)->Object_0;
    let pre = seq![crate::toml_out::LineV::Text("# Reverse Generation Tool Version 3.0"@)] + crate::toml_out::top_lines(d)
        + crate::toml_out::color_part(d, flags.generate_colors) + crate::toml_out::section_lines(d);
    let post = crate::toml_out::deletion_part(dl, flags.generate_deletions);
    assert(lines_view(lines) =~= pre + seq![
        crate::toml_out::LineV::Text("\n# Overrides"@),
        crate::toml_out::LineV::Text("[overrides]"@),
    ] + crate::toml_out::override_lines(t) + post);
    assert(overrides_between(lines_view(lines), pre, t, post));
}

} // verus!

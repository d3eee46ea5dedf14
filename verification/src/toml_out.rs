//! The variable file that reversing a theme writes, as a list of lines.
//!
//! The layout (sections, their order, which entries go where, the order of
//! overrides and deletions) is decided here; the text of each value is left
//! to whoever writes the file, which renders it as TOML.
use vstd::prelude::*;
use crate::text::{chars_of, string_of, append_chars, parses_as_i32, int_text};
use crate::json::{
    Json, JsonV, jview, jviews, jentries, JSPath, KeyView, path_text, join_text, key_lt, key_less,
    set_key, obj_set,
};
use crate::parsing::{VariableSet, ParsedValue, pv_json, pv_same, Entries};
use crate::reverse::{toml_null, ReverseSettings, path_equal};
use crate::check::{lemma_lt_irrefl, lemma_lt_trans, lemma_lt_total, lemma_lt_asym};

verus! {

/// One line of a variable file.
#[derive(Debug)]
pub enum TomlLine {
    /// Literal text.
    Text(String),
    /// `key = value`, the key written as it is.
    Entry(String, Json),
    /// `\tvalue` inside an array, followed by a comma when the flag is set.
    Item(Json, bool),
}

pub enum LineV {
    Text(Seq<char>),
    Entry(Seq<char>, JsonV),
    Item(JsonV, bool),
}

pub open spec fn line_view(l: TomlLine) -> LineV {
    match l {
        TomlLine::Text(s) => LineV::Text(s@),
        TomlLine::Entry(k, v) => LineV::Entry(k@, jview(v)),
        TomlLine::Item(v, c) => LineV::Item(jview(v), c),
    }
}

pub open spec fn lines_view(ls: Seq<TomlLine>) -> Seq<LineV> {
    ls.map_values(|l: TomlLine| line_view(l))
}

fn push_line(out: &mut Vec<TomlLine>, l: TomlLine)
    ensures
        lines_view(final(out)@) == lines_view(old(out)@).push(line_view(l)),
{
    let ghost pre = out@;
    let ghost lv = line_view(l);
    out.push(l);
    assert(lines_view(out@) =~= lines_view(pre).push(lv));
}

fn text_line(out: &mut Vec<TomlLine>, s: &str)
    ensures
        lines_view(final(out)@) == lines_view(old(out)@).push(LineV::Text(s@)),
{
    push_line(out, TomlLine::Text(String::from_str(s)));
}

/// The entries of a TOML table built by inserting the entries in turn: a
/// later entry replaces an earlier one with the same key, and keys come out
/// in order.
pub open spec fn table_of(o: Seq<(Seq<char>, JsonV)>) -> Seq<(Seq<char>, JsonV)>
    decreases o.len(),
{
    if o.len() == 0 {
        Seq::empty()
    } else {
        set_key(table_of(o.drop_last()), o.last().0, o.last().1)
    }
}

/// A JSON value as TOML holds it: null becomes the text `$none`, objects
/// become tables.
pub open spec fn toml_ready(j: JsonV) -> JsonV
    decreases j, 1nat,
{
    match j {
        JsonV::Null => JsonV::Str(toml_null()),
        JsonV::Array(a) => JsonV::Array(ready_items(a)),
        JsonV::Object(o) => JsonV::Object(table_of(ready_entries(o))),
        _ => j,
    }
}

pub open spec fn ready_items(a: Seq<JsonV>) -> Seq<JsonV>
    decreases a, 0nat,
{
    Seq::new(
        a.len(),
        |i: int|
            if 0 <= i < a.len() {
                toml_ready(a[i])
            } else {
                JsonV::Null
            },
    )
}

pub open spec fn ready_entries(o: Seq<(Seq<char>, JsonV)>) -> Seq<(Seq<char>, JsonV)>
    decreases o, 0nat,
{
    Seq::new(
        o.len(),
        |i: int|
            if 0 <= i < o.len() {
                (o[i].0, toml_ready(o[i].1))
            } else {
                (Seq::<char>::empty(), JsonV::Null)
            },
    )
}

/// The value as TOML holds it (see `toml_ready`).
pub fn into_toml(val: &Json) -> (r: Json)
    ensures
        jview(r) == toml_ready(jview(*val)),
    decreases val,
{
    match val {
        Json::Null => {
            let s = String::from_str("$none");
            Json::String(s)
        },
        Json::Array(a) => {
            let ghost av = jviews(a@);
            let mut v: Vec<Json> = Vec::new();
            for i in 0..a.len()
                invariant
                    *val == Json::Array(*a),
                    av == jviews(a@),
                    v@.len() == i,
                    forall|k: int| 0 <= k < i ==> jview(#[trigger] v@[k]) == toml_ready(av[k]),
            {
                assert(decreases_to!(*val => (*val)->Array_0));
                assert(decreases_to!(*a => a@));
                assert(decreases_to!(a@ => a@[i as int]));
                v.push(into_toml(&a[i]));
            }
            let ghost want = ready_items(av);
            assert(jviews(v@) =~= want);
            Json::Array(v)
        },
        Json::Object(o) => {
            let ghost ov = jentries(o@);
            let ghost m = ready_entries(ov);
            let mut v: Vec<(String, Json)> = Vec::new();
            assert(jentries(v@) =~= table_of(m.take(0)));
            for i in 0..o.len()
                invariant
                    *val == Json::Object(*o),
                    ov == jentries(o@),
                    m.len() == o@.len(),
                    forall|k: int| 0 <= k < m.len() ==> #[trigger] m[k] == (ov[k].0, toml_ready(ov[k].1)),
                    jentries(v@) == table_of(m.take(i as int)),
            {
                assert(decreases_to!(*val => (*val)->Object_0));
                assert(decreases_to!(*o => o@));
                assert(decreases_to!(o@ => o@[i as int]));
                assert(decreases_to!(o@[i as int] => o@[i as int].1));
                let x = into_toml(&o[i].1);
                assert(m.take(i + 1).drop_last() =~= m.take(i as int));
                assert(m.take(i + 1).last() == m[i as int]);
                obj_set(&mut v, o[i].0.clone(), x);
            }
            assert(m.take(o.len() as int) =~= m);
            Json::Object(v)
        },
        _ => val.clone(),
    }
}

pub open spec fn entry_line(e: (Seq<char>, JsonV)) -> LineV {
    LineV::Entry(e.0, e.1)
}

/// `key = value` for each top-level entry that is not a table.
pub open spec fn top_lines(d: Seq<(Seq<char>, JsonV)>) -> Seq<LineV>
    decreases d.len(),
{
    if d.len() == 0 {
        Seq::empty()
    } else if d.last().1 is Object {
        top_lines(d.drop_last())
    } else {
        top_lines(d.drop_last()).push(entry_line(d.last()))
    }
}

/// Every entry named `color` is a table.
pub open spec fn color_is_table(d: Seq<(Seq<char>, JsonV)>) -> bool {
    forall|i: int| 0 <= i < d.len() && (#[trigger] d[i]).0 == "color"@ ==> d[i].1 is Object
}

/// `key = value` for each entry of the `color` table (already in key
/// order, as a table keeps them).
pub open spec fn color_lines(d: Seq<(Seq<char>, JsonV)>) -> Seq<LineV>
    decreases d.len(),
{
    if d.len() == 0 {
        Seq::empty()
    } else if d.last().0 == "color"@ {
        color_lines(d.drop_last()) + d.last().1->Object_0.map_values(|e: (Seq<char>, JsonV)| entry_line(e))
    } else {
        color_lines(d.drop_last())
    }
}

/// The items of an array, each but the last followed by a comma.
pub open spec fn array_lines(a: Seq<JsonV>) -> Seq<LineV> {
    Seq::new(a.len(), |i: int| LineV::Item(a[i], i != a.len() - 1))
}

/// The entries of a table under its header: arrays spread over lines.
pub open spec fn table_lines(t: Seq<(Seq<char>, JsonV)>) -> Seq<LineV>
    decreases t.len(),
{
    if t.len() == 0 {
        Seq::empty()
    } else {
        let e = t.last();
        table_lines(t.drop_last()) + match e.1 {
            JsonV::Array(a) => seq![LineV::Text(e.0 + " = ["@)] + array_lines(a) + seq![LineV::Text("]"@)],
            _ => seq![entry_line(e)],
        }
    }
}

pub open spec fn section_header(k: Seq<char>) -> Seq<char> {
    seq!['\n', '['] + k + seq![']']
}

/// A `[key]` section for each table but `color`.
pub open spec fn section_lines(d: Seq<(Seq<char>, JsonV)>) -> Seq<LineV>
    decreases d.len(),
{
    if d.len() == 0 {
        Seq::empty()
    } else {
        let e = d.last();
        if e.0 != "color"@ && e.1 is Object {
            section_lines(d.drop_last()) + seq![LineV::Text(section_header(e.0))] + table_lines(e.1->Object_0)
        } else {
            section_lines(d.drop_last())
        }
    }
}

fn push_top(out: &mut Vec<TomlLine>, d: &Vec<(String, Json)>)
    ensures
        lines_view(final(out)@) == lines_view(old(out)@) + top_lines(jentries(d@)),
{
    let ghost pre = lines_view(out@);
    let ghost dv = jentries(d@);
    assert(top_lines(dv.take(0)) =~= Seq::<LineV>::empty());
    for i in 0..d.len()
        invariant
            dv == jentries(d@),
            lines_view(out@) == pre + top_lines(dv.take(i as int)),
    {
        assert(dv.take(i + 1).drop_last() =~= dv.take(i as int));
        assert(dv.take(i + 1).last() == dv[i as int]);
        match &d[i].1 {
            Json::Object(_) => {},
            _ => {
                let ghost before = lines_view(out@);
                push_line(out, TomlLine::Entry(d[i].0.clone(), d[i].1.clone()));
                assert(lines_view(out@) =~= pre + top_lines(dv.take(i + 1)));
            },
        }
    }
    assert(dv.take(d.len() as int) =~= dv);
}

fn push_entries(out: &mut Vec<TomlLine>, t: &Vec<(String, Json)>)
    ensures
        lines_view(final(out)@) == lines_view(old(out)@) + jentries(t@).map_values(
            |e: (Seq<char>, JsonV)| entry_line(e),
        ),
{
    let ghost pre = lines_view(out@);
    let ghost tv = jentries(t@);
    for i in 0..t.len()
        invariant
            tv == jentries(t@),
            lines_view(out@) == pre + tv.take(i as int).map_values(|e: (Seq<char>, JsonV)| entry_line(e)),
    {
        push_line(out, TomlLine::Entry(t[i].0.clone(), t[i].1.clone()));
        assert(tv.take(i + 1).map_values(|e: (Seq<char>, JsonV)| entry_line(e)) =~= tv.take(
            i as int,
        ).map_values(|e: (Seq<char>, JsonV)| entry_line(e)).push(entry_line(tv[i as int])));
        assert(lines_view(out@) =~= pre + tv.take(i + 1).map_values(
            |e: (Seq<char>, JsonV)| entry_line(e),
        ));
    }
    assert(tv.take(t.len() as int) =~= tv);
}

fn push_colors(out: &mut Vec<TomlLine>, d: &Vec<(String, Json)>)
    requires
        color_is_table(jentries(d@)),
    ensures
        lines_view(final(out)@) == lines_view(old(out)@) + color_lines(jentries(d@)),
{
    let ghost pre = lines_view(out@);
    let ghost dv = jentries(d@);
    assert(color_lines(dv.take(0)) =~= Seq::<LineV>::empty());
    let color = chars_of("color");
    for i in 0..d.len()
        invariant
            dv == jentries(d@),
            color@ == "color"@,
            color_is_table(dv),
            lines_view(out@) == pre + color_lines(dv.take(i as int)),
    {
        assert(dv.take(i + 1).drop_last() =~= dv.take(i as int));
        assert(dv.take(i + 1).last() == dv[i as int]);
        if crate::text::chars_eq(&chars_of(d[i].0.as_str()), &color) {
            assert(dv[i as int].0 == "color"@);
            match &d[i].1 {
                Json::Object(t) => {
                    push_entries(out, t);
                    assert(lines_view(out@) =~= pre + color_lines(dv.take(i + 1)));
                },
                _ => {},
            }
        }
    }
    assert(dv.take(d.len() as int) =~= dv);
}

fn push_array(out: &mut Vec<TomlLine>, a: &Vec<Json>)
    ensures
        lines_view(final(out)@) == lines_view(old(out)@) + array_lines(jviews(a@)),
{
    let ghost pre = lines_view(out@);
    let ghost al = array_lines(jviews(a@));
    let n = a.len();
    for i in 0..n
        invariant
            n == a@.len(),
            al == array_lines(jviews(a@)),
            lines_view(out@) == pre + al.take(i as int),
    {
        let comma = i != n - 1;
        push_line(out, TomlLine::Item(a[i].clone(), comma));
        assert(al.take(i + 1) =~= al.take(i as int).push(al[i as int]));
        assert(lines_view(out@) =~= pre + al.take(i + 1));
    }
    assert(al.take(n as int) =~= al);
}

fn push_table(out: &mut Vec<TomlLine>, t: &Vec<(String, Json)>)
    ensures
        lines_view(final(out)@) == lines_view(old(out)@) + table_lines(jentries(t@)),
{
    let ghost pre = lines_view(out@);
    let ghost tv = jentries(t@);
    assert(table_lines(tv.take(0)) =~= Seq::<LineV>::empty());
    for i in 0..t.len()
        invariant
            tv == jentries(t@),
            lines_view(out@) == pre + table_lines(tv.take(i as int)),
    {
        assert(tv.take(i + 1).drop_last() =~= tv.take(i as int));
        assert(tv.take(i + 1).last() == tv[i as int]);
        let ghost before = lines_view(out@);
        match &t[i].1 {
            Json::Array(a) => {
                let mut open = chars_of(t[i].0.as_str());
                append_chars(&mut open, &chars_of(" = ["));
                push_line(out, TomlLine::Text(string_of(&open)));
                push_array(out, a);
                text_line(out, "]");
                assert(lines_view(out@) =~= pre + table_lines(tv.take(i + 1)));
            },
            _ => {
                push_line(out, TomlLine::Entry(t[i].0.clone(), t[i].1.clone()));
                assert(lines_view(out@) =~= pre + table_lines(tv.take(i + 1)));
            },
        }
    }
    assert(tv.take(t.len() as int) =~= tv);
}

fn push_sections(out: &mut Vec<TomlLine>, d: &Vec<(String, Json)>)
    ensures
        lines_view(final(out)@) == lines_view(old(out)@) + section_lines(jentries(d@)),
{
    let ghost pre = lines_view(out@);
    let ghost dv = jentries(d@);
    assert(section_lines(dv.take(0)) =~= Seq::<LineV>::empty());
    let color = chars_of("color");
    for i in 0..d.len()
        invariant
            dv == jentries(d@),
            color@ == "color"@,
            lines_view(out@) == pre + section_lines(dv.take(i as int)),
    {
        assert(dv.take(i + 1).drop_last() =~= dv.take(i as int));
        assert(dv.take(i + 1).last() == dv[i as int]);
        let is_color = crate::text::chars_eq(&chars_of(d[i].0.as_str()), &color);
        match &d[i].1 {
            Json::Object(t) => {
                if !is_color {
                    let mut h: Vec<char> = Vec::new();
                    h.push('\n');
                    h.push('[');
                    append_chars(&mut h, &chars_of(d[i].0.as_str()));
                    h.push(']');
                    assert(h@ =~= section_header(dv[i as int].0));
                    push_line(out, TomlLine::Text(string_of(&h)));
                    push_table(out, t);
                    assert(lines_view(out@) =~= pre + section_lines(dv.take(i + 1)));
                }
            },
            _ => {},
        }
    }
    assert(dv.take(d.len() as int) =~= dv);
}


proof fn lemma_insert_set<A>(s: Seq<A>, p: int, x: A)
    requires
        0 <= p <= s.len(),
    ensures
        s.insert(p, x).to_set() == s.to_set().insert(x),
{
    let t = s.insert(p, x);
    assert forall|y: A| t.to_set().contains(y) <==> s.to_set().insert(x).contains(y) by {
        if t.contains(y) {
            let k = choose|k: int| 0 <= k < t.len() && t[k] == y;
            if k < p {
                assert(s[k] == y);
            } else if k > p {
                assert(s[k - 1] == y);
            }
        }
        if s.contains(y) {
            let k = choose|k: int| 0 <= k < s.len() && s[k] == y;
            if k < p {
                assert(t[k] == y);
            } else {
                assert(t[k + 1] == y);
            }
        }
        if y == x {
            assert(t[p] == x);
        }
    }
    assert(t.to_set() =~= s.to_set().insert(x));
}

proof fn lemma_take_set<A>(s: Seq<A>, i: int)
    requires
        0 <= i < s.len(),
    ensures
        s.take(i + 1).to_set() == s.take(i).to_set().insert(s[i]),
{
    assert(s.take(i + 1) =~= s.take(i).push(s[i]));
    s.take(i).lemma_push_to_set_commute(s[i]);
}

/// An override as the file lists it: its name, its path joined by `/`, and
/// its value.
pub type OverrideV = (Seq<char>, Seq<char>, JsonV);

pub open spec fn override_view(e: (Seq<char>, crate::parsing::ResolvedVariable)) -> OverrideV {
    (e.0, join_text(e.1.path@), pv_json(e.1.value))
}

pub open spec fn overrides_view(es: Entries) -> Seq<OverrideV> {
    es.map_values(|e: (Seq<char>, crate::parsing::ResolvedVariable)| override_view(e))
}

pub open spec fn ov_view(v: Seq<(String, String, Json)>) -> Seq<OverrideV> {
    v.map_values(|e: (String, String, Json)| (e.0@, e.1@, jview(e.2)))
}

/// `t` holds the overrides `o`, ordered by name.
pub open spec fn by_name(t: Seq<OverrideV>, o: Seq<OverrideV>) -> bool {
    &&& t.to_set() == o.to_set()
    &&& forall|i: int, j: int| 0 <= i < j < t.len() ==> key_lt(#[trigger] t[i].0, #[trigger] t[j].0)
}

proof fn lemma_pv_json_same(a: ParsedValue, b: ParsedValue)
    requires
        pv_same(a, b),
    ensures
        pv_json(a) == pv_json(b),
{
}

/// The overrides of a set, ordered by name.
fn sorted_overrides(vs: &VariableSet) -> (r: Vec<(String, String, Json)>)
    requires
        vs.wf(),
    ensures
        by_name(ov_view(r@), overrides_view(vs@)),
{
    let ghost target = overrides_view(vs@);
    let mut r: Vec<(String, String, Json)> = Vec::new();
    assert(ov_view(r@).to_set() =~= target.take(0).to_set());
    for i in 0..vs.variables.len()
        invariant
            vs.wf(),
            target == overrides_view(vs@),
            ov_view(r@).to_set() == target.take(i as int).to_set(),
            forall|a: int, b: int| 0 <= a < b < r@.len() ==> key_lt(#[trigger] ov_view(r@)[a].0, #[trigger] ov_view(r@)[b].0),
    {
        let name = vs.variables[i].0.clone();
        let joined = vs.variables[i].1.path.join();
        let value = vs.variables[i].1.value.clone();
        proof {
            lemma_pv_json_same(value, vs@[i as int].1.value);
        }
        let json = value.into_value();
        let ghost xv: OverrideV = (name@, joined@, jview(json));
        assert(xv == target[i as int]);
        let nc = chars_of(name.as_str());
        let ghost rv = ov_view(r@);
        let mut p: usize = 0;
        while p < r.len() && key_less(&chars_of(r[p].0.as_str()), &nc)
            invariant
                p <= r@.len(),
                rv == ov_view(r@),
                nc@ == xv.0,
                forall|q: int| 0 <= q < p ==> key_lt(#[trigger] rv[q].0, xv.0),
            decreases r.len() - p,
        {
            p += 1;
        }
        proof {
            if p < rv.len() {
                assert(rv.to_set().contains(rv[p as int]));
                assert(target.take(i as int).to_set().contains(rv[p as int]));
                assert(target.take(i as int).contains(rv[p as int]));
                let j = choose|j: int| 0 <= j < i && target.take(i as int)[j] == rv[p as int];
                assert(vs@[j].0 != vs@[i as int].0);
                lemma_lt_total(rv[p as int].0, xv.0);
            }
            lemma_insert_set(rv, p as int, xv);
            lemma_take_set(target, i as int);
        }
        r.insert(p, (name, joined, json));
        proof {
            let nv = ov_view(r@);
            assert(nv =~= rv.insert(p as int, xv));
            assert forall|a: int, b: int| 0 <= a < b < nv.len() implies key_lt(#[trigger] nv[a].0, #[trigger] nv[b].0) by {
                if b == p {
                    assert(nv[a] == rv[a]);
                } else if a == p {
                    assert(nv[b] == rv[b - 1]);
                    if b - 1 > p {
                        assert(key_lt(rv[p as int].0, rv[b - 1].0));
                        lemma_lt_trans(xv.0, rv[p as int].0, rv[b - 1].0);
                    }
                } else if a < p && b > p {
                    assert(nv[a] == rv[a]);
                    assert(nv[b] == rv[b - 1]);
                    if b - 1 > a {
                        assert(key_lt(rv[a].0, rv[b - 1].0));
                    }
                } else if a < p {
                    assert(nv[a] == rv[a]);
                    assert(nv[b] == rv[b]);
                } else {
                    assert(nv[a] == rv[a - 1]);
                    assert(nv[b] == rv[b - 1]);
                    assert(key_lt(rv[a - 1].0, rv[b - 1].0));
                }
            }
        }
    }
    assert(target.take(vs.variables.len() as int) =~= target);
    r
}

/// The pattern a path's text is searched with for a number segment.
pub open spec fn num_pattern() -> Seq<char> {
    "/(\\d+)(/|$)"@
}

/// What `regex::Regex::new(pattern)` and then `captures(text)` give for the
/// first group: `None` when the pattern does not compile, when it matches
/// nowhere, or when the group takes no part in the first match.
pub uninterp spec fn regex_first_group(pattern: Seq<char>, text: Seq<char>) -> Option<Seq<char>>;

/// `regex::Regex::new` followed by `Regex::captures` and `Captures::get(1)`:
/// the text of the first group in the leftmost match. The crate's regex
/// engine decides; its answer is only named here.
#[verifier::external_body]
fn regex_capture(pattern: &str, text: &str) -> (r: Option<String>)
    ensures
        match r {
            Some(g) => regex_first_group(pattern@, text@) == Some(g@),
            None => regex_first_group(pattern@, text@) is None,
        },
{
    match regex::Regex::new(pattern) {
        Ok(re) => match re.captures(text) {
            Some(c) => match c.get(1) {
                Some(m) => Some(m.as_str().to_string()),
                None => None,
            },
            None => None,
        },
        Err(_) => None,
    }
}

/// `has_num_in_path`: the first `/digits` segment of the path's text reads
/// as an `i32`.
pub open spec fn has_num_spec(p: Seq<KeyView>) -> bool {
    match regex_first_group(num_pattern(), path_text(p)) {
        Some(g) => int_text(g, true, i32::MIN as int, i32::MAX as int) is Some,
        None => false,
    }
}

impl JSPath {
    /// The path's text has a segment of digits that reads as an `i32`.
    pub fn has_num_in_path(&self) -> (r: bool)
        ensures
            r == has_num_spec(self@),
    {
        let text = self.to_string();
        match regex_capture("/(\\d+)(/|$)", text.as_str()) {
            Some(g) => parses_as_i32(&chars_of(g.as_str())),
            None => false,
        }
    }
}

/// The order deletions are listed in: paths that both hold a number go
/// from the greatest text down, any other pair from the least text up.
pub open spec fn del_before_tn(ta: Seq<char>, na: bool, tb: Seq<char>, nb: bool) -> bool {
    if na && nb {
        key_lt(tb, ta)
    } else {
        key_lt(ta, tb)
    }
}

pub open spec fn del_before(a: Seq<KeyView>, b: Seq<KeyView>) -> bool {
    del_before_tn(path_text(a), has_num_spec(a), path_text(b), has_num_spec(b))
}

pub open spec fn paths_view(v: Seq<JSPath>) -> Seq<Seq<KeyView>> {
    v.map_values(|p: JSPath| p@)
}

/// `t` lists each path of `d` once, and no path is listed right after one
/// that it goes before. (The order is not a total one, so a sort pins down
/// no more than its neighbours.)
pub open spec fn deletion_order(t: Seq<Seq<KeyView>>, d: Seq<Seq<KeyView>>) -> bool {
    &&& t.to_set() == d.to_set()
    &&& t.no_duplicates()
    &&& forall|i: int, j: int| 0 <= i && j == i + 1 && j < t.len() ==> !del_before(#[trigger] t[j], #[trigger] t[i])
}

proof fn lemma_del_asym(ta: Seq<char>, na: bool, tb: Seq<char>, nb: bool)
    requires
        del_before_tn(ta, na, tb, nb),
    ensures
        !del_before_tn(tb, nb, ta, na),
{
    if na && nb {
        lemma_lt_asym(tb, ta);
    } else {
        lemma_lt_asym(ta, tb);
    }
}

fn before_exec(ta: &Vec<char>, na: bool, tb: &Vec<char>, nb: bool) -> (r: bool)
    ensures
        r == del_before_tn(ta@, na, tb@, nb),
{
    if na && nb {
        key_less(tb, ta)
    } else {
        key_less(ta, tb)
    }
}

/// The deletions, each once, in the order the file lists them.
fn ordered_deletions(dels: &Vec<JSPath>) -> (r: Vec<JSPath>)
    ensures
        deletion_order(paths_view(r@), paths_view(dels@)),
{
    let ghost target = paths_view(dels@);
    let mut out: Vec<JSPath> = Vec::new();
    let mut texts: Vec<Vec<char>> = Vec::new();
    let mut nums: Vec<bool> = Vec::new();
    assert(paths_view(out@).to_set() =~= target.take(0).to_set());
    for i in 0..dels.len()
        invariant
            target == paths_view(dels@),
            texts@.len() == out@.len(),
            nums@.len() == out@.len(),
            forall|k: int| 0 <= k < out@.len() ==> (#[trigger] texts@[k])@ == path_text(out@[k]@),
            forall|k: int| 0 <= k < out@.len() ==> #[trigger] nums@[k] == has_num_spec(out@[k]@),
            paths_view(out@).to_set() == target.take(i as int).to_set(),
            paths_view(out@).no_duplicates(),
            forall|a: int, b: int|
                0 <= a && b == a + 1 && b < out@.len() ==> !del_before(
                    #[trigger] paths_view(out@)[b],
                    #[trigger] paths_view(out@)[a],
                ),
    {
        let ghost ov = paths_view(out@);
        proof {
            lemma_take_set(target, i as int);
        }
        let x = &dels[i];
        let mut seen = false;
        let mut k: usize = 0;
        while k < out.len()
            invariant
                k <= out@.len(),
                ov == paths_view(out@),
                seen ==> ov.contains(x@),
                !seen ==> forall|q: int| 0 <= q < k ==> ov[q] != x@,
            decreases out.len() - k,
        {
            if path_equal(&out[k], x) {
                assert(ov[k as int] == x@);
                seen = true;
            }
            k += 1;
        }
        if !seen {
            let xt = chars_of(x.to_string().as_str());
            let xn = x.has_num_in_path();
            let mut p: usize = out.len();
            while p > 0 && before_exec(&xt, xn, &texts[p - 1], nums[p - 1])
                invariant
                    p <= out@.len(),
                    ov == paths_view(out@),
                    texts@.len() == out@.len(),
                    nums@.len() == out@.len(),
                    forall|k: int| 0 <= k < out@.len() ==> (#[trigger] texts@[k])@ == path_text(out@[k]@),
                    forall|k: int| 0 <= k < out@.len() ==> #[trigger] nums@[k] == has_num_spec(out@[k]@),
                    xt@ == path_text(x@),
                    xn == has_num_spec(x@),
                    p < out@.len() ==> del_before(x@, ov[p as int]),
                decreases p,
            {
                p -= 1;
            }
            proof {
                if p < ov.len() {
                    lemma_del_asym(path_text(x@), has_num_spec(x@), path_text(ov[p as int]), has_num_spec(ov[p as int]));
                }
                lemma_insert_set(ov, p as int, x@);
                assert(!ov.contains(x@));
            }
            let c = x.clone();
            let ghost o0 = out@;
            let ghost t0 = texts@;
            out.insert(p, c);
            texts.insert(p, xt);
            nums.insert(p, xn);
            proof {
                let nv = paths_view(out@);
                assert(nv =~= ov.insert(p as int, x@));
                assert forall|a: int, b: int| 0 <= a && b == a + 1 && b < nv.len() implies !del_before(
                    #[trigger] nv[b],
                    #[trigger] nv[a],
                ) by {
                    if b < p {
                        assert(nv[a] == ov[a] && nv[b] == ov[b]);
                    } else if b == p {
                        assert(nv[a] == ov[a]);
                    } else if a == p {
                        assert(nv[b] == ov[a]);
                    } else {
                        assert(nv[a] == ov[a - 1] && nv[b] == ov[b - 1]);
                    }
                }
                assert forall|a: int, b: int| 0 <= a < nv.len() && 0 <= b < nv.len() && a != b implies nv[a] != nv[b] by {
                    if a != p && b != p {
                        let a0 = if a < p { a } else { a - 1 };
                        let b0 = if b < p { b } else { b - 1 };
                        assert(nv[a] == ov[a0] && nv[b] == ov[b0]);
                    } else if a == p {
                        let b0 = if b < p { b } else { b - 1 };
                        assert(nv[b] == ov[b0]);
                    } else {
                        let a0 = if a < p { a } else { a - 1 };
                        assert(nv[a] == ov[a0]);
                    }
                }
                assert forall|k: int| 0 <= k < out@.len() implies (#[trigger] texts@[k])@ == path_text(out@[k]@) by {
                    if k > p {
                        assert(out@[k] == o0[k - 1]);
                        assert(texts@[k] == t0[k - 1]);
                    } else if k < p {
                        assert(out@[k] == o0[k]);
                        assert(texts@[k] == t0[k]);
                    }
                }
            }
        } else {
            proof {
                assert(ov.to_set().insert(x@) =~= ov.to_set());
            }
        }
    }
    assert(target.take(dels.len() as int) =~= target);
    out
}


pub open spec fn quoted(t: Seq<char>) -> Seq<char> {
    seq!['"'] + t + seq!['"']
}

/// `"path" = value` for each override.
pub open spec fn override_lines(t: Seq<OverrideV>) -> Seq<LineV> {
    t.map_values(|o: OverrideV| LineV::Entry(quoted(o.1), toml_ready(o.2)))
}

/// `\t"path"` for each deletion, each but the last followed by a comma.
pub open spec fn deletion_lines(t: Seq<Seq<KeyView>>) -> Seq<LineV> {
    Seq::new(
        t.len(),
        |i: int|
            LineV::Text(
                seq!['\t'] + quoted(path_text(t[i])) + if i == t.len() - 1 {
                    Seq::<char>::empty()
                } else {
                    seq![',']
                },
            ),
    )
}

/// The variable file: a title line; the top-level values that are not
/// tables; the `color` table; a section for each other table; the overrides;
/// the deletions. The last three each only when asked for.
pub open spec fn color_part(d: Seq<(Seq<char>, JsonV)>, colors: bool) -> Seq<LineV> {
    if colors {
        seq![LineV::Text("\n# Theme Colors"@), LineV::Text("[color]"@)] + color_lines(d)
    } else {
        Seq::empty()
    }
}

pub open spec fn override_part(t: Seq<OverrideV>, additions: bool) -> Seq<LineV> {
    if additions {
        seq![LineV::Text("\n# Overrides"@), LineV::Text("[overrides]"@)] + override_lines(t)
    } else {
        Seq::empty()
    }
}

pub open spec fn deletion_part(dl: Seq<Seq<KeyView>>, deletions: bool) -> Seq<LineV> {
    if deletions {
        seq![LineV::Text("\n# Deletions"@), LineV::Text("[deletions]"@), LineV::Text("keys = ["@)]
            + deletion_lines(dl) + seq![LineV::Text("]"@)]
    } else {
        Seq::empty()
    }
}

pub open spec fn toml_plan(
    d: Seq<(Seq<char>, JsonV)>,
    t: Seq<OverrideV>,
    dl: Seq<Seq<KeyView>>,
    colors: bool,
    additions: bool,
    deletions: bool,
) -> Seq<LineV> {
    seq![LineV::Text("# Reverse Generation Tool Version 3.0"@)] + top_lines(d) + color_part(d, colors)
        + section_lines(d) + override_part(t, additions) + deletion_part(dl, deletions)
}

fn push_overrides(out: &mut Vec<TomlLine>, t: &Vec<(String, String, Json)>)
    ensures
        lines_view(final(out)@) == lines_view(old(out)@) + override_lines(ov_view(t@)),
{
    let ghost pre = lines_view(out@);
    let ghost ol = override_lines(ov_view(t@));
    for i in 0..t.len()
        invariant
            ol == override_lines(ov_view(t@)),
            lines_view(out@) == pre + ol.take(i as int),
    {
        let mut k: Vec<char> = Vec::new();
        k.push('"');
        append_chars(&mut k, &chars_of(t[i].1.as_str()));
        k.push('"');
        let v = into_toml(&t[i].2);
        assert(k@ =~= quoted(t@[i as int].1@));
        push_line(out, TomlLine::Entry(string_of(&k), v));
        assert(ol.take(i + 1) =~= ol.take(i as int).push(ol[i as int]));
        assert(lines_view(out@) =~= pre + ol.take(i + 1));
    }
    assert(ol.take(t.len() as int) =~= ol);
}

fn push_deletions(out: &mut Vec<TomlLine>, ps: &Vec<JSPath>)
    ensures
        lines_view(final(out)@) == lines_view(old(out)@) + deletion_lines(paths_view(ps@)),
{
    let ghost pre = lines_view(out@);
    let ghost dl = deletion_lines(paths_view(ps@));
    let n = ps.len();
    for i in 0..n
        invariant
            n == ps@.len(),
            dl == deletion_lines(paths_view(ps@)),
            lines_view(out@) == pre + dl.take(i as int),
    {
        let mut k: Vec<char> = Vec::new();
        k.push('\t');
        k.push('"');
        append_chars(&mut k, &chars_of(ps[i].to_string().as_str()));
        k.push('"');
        if i != n - 1 {
            k.push(',');
        }
        assert(k@ =~= seq!['\t'] + quoted(path_text(ps@[i as int]@)) + if i == n - 1 {
            Seq::<char>::empty()
        } else {
            seq![',']
        });
        push_line(out, TomlLine::Text(string_of(&k)));
        assert(dl.take(i + 1) =~= dl.take(i as int).push(dl[i as int]));
        assert(lines_view(out@) =~= pre + dl.take(i + 1));
    }
    assert(dl.take(n as int) =~= dl);
}

/// The lines of the variable file for the grouped variables, the overrides
/// and the deletions (see `toml_plan`), with the overrides ordered by name
/// and the deletions listed once each in their order.
#[verifier::rlimit(40)]
pub fn generate_toml_string(
    variables: &Json,
    overrides: &VariableSet,
    deletions: &Vec<JSPath>,
    flags: &ReverseSettings,
) -> (r: Vec<TomlLine>)
    requires
        jview(*variables) is Object,
        overrides.wf(),
        flags.generate_colors ==> color_is_table(toml_ready(jview(*variables))->Object_0),
    ensures
        exists|t: Seq<OverrideV>, dl: Seq<Seq<KeyView>>|
            #![trigger by_name(t, overrides_view(overrides@)), deletion_order(dl, paths_view(deletions@))]
            by_name(t, overrides_view(overrides@)) && deletion_order(dl, paths_view(deletions@))
                && lines_view(r@) == toml_plan(
                toml_ready(jview(*variables))->Object_0,
                t,
                dl,
                flags.generate_colors,
                flags.generate_additions,
                flags.generate_deletions,
            ),
{
    let data = into_toml(variables);
    let mut out: Vec<TomlLine> = Vec::new();
    match &data {
        Json::Object(d) => {
            let ghost dv = jentries(d@);
            assert(dv == toml_ready(jview(*variables))->Object_0);
            text_line(&mut out, "# Reverse Generation Tool Version 3.0");
            let ghost l0 = lines_view(out@);
            push_top(&mut out, d);
            let ghost l1 = lines_view(out@);
            if flags.generate_colors {
                text_line(&mut out, "\n# Theme Colors");
                text_line(&mut out, "[color]");
                push_colors(&mut out, d);
            }
            let ghost l2 = lines_view(out@);
            assert(l2 =~= l1 + color_part(dv, flags.generate_colors));
            push_sections(&mut out, d);
            let ghost l3 = lines_view(out@);
            let sorted = sorted_overrides(overrides);
            let ghost t = ov_view(sorted@);
            if flags.generate_additions {
                text_line(&mut out, "\n# Overrides");
                text_line(&mut out, "[overrides]");
                push_overrides(&mut out, &sorted);
            }
            let ghost l4 = lines_view(out@);
            assert(l4 =~= l3 + override_part(t, flags.generate_additions));
            let dels = ordered_deletions(deletions);
            let ghost dl = paths_view(dels@);
            if flags.generate_deletions {
                text_line(&mut out, "\n# Deletions");
                text_line(&mut out, "[deletions]");
                text_line(&mut out, "keys = [");
                push_deletions(&mut out, &dels);
                text_line(&mut out, "]");
            }
            let ghost l5 = lines_view(out@);
            assert(l5 =~= l4 + deletion_part(dl, flags.generate_deletions));
            assert(lines_view(out@) =~= toml_plan(
                dv,
                t,
                dl,
                flags.generate_colors,
                flags.generate_additions,
                flags.generate_deletions,
            ));
        },
        _ => {
            assert(false);
        },
    }
    out
}


/// The text of one line of a variable file, `t` being the TOML text of its
/// value: literal text as it is, `key = value`, or a tab, the value and, if
/// flagged, a comma; then a new line.
pub open spec fn line_text(l: TomlLine, t: Seq<char>) -> Seq<char> {
    match l {
        TomlLine::Text(s) => s@ + seq!['\n'],
        TomlLine::Entry(k, _) => k@ + seq![' ', '=', ' '] + t + seq!['\n'],
        TomlLine::Item(_, c) => seq!['\t'] + t + (if c {
            seq![',']
        } else {
            Seq::empty()
        }) + seq!['\n'],
    }
}

/// The text of the lines, each with the TOML text of its value.
pub open spec fn lines_text(ls: Seq<TomlLine>, ts: Seq<Seq<char>>) -> Seq<char>
    decreases ls.len(),
{
    if ls.len() == 0 || ts.len() != ls.len() {
        Seq::empty()
    } else {
        lines_text(ls.drop_last(), ts.drop_last()) + line_text(ls.last(), ts.last())
    }
}

/// The text of a variable file from its lines; `texts[i]` is the TOML text
/// of the value of line `i` (unused for literal text).
pub fn render_lines(lines: &Vec<TomlLine>, texts: &Vec<String>) -> (r: String)
    requires
        texts@.len() == lines@.len(),
    ensures
        r@ == lines_text(lines@, texts@.map_values(|s: String| s@)),
{
    let ghost ts = texts@.map_values(|s: String| s@);
    let mut doc: Vec<char> = Vec::new();
    for i in 0..lines.len()
        invariant
            texts@.len() == lines@.len(),
            ts == texts@.map_values(|s: String| s@),
            doc@ == lines_text(lines@.take(i as int), ts.take(i as int)),
    {
        proof {
            assert(lines@.take(i + 1).drop_last() =~= lines@.take(i as int));
            assert(ts.take(i + 1).drop_last() =~= ts.take(i as int));
            assert(lines@.take(i + 1).last() == lines@[i as int]);
            assert(ts.take(i + 1).last() == texts@[i as int]@);
        }
        let ghost d0 = doc@;
        match &lines[i] {
            TomlLine::Text(t) => {
                append_chars(&mut doc, &chars_of(t.as_str()));
            },
            TomlLine::Entry(k, _) => {
                append_chars(&mut doc, &chars_of(k.as_str()));
                doc.push(' ');
                doc.push('=');
                doc.push(' ');
                append_chars(&mut doc, &chars_of(texts[i].as_str()));
            },
            TomlLine::Item(_, comma) => {
                doc.push('\t');
                append_chars(&mut doc, &chars_of(texts[i].as_str()));
                if *comma {
                    doc.push(',');
                }
            },
        }
        doc.push('\n');
        assert(doc@ =~= d0 + line_text(lines@[i as int], texts@[i as int]@));
    }
    assert(lines@.take(lines@.len() as int) =~= lines@);
    assert(ts.take(lines@.len() as int) =~= ts);
    string_of(&doc)
}

} // verus!

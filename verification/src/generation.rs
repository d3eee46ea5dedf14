//! Generating themes from a template and variable files: one theme per
//! file, or, from an inner path, one theme holding them all.
use vstd::prelude::*;
use crate::text::{chars_of, string_of, append_chars, eq_str};
use crate::color::ColorSpace;
use crate::json::{Json, JsonV, jview, jviews, JSPath, KeyView, parse_path, traverse_spec, pave_spec};
use crate::parsing::strings_view;
use crate::generate::{
    gen, gen_ok, self_resolved, resolved_rel, steps_result, result_view, MAX_RECURSION_DEPTH, Flags,
    path_view,
};
use crate::args::ProgramError;

verus! {

/// The variables after resolving their references to themselves.
pub open spec fn resolved_vars(vars: JsonV) -> JsonV {
    self_resolved(vars, seq![seq!['$']], MAX_RECURSION_DEPTH as nat)
}

/// `r` is what generating from the template `t` with the variables `vars`
/// gives (see `gen`).
pub open spec fn gen_outcome(t: JsonV, vars: JsonV, r: Result<JsonV, ()>) -> bool {
    exists|v: JsonV|
        #[trigger] resolved_rel(resolved_vars(vars), resolved_vars(vars), Seq::empty(), MAX_RECURSION_DEPTH as nat, v)
            && steps_result(t, v, r)
}

/// The file a generated theme is written to: its `name` text when the name
/// was left at its default and the theme has one, else the name given.
pub open spec fn theme_file_name(m: JsonV, name: Seq<char>) -> Seq<char> {
    if name == "generated-theme"@ && traverse_spec(m, parse_path("/name"@)) is Some {
        traverse_spec(m, parse_path("/name"@))->0->Str_0 + ".json"@
    } else {
        name + ".json"@
    }
}

/// The generated theme has a `name` entry that is no text, where one was
/// to name the file.
pub open spec fn name_unreadable(m: JsonV, name: Seq<char>) -> bool {
    &&& name == "generated-theme"@
    &&& traverse_spec(m, parse_path("/name"@)) matches Some(x) && !(x is Str)
}

/// The name of the file a generated theme is written to (see
/// `theme_file_name`); an error where the theme's `name` is no text.
pub fn output_file_name(m: &Json, flags: &Flags) -> (r: Result<String, ProgramError>)
    ensures
        name_unreadable(jview(*m), flags.name@) <==> r is Err,
        r matches Ok(n) ==> n@ == theme_file_name(jview(*m), flags.name@),
{
    let mut n = chars_of(flags.name.as_str());
    if eq_str(&n, "generated-theme") {
        let p = match JSPath::from_str("/name") {
            Ok(p) => p,
            Err(_) => JSPath::new(),
        };
        match p.traverse(m) {
            Ok(Json::String(s)) => {
                n = chars_of(s.as_str());
            },
            Ok(_) => {
                return Err(ProgramError::Processing(String::from_str("The theme's name is not a string.")));
            },
            Err(_) => {},
        }
    }
    append_chars(&mut n, &chars_of(".json"));
    Ok(string_of(&n))
}

/// Generating from `t` with the variables `vars` can fail: the generation
/// itself fails, or the theme it gives has a `name` that is no text where
/// one was to name the file.
pub open spec fn file_fails(t: JsonV, vars: JsonV, name: Seq<char>) -> bool {
    gen_outcome(t, vars, Err(())) || exists|m: JsonV| #[trigger] gen_outcome(t, vars, Ok(m)) && name_unreadable(m, name)
}

/// Filling what is at the inner path can fail: an index out of range in
/// the path, a part that does not generate, or, with every part generated,
/// paving that fails or a `name` that is no text.
pub open spec fn inner_fails(t: JsonV, p: Seq<KeyView>, first: JsonV, vars: Seq<JsonV>, name: Seq<char>) -> bool {
    ||| !crate::json::indices_bounded(p)
    ||| exists|i: int| 0 <= i < vars.len() && #[trigger] gen_outcome(first, vars[i], Err(()))
    ||| exists|parts: Seq<JsonV>|
        #![trigger pave_spec(t, p, JsonV::Array(parts))]
        parts.len() == vars.len() && (forall|i: int| 0 <= i < parts.len() ==> gen_outcome(first, vars[i], Ok(#[trigger] parts[i])))
            && match pave_spec(t, p, JsonV::Array(parts)) {
            None => true,
            Some(full) => name_unreadable(full, name),
        }
}

/// Inputs on which generating panics: from an inner path, an object with
/// variable files to fill it (an object cannot be indexed by number), or
/// an empty array (no template to take).
pub open spec fn start_panics(t: JsonV, p: Option<Seq<KeyView>>, n: int) -> bool {
    match p {
        Some(q) => match traverse_spec(t, q) {
            Some(JsonV::Object(_)) => n > 0,
            Some(JsonV::Array(a)) => a.len() == 0,
            _ => false,
        },
        None => false,
    }
}

/// What generating gives (see `generate_themes`).
pub open spec fn gen_themes_outcome(
    template: JsonV,
    variables: Seq<Json>,
    flags: Flags,
    r: Result<Vec<(Json, String, bool)>, ProgramError>,
) -> bool {
    &&& flags.path is None ==> (r is Err ==> exists|i: int|
        0 <= i < variables.len() && file_fails(template, jview(#[trigger] variables[i]), flags.name@))
    &&& flags.path matches Some(p) ==> (traverse_spec(template, p@) matches Some(JsonV::Array(a)) ==> (r is Err
        ==> inner_fails(template, p@, a[0], jviews(variables), flags.name@)))
    &&& flags.path matches Some(p) ==> (traverse_spec(template, p@) matches Some(JsonV::Object(_)) ==> (r is Ok
        <==> crate::json::indices_bounded(p@) && (pave_spec(template, p@, JsonV::Object(Seq::empty()))
        matches Some(full) && !name_unreadable(full, flags.name@))))
    &&& match flags.path {
        None => r matches Ok(outs) ==> outs@.len() == variables.len() && forall|i: int|
            0 <= i < outs@.len() ==> gen_outcome(template, jview(variables[i]), Ok(jview((#[trigger] outs@[i]).0)))
                && outs@[i].1@ == theme_file_name(jview(outs@[i].0), flags.name@) && outs@[i].2 == !flags.replace_name,
        Some(p) => match traverse_spec(template, p@) {
            None => r matches Err(ProgramError::Processing(m)) && m@ == "Invalid starting path."@,
            Some(JsonV::Array(a)) => r matches Ok(outs) ==> outs@.len() == 1 && exists|parts: Seq<JsonV>|
                #![trigger pave_spec(template, p@, JsonV::Array(parts))]
                parts.len() == variables.len() && (forall|i: int|
                    0 <= i < parts.len() ==> gen_outcome(a[0], jview(variables[i]), Ok(#[trigger] parts[i])))
                    && pave_spec(template, p@, JsonV::Array(parts)) == Some(jview(outs@[0].0))
                    && outs@[0].1@ == theme_file_name(jview(outs@[0].0), flags.name@) && !outs@[0].2,
            Some(JsonV::Object(_)) => r matches Ok(outs) ==> outs@.len() == 1 && pave_spec(
                template,
                p@,
                JsonV::Object(Seq::empty()),
            ) == Some(jview(outs@[0].0)) && outs@[0].1@ == theme_file_name(jview(outs@[0].0), flags.name@)
                && !outs@[0].2,
            _ => r matches Err(ProgramError::Processing(m)) && m@ == "Starting path must be an object or array."@,
        },
    }
}

/// The themes generated from a template and the variables of each variable
/// file, each with the name of its file and whether a fresh name is to be
/// found when that file exists.
///
/// Without an inner path, each variable file gives its own theme. With
/// one, the template's first entry at that path is filled from each file
/// in turn, and the results, in order, replace what is at that path.
pub fn generate_themes<S: ColorSpace>(template: &Json, variables: &Vec<Json>, flags: &Flags, space: &S) -> (r: Result<
    Vec<(Json, String, bool)>,
    ProgramError,
>)
    requires
        forall|i: int| 0 <= i < variables@.len() ==> gen_ok(resolved_vars(jview(#[trigger] variables@[i]))),
        !start_panics(jview(*template), path_view(flags.path), variables@.len() as int),
    ensures
        gen_themes_outcome(jview(*template), variables@, *flags, r),
{
    let mut outs: Vec<(Json, String, bool)> = Vec::new();
    match &flags.path {
        None => {
            for i in 0..variables.len()
                invariant
                    flags.path is None,
                    forall|i: int| 0 <= i < variables@.len() ==> gen_ok(resolved_vars(jview(#[trigger] variables@[i]))),
                    outs@.len() == i,
                    forall|k: int|
                        0 <= k < i ==> gen_outcome(jview(*template), jview(variables@[k]), Ok(jview((#[trigger] outs@[k]).0)))
                            && outs@[k].1@ == theme_file_name(jview(outs@[k].0), flags.name@) && outs@[k].2
                            == !flags.replace_name,
            {
                assert(gen_ok(resolved_vars(jview(variables@[i as int]))));
                let m = match gen(template.clone(), &variables[i], space) {
                    Ok(m) => m,
                    Err(e) => {
                        assert(file_fails(jview(*template), jview(variables@[i as int]), flags.name@));
                        return Err(e);
                    },
                };
                assert(gen_outcome(jview(*template), jview(variables@[i as int]), Ok(jview(m))));
                let name = match output_file_name(&m, flags) {
                    Ok(n) => n,
                    Err(e) => {
                        assert(file_fails(jview(*template), jview(variables@[i as int]), flags.name@));
                        return Err(e);
                    },
                };
                let ghost o0 = outs@;
                outs.push((m, name, !flags.replace_name));
                assert forall|k: int|
                    0 <= k < i + 1 implies gen_outcome(jview(*template), jview(variables@[k]), Ok(jview((#[trigger] outs@[k]).0)))
                        && outs@[k].1@ == theme_file_name(jview(outs@[k].0), flags.name@) && outs@[k].2
                        == !flags.replace_name by {
                    if k < i {
                        assert(outs@[k] == o0[k]);
                    }
                }
            }
            Ok(outs)
        },
        Some(p) => {
            let start = match p.traverse(template) {
                Ok(s) => s,
                Err(_) => {
                    return Err(ProgramError::Processing(String::from_str("Invalid starting path.")));
                },
            };
            let mut parts: Vec<Json> = Vec::new();
            let ghost mut fv0: JsonV = JsonV::Null;
            let is_array = match start {
                Json::Array(a) => {
                    let first = &a[0];
                    let ghost fv = jview(*first);
                    proof {
                        fv0 = fv;
                        assert(traverse_spec(jview(*template), p@)->0->Array_0[0] == fv);
                    }
                    for i in 0..variables.len()
                        invariant
                            flags.path matches Some(q) && q@ == p@,
                            traverse_spec(jview(*template), p@) == Some(jview(*start)),
                            jview(*start) is Array,
                            forall|i: int| 0 <= i < variables@.len() ==> gen_ok(resolved_vars(jview(#[trigger] variables@[i]))),
                            jview(*first) == fv,
                            traverse_spec(jview(*template), p@)->0->Array_0[0] == fv,
                            parts@.len() == i,
                            forall|k: int| 0 <= k < i ==> gen_outcome(fv, jview(variables@[k]), Ok(#[trigger] jview(parts@[k]))),
                    {
                        assert(gen_ok(resolved_vars(jview(variables@[i as int]))));
                        let m = match gen(first.clone(), &variables[i], space) {
                            Ok(m) => m,
                            Err(e) => {
                                proof {
                                    assert(jviews(variables@)[i as int] == jview(variables@[i as int]));
                                    assert(gen_outcome(fv, jviews(variables@)[i as int], Err(())));
                                }
                                return Err(e);
                            },
                        };
                        assert(gen_outcome(fv, jview(variables@[i as int]), Ok(jview(m))));
                        let ghost p0 = parts@;
                        parts.push(m);
                        assert forall|k: int| 0 <= k < i + 1 implies gen_outcome(fv, jview(variables@[k]), Ok(#[trigger] jview(parts@[k]))) by {
                            if k < i {
                                assert(parts@[k] == p0[k]);
                            }
                        }
                    }
                    assert(forall|k: int| 0 <= k < parts@.len() ==> gen_outcome(fv0, jview(variables@[k]), Ok(#[trigger] jview(parts@[k]))));
                    true
                },
                Json::Object(_) => false,
                _ => {
                    return Err(ProgramError::Processing(String::from_str("Starting path must be an object or array.")));
                },
            };
            let ghost pv = parts@;
            let data = if is_array {
                Json::Array(parts)
            } else {
                Json::Object(Vec::new())
            };
            let ghost dv = jview(data);
            proof {
                if is_array {
                    let parts_v = dv->Array_0;
                    let a = traverse_spec(jview(*template), p@)->0->Array_0;
                    assert(a[0] == fv0);
                    assert(parts_v.len() == jviews(variables@).len());
                    assert forall|i: int| 0 <= i < parts_v.len() implies gen_outcome(a[0], jviews(variables@)[i], Ok(#[trigger] parts_v[i])) by {
                        assert(parts_v[i] == jview(pv[i]));
                        assert(jviews(variables@)[i] == jview(variables@[i]));
                    }
                    assert(dv == JsonV::Array(parts_v));
                } else {
                    assert(crate::json::jentries(Seq::<(String, Json)>::empty()) =~= Seq::<(Seq<char>, JsonV)>::empty());
                    assert(dv == JsonV::Object(Seq::empty()));
                }
            }
            let mut full = template.clone();
            if !crate::generate::indices_ok(p) {
                return Err(ProgramError::Processing(String::from_str("Invalid starting path.")));
            }
            match p.pave(&mut full, data) {
                Ok(()) => {},
                Err(e) => {
                    return Err(e);
                },
            }
            let name = match output_file_name(&full, flags) {
                Ok(n) => n,
                Err(e) => {
                    return Err(e);
                },
            };
            outs.push((full, name, false));
            proof {
                if is_array {
                    let parts_v = dv->Array_0;
                    assert(parts_v.len() == variables@.len());
                    let a = traverse_spec(jview(*template), p@)->0->Array_0;
                    assert(a[0] == fv0);
                    assert forall|i: int| 0 <= i < parts_v.len() implies gen_outcome(a[0], jview(variables@[i]), Ok(#[trigger] parts_v[i])) by {
                        assert(parts_v[i] == jview(pv[i]));
                    }
                    assert(pave_spec(jview(*template), p@, JsonV::Array(parts_v)) == Some(jview(outs@[0].0)));
                } else {
                    assert(crate::json::jentries(Seq::<(String, Json)>::empty()) =~= Seq::<(Seq<char>, JsonV)>::empty());
                    assert(dv == JsonV::Object(Seq::empty()));
                }
            }
            Ok(outs)
        },
    }
}


/// Tells whether generating would panic at the inner path (see
/// `start_panics`), which `generate_themes` does not take.
pub fn start_would_panic(template: &Json, flags: &Flags, n: usize) -> (r: bool)
    ensures
        r == start_panics(jview(*template), path_view(flags.path), n as int),
{
    match &flags.path {
        Some(p) => match p.traverse(template) {
            Ok(Json::Object(_)) => n > 0,
            Ok(Json::Array(a)) => a.len() == 0,
            _ => false,
        },
        None => false,
    }
}

/// Tells whether a variable file's values can be used to generate (see
/// `gen_ok`), which `generate_themes` needs of each.
pub fn variables_usable<S: ColorSpace>(vars: &Json, space: &S) -> (r: bool)
    ensures
        r == gen_ok(resolved_vars(jview(*vars))),
{
    let mut dollar = String::new();
    crate::text::push_char(&mut dollar, '$');
    let mut root: Vec<String> = Vec::new();
    root.push(dollar);
    assert(strings_view(root@) =~= seq![seq!['$']]);
    let v = crate::generate::resolve_self_variables(vars, &root, MAX_RECURSION_DEPTH);
    crate::generate::gen_ok_exec(&v, space)
}

} // verus!

//! The texts of theme, template and variable files: reading them into the
//! library's JSON values and writing values back as text.
use vstd::prelude::*;
use crate::text::{chars_of, string_of, append_chars, starts_with};
use crate::color::ColorSpace;
use crate::json::{Json, JsonV, jview};
use crate::args::ProgramError;
use crate::reverse::{ReverseSettings, source_ok};
use crate::rebuild::{reverse, reverse_outcome, empty_template_array, path_of, source_ok_exec, template_array_empty};
use crate::toml_out::{TomlLine, lines_text, render_lines};
use crate::parsing::{json_ok, json_ok_exec};
use crate::generate::{Flags, gen_ok, path_view};
use crate::generation::{
    generate_themes, gen_themes_outcome, resolved_vars, start_panics, start_would_panic, variables_usable,
};
use crate::json::{jviews, traverse_spec};

verus! {

#[verifier::external_type_specification]
#[verifier::external_body]
pub struct ExJsonValue(serde_json::Value);

/// A `serde_json` value as the library's JSON value, variant by variant.
#[verifier::external_body]
fn json_of(v: &serde_json::Value) -> Json {
    match v {
        serde_json::Value::Null => Json::Null,
        serde_json::Value::Bool(b) => Json::Bool(*b),
        serde_json::Value::Number(n) => Json::Number(n.to_string()),
        serde_json::Value::String(s) => Json::String(s.clone()),
        serde_json::Value::Array(a) => Json::Array(a.iter().map(json_of).collect()),
        serde_json::Value::Object(o) => Json::Object(o.iter().map(|(k, x)| (k.clone(), json_of(x))).collect()),
    }
}

/// The library's JSON value as a `serde_json` value, variant by variant (a
/// number text that does not read as a number becomes null).
#[verifier::external_body]
fn value_of(j: &Json) -> serde_json::Value {
    match j {
        Json::Null => serde_json::Value::Null,
        Json::Bool(b) => serde_json::Value::Bool(*b),
        Json::Number(n) => serde_json::from_str(n).unwrap_or(serde_json::Value::Null),
        Json::String(s) => serde_json::Value::String(s.clone()),
        Json::Array(a) => serde_json::Value::Array(a.iter().map(value_of).collect()),
        Json::Object(o) => serde_json::Value::Object(o.iter().map(|(k, x)| (k.clone(), value_of(x))).collect()),
    }
}

/// The JSON value `serde_json` reads from a text, as the library holds it;
/// `None` where the text is no JSON document.
pub uninterp spec fn json_text_value(t: Seq<char>) -> Option<JsonV>;

/// `serde_json::from_str` into a `serde_json::Value`, converted to the
/// library's JSON value. What the text reads as is only named here; an
/// error comes back as its message.
#[verifier::external_body]
fn parse_json(text: &str) -> (r: Result<Json, String>)
    ensures
        match r {
            Ok(j) => json_text_value(text@) == Some(jview(j)),
            Err(_) => json_text_value(text@) is None,
        },
{
    match serde_json::from_str::<serde_json::Value>(text) {
        Ok(v) => Ok(json_of(&v)),
        Err(e) => Err(e.to_string()),
    }
}

/// The JSON value a TOML text reads as (`toml::from_str` into a
/// `toml::Value`, then `serde_json::to_value`); `None` where either fails.
pub uninterp spec fn toml_text_value(t: Seq<char>) -> Option<JsonV>;

/// `toml::from_str` into a `toml::Value`, then `serde_json::to_value`,
/// converted to the library's JSON value. What the text reads as is only
/// named here; an error comes back as its message.
#[verifier::external_body]
fn parse_toml(text: &str) -> (r: Result<Json, String>)
    ensures
        match r {
            Ok(j) => toml_text_value(text@) == Some(jview(j)),
            Err(_) => toml_text_value(text@) is None,
        },
{
    match toml::from_str::<toml::Value>(text) {
        Ok(t) => match serde_json::to_value(t) {
            Ok(v) => Ok(json_of(&v)),
            Err(e) => Err(e.to_string()),
        },
        Err(e) => Err(e.to_string()),
    }
}

/// The TOML text `toml` writes for a JSON value (read as a `toml::Value`
/// through `serde_json::from_value`); `None` where it is no TOML value.
pub uninterp spec fn toml_text_of(v: JsonV) -> Option<Seq<char>>;

/// `serde_json::from_value` into a `toml::Value`, then its `Display` text.
/// The text is only named here; an error comes back as its message.
#[verifier::external_body]
fn toml_value_text(v: &Json) -> (r: Result<String, String>)
    ensures
        match r {
            Ok(t) => toml_text_of(jview(*v)) == Some(t@),
            Err(_) => toml_text_of(jview(*v)) is None,
        },
{
    match serde_json::from_value::<toml::Value>(value_of(v)) {
        Ok(t) => Ok(t.to_string()),
        Err(e) => Err(e.to_string()),
    }
}

/// The text `serde_json::to_string_pretty` writes for a JSON value.
pub uninterp spec fn json_pretty_of(v: JsonV) -> Seq<char>;

/// `serde_json::to_string_pretty` of the value. Writing a `serde_json`
/// value cannot fail (its keys are texts); the text is only named here.
#[verifier::external_body]
fn json_pretty(v: &Json) -> (r: String)
    ensures
        r@ == json_pretty_of(jview(*v)),
{
    serde_json::to_string_pretty(&value_of(v)).unwrap_or_default()
}

/// The TOML text of the value a line holds (empty for literal text).
pub open spec fn line_value_text(l: TomlLine) -> Option<Seq<char>> {
    match l {
        TomlLine::Text(_) => Some(Seq::empty()),
        TomlLine::Entry(_, v) => toml_text_of(jview(v)),
        TomlLine::Item(v, _) => toml_text_of(jview(v)),
    }
}

/// Every value of the lines has a TOML text.
pub open spec fn lines_writable(ls: Seq<TomlLine>) -> bool {
    forall|i: int| 0 <= i < ls.len() ==> #[trigger] line_value_text(ls[i]) is Some
}

/// The text of a variable file with the given lines.
pub open spec fn file_text(ls: Seq<TomlLine>) -> Seq<char> {
    lines_text(ls, ls.map_values(|l: TomlLine| line_value_text(l)->0))
}

/// `out` holds the texts of the files: the same names, each file's lines
/// written out.
pub open spec fn files_written(files: Seq<(String, Vec<TomlLine>)>, out: Seq<(String, String)>) -> bool {
    &&& out.len() == files.len()
    &&& forall|i: int|
        0 <= i < files.len() ==> (#[trigger] out[i]).0@ == files[i].0@ && out[i].1@ == file_text(files[i].1@)
}

/// The text of a variable file from its lines.
fn write_lines(lines: &Vec<TomlLine>) -> (r: Result<String, ProgramError>)
    ensures
        r is Ok <==> lines_writable(lines@),
        r matches Ok(t) ==> t@ == file_text(lines@),
        r matches Err(e) ==> e matches ProgramError::Processing(m) && starts_with(m@, "Could not generate toml output: "@),
{
    let mut texts: Vec<String> = Vec::new();
    for i in 0..lines.len()
        invariant
            texts@.len() == i,
            forall|k: int| 0 <= k < i ==> line_value_text(#[trigger] lines@[k]) == Some(texts@[k]@),
    {
        let t = match &lines[i] {
            TomlLine::Text(_) => String::new(),
            TomlLine::Entry(_, v) | TomlLine::Item(v, _) => match toml_value_text(v) {
                Ok(t) => t,
                Err(_) => {
                    let m = String::from_str("Could not generate toml output: a value has no TOML form\nThis is probably indicative of needing to use the -p inner path");
                    proof {
                        reveal_strlit("Could not generate toml output: a value has no TOML form\nThis is probably indicative of needing to use the -p inner path");
                        reveal_strlit("Could not generate toml output: ");
                        assert(m@.take("Could not generate toml output: "@.len() as int) =~= "Could not generate toml output: "@);
                    }
                    return Err(ProgramError::Processing(m));
                },
            },
        };
        texts.push(t);
    }
    let r = render_lines(lines, &texts);
    proof {
        let ts = texts@.map_values(|s: String| s@);
        assert(ts =~= lines@.map_values(|l: TomlLine| line_value_text(l)->0));
    }
    Ok(r)
}

/// Writes each reversed file's lines as text.
fn write_files(files: &Vec<(String, Vec<TomlLine>)>) -> (r: Result<Vec<(String, String)>, ProgramError>)
    ensures
        r is Ok <==> forall|i: int| 0 <= i < files@.len() ==> lines_writable((#[trigger] files@[i]).1@),
        r matches Ok(out) ==> files_written(files@, out@),
        r matches Err(e) ==> e matches ProgramError::Processing(m) && starts_with(m@, "Could not generate toml output: "@),
{
    let mut out: Vec<(String, String)> = Vec::new();
    for i in 0..files.len()
        invariant
            out@.len() == i,
            forall|k: int| 0 <= k < i ==> lines_writable((#[trigger] files@[k]).1@),
            forall|k: int|
                0 <= k < i ==> (#[trigger] out@[k]).0@ == files@[k].0@ && out@[k].1@ == file_text(files@[k].1@),
    {
        let t = write_lines(&files[i].1)?;
        out.push((files[i].0.clone(), t));
    }
    Ok(out)
}

/// What reversing the texts of a theme and its template gives: an error
/// naming the text that is no JSON; `None` where the theme or template
/// holds a change that cannot be applied or no template to reverse from
/// (inputs on which reversing panics); else the reversed files, each
/// written as text (see `reverse_outcome`, `files_written`).
pub open spec fn reverse_texts_outcome(
    theme: Seq<char>,
    template: Seq<char>,
    flags: ReverseSettings,
    r: Result<Option<Vec<(String, String)>>, ProgramError>,
) -> bool {
    match (json_text_value(theme), json_text_value(template)) {
        (None, _) => r matches Err(ProgramError::Processing(m)) && starts_with(m@, "Invalid theme file json: "@),
        (Some(_), None) => r matches Err(ProgramError::Processing(m)) && starts_with(
            m@,
            "Invalid template file json: "@,
        ),
        (Some(h), Some(t)) => if !source_ok(h) || !source_ok(t) || empty_template_array(h, t, path_of(flags)) {
            r matches Ok(None)
        } else {
            exists|rv: Result<Vec<(String, Vec<TomlLine>)>, ProgramError>|
                #[trigger] reverse_outcome(h, t, flags, rv) && match rv {
                    Err(e) => r == Err::<Option<Vec<(String, String)>>, ProgramError>(e),
                    Ok(files) => if forall|i: int| 0 <= i < files@.len() ==> lines_writable((#[trigger] files@[i]).1@) {
                        r matches Ok(Some(out)) && files_written(files@, out@)
                    } else {
                        r matches Err(ProgramError::Processing(m)) && starts_with(
                            m@,
                            "Could not generate toml output: "@,
                        )
                    },
                }
        },
    }
}

/// Reverses the texts of a theme and its template into the texts of the
/// variable files, by name.
pub fn reverse_texts<S: ColorSpace>(theme: &str, template: &str, flags: &ReverseSettings, space: &S) -> (r: Result<
    Option<Vec<(String, String)>>,
    ProgramError,
>)
    ensures
        reverse_texts_outcome(theme@, template@, *flags, r),
{
    let h = match parse_json(theme) {
        Ok(h) => h,
        Err(e) => {
            return Err(prefixed("Invalid theme file json: ", &e));
        },
    };
    let t = match parse_json(template) {
        Ok(t) => t,
        Err(e) => {
            return Err(prefixed("Invalid template file json: ", &e));
        },
    };
    if !source_ok_exec(&h, space) || !source_ok_exec(&t, space) || template_array_empty(&h, &t, flags) {
        return Ok(None);
    }
    let rv = reverse(&h, &t, flags, space);
    match rv {
        Err(e) => Err(e),
        Ok(files) => {
            let out = write_files(&files);
            proof {
                assert(reverse_outcome(jview(h), jview(t), *flags, Ok::<Vec<(String, Vec<TomlLine>)>, ProgramError>(files)));
            }
            match out {
                Ok(o) => Ok(Some(o)),
                Err(e) => Err(e),
            }
        },
    }
}

/// A `Processing` error: the prefix, then the message.
fn prefixed(prefix: &str, m: &String) -> (r: ProgramError)
    ensures
        r matches ProgramError::Processing(x) && x@ == prefix@ + m@ && starts_with(x@, prefix@),
{
    let mut v = chars_of(prefix);
    append_chars(&mut v, &chars_of(m.as_str()));
    assert(v@.take(prefix@.len() as int) =~= prefix@);
    ProgramError::Processing(string_of(&v))
}

/// What reading the texts of two themes to compare gives: the format of the
/// first text that is no JSON as an error; `None` where a theme holds a
/// change that cannot be applied (comparing then panics); else the two
/// values.
pub open spec fn check_texts_outcome(
    t1: Seq<char>,
    t2: Seq<char>,
    f1: Seq<char>,
    f2: Seq<char>,
    r: Result<Option<(Json, Json)>, ProgramError>,
) -> bool {
    match (json_text_value(t1), json_text_value(t2)) {
        (None, _) => r matches Err(ProgramError::InvalidIOFormat(f)) && f@ == f1,
        (Some(_), None) => r matches Err(ProgramError::InvalidIOFormat(f)) && f@ == f2,
        (Some(a), Some(b)) => if !json_ok(a) || !json_ok(b) {
            r matches Ok(None)
        } else {
            r matches Ok(Some(p)) && jview(p.0) == a && jview(p.1) == b
        },
    }
}

/// Reads the texts of two themes to compare (see `compare_themes`).
pub fn check_texts<S: ColorSpace>(t1: &str, t2: &str, f1: &str, f2: &str, space: &S) -> (r: Result<
    Option<(Json, Json)>,
    ProgramError,
>)
    ensures
        check_texts_outcome(t1@, t2@, f1@, f2@, r),
{
    let a = match parse_json(t1) {
        Ok(a) => a,
        Err(_) => {
            return Err(ProgramError::InvalidIOFormat(String::from_str(f1)));
        },
    };
    let b = match parse_json(t2) {
        Ok(b) => b,
        Err(_) => {
            return Err(ProgramError::InvalidIOFormat(String::from_str(f2)));
        },
    };
    if !json_ok_exec(&a, space) || !json_ok_exec(&b, space) {
        return Ok(None);
    }
    Ok(Some((a, b)))
}

/// The error generating meets at the inner path before any variable file
/// is read: no value there, or one that is neither an object nor an array.
pub open spec fn start_error(t: JsonV, p: Option<crate::json::JSPath>) -> Option<Seq<char>> {
    match p {
        Some(q) => match traverse_spec(t, q@) {
            None => Some("Invalid starting path."@),
            Some(JsonV::Object(_)) => None,
            Some(JsonV::Array(_)) => None,
            Some(_) => Some("Starting path must be an object or array."@),
        },
        None => None,
    }
}

/// Each variable text reads as TOML, giving the values `vals`.
pub open spec fn vars_read(vs: Seq<Seq<char>>, vals: Seq<JsonV>) -> bool {
    vals.len() == vs.len() && forall|i: int| 0 <= i < vs.len() ==> toml_text_value(#[trigger] vs[i]) == Some(vals[i])
}

/// What generating from the texts of a template and of variable files
/// gives: an error for a text that does not read; `None` where a variable
/// file holds a change that cannot be applied or the inner path holds no
/// template (inputs on which generating panics); else the generated themes
/// (see `gen_themes_outcome`), each written as pretty JSON text, with its
/// file name and whether a fresh name is to be found.
pub open spec fn generate_texts_outcome(
    t: Seq<char>,
    vs: Seq<Seq<char>>,
    flags: Flags,
    r: Result<Option<Vec<(String, String, bool)>>, ProgramError>,
) -> bool {
    match json_text_value(t) {
        None => r matches Err(ProgramError::Processing(m)) && starts_with(m@, "Invalid template json: "@),
        Some(tv) => match start_error(tv, flags.path) {
            Some(msg) => r matches Err(ProgramError::Processing(m)) && m@ == msg,
            None => if exists|i: int| 0 <= i < vs.len() && #[trigger] toml_text_value(vs[i]) is None {
                r matches Err(ProgramError::Processing(m)) && starts_with(m@, "Invalid variable toml: "@)
            } else {
                exists|js: Seq<Json>|
                    #[trigger] vars_read(vs, jviews(js)) && if (exists|i: int|
                        0 <= i < js.len() && !gen_ok(resolved_vars(jview(#[trigger] js[i]))))
                        || start_panics(tv, path_view(flags.path), js.len() as int) {
                        r matches Ok(None)
                    } else {
                        exists|rv: Result<Vec<(Json, String, bool)>, ProgramError>|
                            #[trigger] gen_themes_outcome(tv, js, flags, rv) && match rv {
                                Err(e) => r == Err::<Option<Vec<(String, String, bool)>>, ProgramError>(e),
                                Ok(outs) => r matches Ok(Some(texts)) && texts@.len() == outs@.len() && forall|i: int|
                                    0 <= i < outs@.len() ==> (#[trigger] texts@[i]).0@ == json_pretty_of(
                                        jview(outs@[i].0),
                                    ) && texts@[i].1@ == outs@[i].1@ && texts@[i].2 == outs@[i].2,
                            }
                    }
            },
        },
    }
}

/// Generates from the texts of a template and of variable files (see
/// `generate_themes`): the themes as pretty JSON text, with their file
/// names.
pub fn generate_texts<S: ColorSpace>(template: &str, vars: &Vec<String>, flags: &Flags, space: &S) -> (r: Result<
    Option<Vec<(String, String, bool)>>,
    ProgramError,
>)
    ensures
        generate_texts_outcome(template@, vars@.map_values(|s: String| s@), *flags, r),
{
    let ghost vs = vars@.map_values(|s: String| s@);
    let t = match parse_json(template) {
        Ok(t) => t,
        Err(e) => {
            return Err(prefixed("Invalid template json: ", &e));
        },
    };
    match &flags.path {
        Some(p) => match p.traverse(&t) {
            Ok(Json::Object(_)) => {},
            Ok(Json::Array(_)) => {},
            Ok(_) => {
                return Err(ProgramError::Processing(String::from_str("Starting path must be an object or array.")));
            },
            Err(_) => {
                return Err(ProgramError::Processing(String::from_str("Invalid starting path.")));
            },
        },
        None => {},
    }
    let mut js: Vec<Json> = Vec::new();
    for i in 0..vars.len()
        invariant
            vs == vars@.map_values(|s: String| s@),
            json_text_value(template@) == Some(jview(t)),
            start_error(jview(t), flags.path) is None,
            js@.len() == i,
            forall|k: int| 0 <= k < i ==> toml_text_value(#[trigger] vs[k]) == Some(jview(js@[k])),
    {
        match parse_toml(vars[i].as_str()) {
            Ok(v) => {
                js.push(v);
            },
            Err(e) => {
                assert(toml_text_value(vs[i as int]) is None);
                return Err(prefixed("Invalid variable toml: ", &e));
            },
        }
    }
    proof {
        assert(vars_read(vs, jviews(js@)));
    }
    let mut usable = true;
    for i in 0..js.len()
        invariant
            usable == forall|k: int| 0 <= k < i ==> gen_ok(resolved_vars(jview(#[trigger] js@[k]))),
    {
        if !variables_usable(&js[i], space) {
            usable = false;
        }
    }
    if !usable || start_would_panic(&t, flags, js.len()) {
        return Ok(None);
    }
    let rv = generate_themes(&t, &js, flags, space);
    match rv {
        Err(e) => Err(e),
        Ok(outs) => {
            let mut texts: Vec<(String, String, bool)> = Vec::new();
            for i in 0..outs.len()
                invariant
                    texts@.len() == i,
                    forall|k: int|
                        0 <= k < i ==> (#[trigger] texts@[k]).0@ == json_pretty_of(jview(outs@[k].0))
                            && texts@[k].1@ == outs@[k].1@ && texts@[k].2 == outs@[k].2,
            {
                texts.push((json_pretty(&outs[i].0), outs[i].1.clone(), outs[i].2));
            }
            Ok(Some(texts))
        },
    }
}

} // verus!

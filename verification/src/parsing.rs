//! Values and variable references read from theme and template strings.
use vstd::prelude::*;
use crate::text::{
    chars_of, string_of, append_chars, append_str, trim, trim_seq, split_seq, split_char,
    split_once, split_once_exec, is_alphabetic, unicode_alphabetic, is_hex_digit, is_ascii_hexdigit,
    char_len, char_length, skip_chars, sub_chars, chars_eq, ends_with, dec_digits, fmt_dec,
    lemma_split_first, lemma_trim_first,
};
use crate::color::{
    Color, ColorSpace, Component, Error, Operation, Operations, OpParse, parse_op, parsed_color,
    color_parse_fails, color_text_ok, changed_color, update_fails, color_eq, comp_value,
    apply_panics, no_panics, color_text_ok_exec, lists_reach, lists_view, ops_view, identity_spec,
    identity_one, op_view,
};
use crate::json::{
    Json, JsonV, jview, json_eq, potential_var, potential_var_spec, JSPath, KeyView, parse_path,
    join_text, path_text, traverse_spec, jviews, jentries,
};
use crate::args::{ProgramError, processing_error};

verus! {

/// An operation built as a parse describes.
pub open spec fn op_matches(o: Operation, p: OpParse) -> bool {
    match p {
        OpParse::HexAppend(h) => o.0 matches Component::Hex(x) && x@ == h && o.1@ == seq!['.'],
        OpParse::Change(k, c) => o.0 == k && o.1@ == seq![c],
        OpParse::Fail(_) => false,
    }
}

pub open spec fn ops_match(os: Seq<Operation>, ps: Seq<OpParse>) -> bool {
    os.len() == ps.len() && forall|i: int| 0 <= i < os.len() ==> op_matches(#[trigger] os[i], ps[i])
}

/// The operations of a parenthesised list that parse; the others are dropped.
pub open spec fn parsed_list(pieces: Seq<Seq<char>>) -> Seq<OpParse>
    decreases pieces.len(),
{
    if pieces.len() == 0 {
        Seq::empty()
    } else {
        let r = parsed_list(pieces.drop_last());
        match parse_op(pieces.last()) {
            OpParse::Fail(_) => r,
            p => r.push(p),
        }
    }
}

/// Why reading a variable reference fails.
pub enum VarError {
    /// Nothing follows the separator.
    NextVariable,
    /// The shorthand for appending hex alpha did not parse.
    Hex(Error),
    /// The shorthand for an alpha change did not parse.
    Alpha(Error),
}

/// `name..ops` or `name::ops`, split at the first separator found (`..`
/// is looked for first).
pub open spec fn var_split(s: Seq<char>) -> Option<(Seq<char>, Seq<char>)> {
    match split_once(s, seq!['.', '.']) {
        Some(x) => Some(x),
        None => split_once(s, seq![':', ':']),
    }
}

/// `ParsedVariable::from_str`: a name and its operations. After the
/// separator come `(op, op, ..)`, one operation, a hex alpha (`name..80`),
/// or an alpha change without its letter (`name..+10`).
pub open spec fn parse_var(s: Seq<char>) -> Result<(Seq<char>, Seq<OpParse>), VarError> {
    match var_split(s) {
        None => Ok((s, Seq::empty())),
        Some((name, ops)) => if ops.len() == 0 {
            Err(VarError::NextVariable)
        } else if ops[0] == '(' && ends_with(ops, seq![')']) {
            Ok((name, parsed_list(split_seq(ops.subrange(1, ops.len() - 1), ','))))
        } else if unicode_alphabetic(ops[0]) && !(parse_op(ops) is Fail) {
            Ok((name, seq![parse_op(ops)]))
        } else if is_hex_digit(ops[0]) && ('0' <= ops[0] <= '9' || 'a' <= ops[0] <= 'f' || 'A' <= ops[0] <= 'F') {
            match parse_op(seq!['a', '.'] + ops) {
                OpParse::Fail(e) => Err(VarError::Hex(e)),
                p => Ok((name, seq![p])),
            }
        } else {
            match parse_op(seq!['a'] + ops) {
                OpParse::Fail(e) => Err(VarError::Alpha(e)),
                p => Ok((name, seq![p])),
            }
        },
    }
}

/// `{:?}` of the errors an operation parse can give.
pub open spec fn error_debug(e: Error) -> Seq<char> {
    match e {
        Error::Component => "Component"@,
        Error::Change => "Change"@,
        Error::Operator => "Operator"@,
        Error::InvalidColorString => "InvalidColorString"@,
        Error::Hex(_) => Seq::empty(),
    }
}

pub open spec fn var_error_message(k: VarError, s: Seq<char>) -> Seq<char> {
    match k {
        VarError::NextVariable => "Resolving Next Variable: "@ + s,
        VarError::Hex(e) => "Resolving Hex Variable: "@ + error_debug(e),
        VarError::Alpha(e) => "Resolving Alpha Variable: "@ + error_debug(e),
    }
}

proof fn lemma_parse_op_fail(s: Seq<char>)
    ensures
        parse_op(s) matches OpParse::Fail(e) ==> (e is Operator || e is Change || e is Component),
{
}

fn debug_error(e: &Error) -> (r: Vec<char>)
    requires
        e is Operator || e is Change || e is Component,
    ensures
        r@ == error_debug(*e),
{
    match e {
        Error::Component => chars_of("Component"),
        Error::Change => chars_of("Change"),
        _ => chars_of("Operator"),
    }
}

/// A variable reference with the color operations to apply to it.
#[derive(Debug)]
pub struct ParsedVariable {
    pub name: String,
    pub operations: Operations,
}

impl Clone for ParsedVariable {
    fn clone(&self) -> (r: Self)
        ensures
            r.name@ == self.name@,
            r.operations@ == self.operations@,
    {
        let mut ops: Vec<Operation> = Vec::new();
        for i in 0..self.operations.len()
            invariant
                ops@ == self.operations@.take(i as int),
        {
            ops.push(self.operations[i].clone());
            assert(ops@ =~= self.operations@.take(i + 1));
        }
        assert(ops@ =~= self.operations@);
        ParsedVariable { name: self.name.clone(), operations: ops }
    }
}

fn single_op(o: Operation) -> (r: Operations)
    ensures
        r@ == seq![o],
{
    let mut v = Vec::new();
    v.push(o);
    assert(v@ =~= seq![o]);
    v
}

impl ParsedVariable {
    /// Reads `name`, `name..ops` or `name::ops`.
    #[verifier::rlimit(60)]
    pub fn from_str(s: &str) -> (r: Result<Self, ProgramError>)
        ensures
            match parse_var(s@) {
                Ok((n, ps)) => r matches Ok(v) && v.name@ == n && ops_match(v.operations@, ps),
                Err(k) => r matches Err(ProgramError::Processing(m)) && m@ == var_error_message(k, s@),
            },
    {
        let sv = chars_of(s);
        let dots = chars_of("..");
        let colons = chars_of("::");
        assert(dots@ =~= seq!['.', '.']) by {
            reveal_strlit("..");
        }
        assert(colons@ =~= seq![':', ':']) by {
            reveal_strlit("::");
        }
        let split = match split_once_exec(&sv, &dots) {
            Some(x) => Some(x),
            None => split_once_exec(&sv, &colons),
        };
        let (name, ops) = match split {
            None => {
                let r = ParsedVariable { name: string_of(&sv), operations: Vec::new() };
                assert(r.operations@ =~= Seq::<Operation>::empty());
                return Ok(r);
            },
            Some(x) => x,
        };
        if ops.len() == 0 {
            return Err(processing_error("Resolving Next Variable: ", &sv));
        }
        let c = ops[0];
        if c == '(' && ops[ops.len() - 1] == ')' {
            proof {
                assert(ops@.skip(ops@.len() - 1) =~= seq![')']);
            }
            let inner = sub_chars(&ops, 1, ops.len() - 1);
            let pieces = split_char(&inner, ',');
            let ghost ps = split_seq(inner@, ',');
            let mut list: Vec<Operation> = Vec::new();
            for i in 0..pieces.len()
                invariant
                    pieces@.len() == ps.len(),
                    ps == split_seq(inner@, ','),
                    forall|j: int| 0 <= j < pieces@.len() ==> (#[trigger] pieces@[j])@ == ps[j],
                    ops_match(list@, parsed_list(ps.take(i as int))),
            {
                assert(ps.take(i + 1).drop_last() == ps.take(i as int));
                assert(ps.take(i + 1).last() == ps[i as int]);
                let piece = string_of(&pieces[i]);
                match Operation::from_str(piece.as_str()) {
                    Ok(o) => {
                        list.push(o);
                    },
                    Err(_) => {},
                }
            }
            assert(ps.take(pieces.len() as int) == ps);
            return Ok(ParsedVariable { name: string_of(&name), operations: list });
        }
        proof {
            if ops@.len() > 0 && !(ops@[ops@.len() - 1] == ')') {
                assert(ops@.skip(ops@.len() - 1)[0] != seq![')'][0]);
            }
        }
        if is_alphabetic(c) {
            match Operation::from_str(string_of(&ops).as_str()) {
                Ok(o) => {
                    return Ok(ParsedVariable { name: string_of(&name), operations: single_op(o) });
                },
                Err(_) => {},
            }
        }
        if is_ascii_hexdigit(c) {
            let mut t: Vec<char> = Vec::new();
            t.push('a');
            t.push('.');
            append_chars(&mut t, &ops);
            assert(t@ =~= seq!['a', '.'] + ops@);
            proof {
                lemma_parse_op_fail(t@);
            }
            match Operation::from_str(string_of(&t).as_str()) {
                Ok(o) => {
                    return Ok(ParsedVariable { name: string_of(&name), operations: single_op(o) });
                },
                Err(e) => {
                    let d = debug_error(&e);
                    return Err(processing_error("Resolving Hex Variable: ", &d));
                },
            }
        }
        let mut t: Vec<char> = Vec::new();
        t.push('a');
        append_chars(&mut t, &ops);
        assert(t@ =~= seq!['a'] + ops@);
        proof {
            lemma_parse_op_fail(t@);
        }
        match Operation::from_str(string_of(&t).as_str()) {
            Ok(o) => Ok(ParsedVariable { name: string_of(&name), operations: single_op(o) }),
            Err(e) => {
                let d = debug_error(&e);
                Err(processing_error("Resolving Alpha Variable: ", &d))
            },
        }
    }
}


/// A value read from a template, theme or variable file.
#[derive(Debug)]
pub enum ParsedValue {
    Color(Color),
    Variables(Vec<String>),
    Value(Json),
    String(String),
    Null,
}

pub open spec fn strings_view(v: Seq<String>) -> Seq<Seq<char>> {
    v.map_values(|s: String| s@)
}

/// The same parsed value: colors identical, everything else by views.
pub open spec fn pv_same(a: ParsedValue, b: ParsedValue) -> bool {
    match (a, b) {
        (ParsedValue::Color(x), ParsedValue::Color(y)) => x == y,
        (ParsedValue::Variables(x), ParsedValue::Variables(y)) => strings_view(x@) == strings_view(y@),
        (ParsedValue::Value(x), ParsedValue::Value(y)) => jview(x) == jview(y),
        (ParsedValue::String(x), ParsedValue::String(y)) => x@ == y@,
        (ParsedValue::Null, ParsedValue::Null) => true,
        _ => false,
    }
}

/// `==` on parsed values: colors compare by `color_eq`.
pub open spec fn pv_eq(a: ParsedValue, b: ParsedValue) -> bool {
    match (a, b) {
        (ParsedValue::Color(x), ParsedValue::Color(y)) => color_eq(x, y),
        _ => pv_same(a, b),
    }
}

/// The variable a `|`-separated piece names: `$name` is `name`, `@name`
/// is `color.name`; the first character is dropped as one byte.
pub open spec fn var_piece(p: Seq<char>) -> Option<Seq<char>> {
    let t = trim_seq(p);
    if t.len() > 0 && t[0] == '$' {
        Some(p.skip(1))
    } else if t.len() > 0 && t[0] == '@' {
        Some(seq!['c', 'o', 'l', 'o', 'r', '.'] + p.skip(1))
    } else {
        None
    }
}

pub open spec fn var_names_of(ps: Seq<Seq<char>>) -> Seq<Seq<char>>
    decreases ps.len(),
{
    if ps.len() == 0 {
        Seq::empty()
    } else {
        let r = var_names_of(ps.drop_last());
        match var_piece(ps.last()) {
            Some(n) => r.push(n),
            None => r,
        }
    }
}

/// The names a variable text refers to, in order.
pub open spec fn var_names(s: Seq<char>) -> Seq<Seq<char>> {
    var_names_of(split_seq(s, '|'))
}

/// Dropping the first byte of a named piece panics unless the piece
/// starts with a one-byte character.
pub open spec fn pieces_ok(s: Seq<char>) -> bool {
    forall|i: int|
        0 <= i < split_seq(s, '|').len() ==> (var_piece(#[trigger] split_seq(s, '|')[i]) is Some
            ==> char_len(split_seq(s, '|')[i][0]) == 1)
}

/// A parsed operation that would not panic when applied.
pub open spec fn op_parse_safe(p: OpParse) -> bool {
    match p {
        OpParse::Change(k, c) => !(k is Hex && (c == '+' || c == '-' || c == '*' || c == '/')) && !(
        !(k is Hex) && c == '.') && !(c == '/' && comp_value(k) == 0),
        _ => true,
    }
}

pub open spec fn ops_safe(ps: Seq<OpParse>) -> bool {
    forall|i: int| 0 <= i < ps.len() ==> op_parse_safe(#[trigger] ps[i])
}

/// Texts on which reading a value does not panic.
pub open spec fn value_text_ok(s: Seq<char>) -> bool {
    if potential_var_spec(s) {
        pieces_ok(s)
    } else {
        color_text_ok(s) && (color_parse_fails(s) ==> match parse_var(s) {
            Ok((n, ps)) => color_text_ok(n) && ops_safe(ps),
            Err(_) => true,
        })
    }
}

/// `ParsedValue::from_str`: variable references, a color, a color with
/// changes (`name..ops`), or else the text itself.
pub open spec fn value_parse(s: Seq<char>, r: ParsedValue) -> bool {
    if potential_var_spec(s) {
        r matches ParsedValue::Variables(v) && strings_view(v@) == var_names(s)
    } else if !color_parse_fails(s) {
        r matches ParsedValue::Color(c) && parsed_color(s, c)
    } else {
        match parse_var(s) {
            Ok((n, ps)) => (r matches ParsedValue::Color(d) && exists|os: Seq<Operation>|
                #[trigger] ops_match(os, ps) && changed_color(n, os, d)) || (r matches ParsedValue::String(
                t,
            ) && t@ == s && (color_parse_fails(n) || exists|os: Seq<Operation>, c: Color, d: Color|
                #![trigger ops_match(os, ps), parsed_color(n, c), update_fails(c, os, d)]
                ops_match(os, ps) && parsed_color(n, c) && update_fails(c, os, d))),
            Err(_) => r matches ParsedValue::String(t) && t@ == s,
        }
    }
}

/// `ParsedValue::from_value`.
pub open spec fn value_from(j: JsonV, p: ParsedValue) -> bool {
    match j {
        JsonV::Null => p is Null,
        JsonV::Str(s) => value_parse(s, p),
        _ => p matches ParsedValue::Value(x) && jview(x) == j,
    }
}

pub open spec fn join_bar(v: Seq<Seq<char>>) -> Seq<char>
    decreases v.len(),
{
    if v.len() == 0 {
        Seq::empty()
    } else if v.len() == 1 {
        v[0]
    } else {
        join_bar(v.drop_last()) + seq!['|'] + v.last()
    }
}

/// `ParsedValue::into_value`.
pub open spec fn pv_json(p: ParsedValue) -> JsonV {
    match p {
        ParsedValue::Color(c) => JsonV::Str(c.hex@),
        ParsedValue::Variables(v) => JsonV::Str(join_bar(strings_view(v@))),
        ParsedValue::Value(v) => jview(v),
        ParsedValue::String(s) => JsonV::Str(s@),
        ParsedValue::Null => JsonV::Null,
    }
}

pub proof fn lemma_ops_safe(os: Seq<Operation>, ps: Seq<OpParse>)
    requires
        ops_match(os, ps),
        ops_safe(ps),
    ensures
        no_panics(os),
{
    assert forall|i: int| 0 <= i < os.len() implies !apply_panics(#[trigger] os[i]) by {
        assert(op_matches(os[i], ps[i]));
        assert(op_parse_safe(ps[i]));
        let t = os[i].1@;
        assert(t.len() == 1);
        if t == seq!['+'] || t == seq!['-'] || t == seq!['*'] || t == seq!['/'] || t == seq!['.'] {
            assert(t[0] == t[0]);
        }
        assert(seq!['+'][0] == '+' && seq!['-'][0] == '-' && seq!['*'][0] == '*' && seq!['/'][0] == '/'
            && seq!['.'][0] == '.');
    }
}

pub fn clone_strings(v: &Vec<String>) -> (r: Vec<String>)
    ensures
        strings_view(r@) == strings_view(v@),
{
    let mut r: Vec<String> = Vec::new();
    for i in 0..v.len()
        invariant
            r@.len() == i,
            forall|k: int| 0 <= k < i ==> (#[trigger] r@[k])@ == v@[k]@,
    {
        r.push(v[i].clone());
    }
    assert(strings_view(r@) =~= strings_view(v@));
    r
}

fn strings_eq(a: &Vec<String>, b: &Vec<String>) -> (r: bool)
    ensures
        r == (strings_view(a@) == strings_view(b@)),
{
    if a.len() != b.len() {
        assert(strings_view(a@).len() != strings_view(b@).len());
        return false;
    }
    for i in 0..a.len()
        invariant
            a@.len() == b@.len(),
            forall|k: int| 0 <= k < i ==> (#[trigger] a@[k])@ == b@[k]@,
    {
        if !chars_eq(&chars_of(a[i].as_str()), &chars_of(b[i].as_str())) {
            assert(strings_view(a@)[i as int] != strings_view(b@)[i as int]);
            return false;
        }
    }
    assert(strings_view(a@) =~= strings_view(b@));
    true
}

pub fn var_names_exec(s: &Vec<char>) -> (r: Vec<String>)
    requires
        pieces_ok(s@),
    ensures
        strings_view(r@) == var_names(s@),
{
    let pieces = split_char(s, '|');
    let ghost ps = split_seq(s@, '|');
    let mut r: Vec<String> = Vec::new();
    for i in 0..pieces.len()
        invariant
            pieces@.len() == ps.len(),
            ps == split_seq(s@, '|'),
            pieces_ok(s@),
            forall|j: int| 0 <= j < pieces@.len() ==> (#[trigger] pieces@[j])@ == ps[j],
            strings_view(r@) == var_names_of(ps.take(i as int)),
    {
        assert(ps.take(i + 1).drop_last() == ps.take(i as int));
        assert(ps.take(i + 1).last() == ps[i as int]);
        let p = &pieces[i];
        let t = trim(p);
        if t.len() > 0 && (t[0] == '$' || t[0] == '@') {
            assert(var_piece(ps[i as int]) is Some);
            let rest = skip_chars(p, 1);
            let mut n: Vec<char> = Vec::new();
            if t[0] == '@' {
                append_str(&mut n, "color.");
                assert(n@ =~= seq!['c', 'o', 'l', 'o', 'r', '.']) by {
                    reveal_strlit("color.");
                }
            }
            append_chars(&mut n, &rest);
            let ghost before = r@;
            r.push(string_of(&n));
            assert(strings_view(r@) =~= strings_view(before).push(n@));
        }
    }
    assert(ps.take(pieces.len() as int) == ps);
    r
}

fn join_bar_exec(v: &Vec<String>) -> (r: String)
    ensures
        r@ == join_bar(strings_view(v@)),
{
    let mut out: Vec<char> = Vec::new();
    for i in 0..v.len()
        invariant
            out@ == join_bar(strings_view(v@.take(i as int))),
    {
        assert(strings_view(v@.take(i + 1)).drop_last() =~= strings_view(v@.take(i as int)));
        if i > 0 {
            out.push('|');
        }
        append_chars(&mut out, &chars_of(v[i].as_str()));
        assert(strings_view(v@.take(i + 1)).last() == v@[i as int]@);
        if i == 0 {
            assert(out@ =~= strings_view(v@.take(1))[0]);
        }
    }
    assert(v@.take(v.len() as int) == v@);
    string_of(&out)
}

impl Clone for ParsedValue {
    fn clone(&self) -> (r: Self)
        ensures
            pv_same(r, *self),
    {
        match self {
            ParsedValue::Color(c) => ParsedValue::Color(c.clone()),
            ParsedValue::Variables(v) => ParsedValue::Variables(clone_strings(v)),
            ParsedValue::Value(v) => ParsedValue::Value(v.clone()),
            ParsedValue::String(s) => ParsedValue::String(s.clone()),
            ParsedValue::Null => ParsedValue::Null,
        }
    }
}

impl ParsedValue {
    /// `==`, with colors equal when close (see `Color::eq`).
    pub fn eq(&self, other: &Self) -> (r: bool)
        ensures
            r == pv_eq(*self, *other),
    {
        match (self, other) {
            (ParsedValue::Color(x), ParsedValue::Color(y)) => x.eq(y),
            (ParsedValue::Variables(x), ParsedValue::Variables(y)) => strings_eq(x, y),
            (ParsedValue::Value(x), ParsedValue::Value(y)) => json_eq(x, y),
            (ParsedValue::String(x), ParsedValue::String(y)) => chars_eq(
                &chars_of(x.as_str()),
                &chars_of(y.as_str()),
            ),
            (ParsedValue::Null, ParsedValue::Null) => true,
            _ => false,
        }
    }

    /// Reads a value: `$a|@b` lists variables, then a color, then a color
    /// with changes (`#fff..a=50`), and anything else stays text.
    pub fn from_str<S: ColorSpace>(s: &str, space: &S) -> (r: Result<Self, ProgramError>)
        requires
            value_text_ok(s@),
        ensures
            r matches Ok(p) && value_parse(s@, p),
    {
        if potential_var(s) {
            return Ok(ParsedValue::Variables(var_names_exec(&chars_of(s))));
        }
        match Color::from_str(s, space) {
            Ok(c) => {
                return Ok(ParsedValue::Color(c));
            },
            Err(_) => {},
        }
        match ParsedVariable::from_str(s) {
            Ok(v) => {
                proof {
                    let (n, ps) = parse_var(s@)->Ok_0;
                    lemma_ops_safe(v.operations@, ps);
                }
                match Color::from_change(v.name.as_str(), v.operations.as_slice(), space) {
                    Ok(d) => {
                        assert(ops_match(v.operations@, parse_var(s@)->Ok_0.1));
                        Ok(ParsedValue::Color(d))
                    },
                    Err(_) => {
                        assert(ops_match(v.operations@, parse_var(s@)->Ok_0.1));
                        Ok(ParsedValue::String(s.to_string()))
                    },
                }
            },
            Err(_) => Ok(ParsedValue::String(s.to_string())),
        }
    }

    /// The value as JSON: colors as their hex string, variables joined by `|`.
    pub fn into_value(self) -> (r: Json)
        ensures
            jview(r) == pv_json(self),
    {
        match self {
            ParsedValue::Color(c) => Json::String(c.to_string()),
            ParsedValue::Variables(v) => Json::String(join_bar_exec(&v)),
            ParsedValue::Value(v) => v,
            ParsedValue::String(s) => Json::String(s),
            ParsedValue::Null => Json::Null,
        }
    }

    /// Reads a JSON value: `null`, a string as `from_str` reads it, and any
    /// other value kept as it is.
    pub fn from_value<S: ColorSpace>(v: &Json, space: &S) -> (r: Result<Self, ProgramError>)
        requires
            jview(*v) matches JsonV::Str(s) ==> value_text_ok(s),
        ensures
            r matches Ok(p) && value_from(jview(*v), p),
    {
        match v {
            Json::Null => Ok(ParsedValue::Null),
            Json::String(s) => Self::from_str(s.as_str(), space),
            _ => Ok(ParsedValue::Value(v.clone())),
        }
    }
}

pub(crate) fn pieces_ok_exec(s: &Vec<char>) -> (r: bool)
    ensures
        r == pieces_ok(s@),
{
    let pieces = split_char(s, '|');
    let ghost ps = split_seq(s@, '|');
    for i in 0..pieces.len()
        invariant
            pieces@.len() == ps.len(),
            ps == split_seq(s@, '|'),
            forall|j: int| 0 <= j < pieces@.len() ==> (#[trigger] pieces@[j])@ == ps[j],
            forall|j: int|
                0 <= j < i ==> (var_piece(#[trigger] ps[j]) is Some ==> char_len(ps[j][0]) == 1),
    {
        let t = trim(&pieces[i]);
        if t.len() > 0 && (t[0] == '$' || t[0] == '@') {
            assert(var_piece(ps[i as int]) is Some);
            if pieces[i].len() == 0 || char_length(pieces[i][0]) != 1 {
                proof {
                    if pieces@[i as int]@.len() == 0 {
                        assert(trim_seq(ps[i as int]).len() == 0) by {
                            assert(ps[i as int] =~= Seq::<char>::empty());
                        }
                    }
                }
                return false;
            }
        } else {
            assert(var_piece(ps[i as int]) is None);
        }
    }
    true
}

pub(crate) fn ops_safe_exec(os: &Vec<Operation>, Ghost(ps): Ghost<Seq<OpParse>>) -> (r: bool)
    requires
        ops_match(os@, ps),
    ensures
        r == ops_safe(ps),
{
    for i in 0..os.len()
        invariant
            ops_match(os@, ps),
            forall|j: int| 0 <= j < i ==> op_parse_safe(#[trigger] ps[j]),
    {
        assert(op_matches(os@[i as int], ps[i as int]));
        let o = &os[i];
        let is_hex = match o.0 {
            Component::Hex(_) => true,
            _ => false,
        };
        let oc = chars_of(o.1.as_str());
        if oc.len() == 1 {
            let c = oc[0];
            if (is_hex && (c == '+' || c == '-' || c == '*' || c == '/')) || (!is_hex && c == '.')
                || (c == '/' && o.0.value() == 0) {
                assert(!op_parse_safe(ps[i as int]));
                return false;
            }
        }
    }
    true
}

impl ParsedValue {
    /// Tells whether reading `s` as a value stays clear of a panic (see
    /// `value_text_ok`).
    pub fn text_ok<S: ColorSpace>(s: &str, space: &S) -> (r: bool)
        ensures
            r == value_text_ok(s@),
    {
        if potential_var(s) {
            return pieces_ok_exec(&chars_of(s));
        }
        if !color_text_ok_exec(s) {
            return false;
        }
        match Color::from_str(s, space) {
            Ok(_) => {
                return true;
            },
            Err(_) => {},
        }
        match ParsedVariable::from_str(s) {
            Ok(v) => {
                let ghost ps = parse_var(s@)->Ok_0.1;
                color_text_ok_exec(v.name.as_str()) && ops_safe_exec(&v.operations, Ghost(ps))
            },
            Err(_) => true,
        }
    }
}

/// Whether an outcome `d` of applying operation lists to `c` in turn is
/// possible: all lists applied, or a failure partway (which leaves the
/// color where it stopped).
pub open spec fn lists_outcome(c: Color, lists: Seq<Seq<Operation>>, d: Color) -> bool {
    lists_reach(c, lists, d) || exists|i: int, m: Color|
        0 <= i < lists.len() && lists_reach(c, lists.take(i), m) && #[trigger] update_fails(
            m,
            lists[i],
            d,
        )
}

pub open spec fn lists_safe(lists: Seq<Seq<Operation>>) -> bool {
    forall|i: int| 0 <= i < lists.len() ==> no_panics(#[trigger] lists[i])
}

/// `ls` holds the identity forms of the lists `os`.
pub open spec fn identity_lists(ls: Seq<Seq<Operation>>, os: Seq<Seq<Operation>>) -> bool {
    ls.len() == os.len() && forall|i: int|
        0 <= i < ls.len() ==> ops_view(#[trigger] ls[i]) == identity_spec(ops_view(os[i]))
}

/// `ParsedValue::identity_ops`: a color is taken through the identity forms
/// of the changes and becomes its hex text; anything else is kept.
pub open spec fn identity_value(p: ParsedValue, os: Seq<Seq<Operation>>, r: ParsedValue) -> bool {
    match p {
        ParsedValue::Color(c) => r matches ParsedValue::String(t) && exists|ls: Seq<Seq<Operation>>, d: Color|
            #[trigger] identity_lists(ls, os) && #[trigger] lists_outcome(c, ls, d) && t@ == d.hex@,
        _ => pv_same(r, p),
    }
}

proof fn lemma_identity_safe(o: Operation, i: Operation)
    requires
        !apply_panics(o),
        op_view(i) == identity_one(op_view(o)),
    ensures
        !apply_panics(i),
{
    assert(seq!['+'][0] == '+' && seq!['-'][0] == '-' && seq!['*'][0] == '*' && seq!['/'][0] == '/'
        && seq!['.'][0] == '.' && seq!['='][0] == '=');
}

impl ParsedValue {
    /// The value a color takes under the identity forms of the changes, as
    /// text; other values unchanged.
    pub fn identity_ops<S: ColorSpace>(&self, ops: &Vec<Operations>, space: &S) -> (r: Self)
        requires
            lists_safe(lists_view(ops@)),
        ensures
            identity_value(*self, lists_view(ops@), r),
    {
        match self {
            ParsedValue::Color(c) => {
                let mut iden: Vec<Operations> = Vec::new();
                for i in 0..ops.len()
                    invariant
                        iden@.len() == i,
                        lists_safe(lists_view(ops@)),
                        forall|k: int|
                            0 <= k < i ==> ops_view((#[trigger] iden@[k])@) == identity_spec(
                                ops_view(ops@[k]@),
                            ),
                        forall|k: int| 0 <= k < i ==> no_panics((#[trigger] iden@[k])@),
                {
                    let l = Operation::identity_op(&ops[i]);
                    proof {
                        assert(lists_view(ops@)[i as int] == ops@[i as int]@);
                        assert(no_panics(lists_view(ops@)[i as int]));
                        assert(ops_view(l@).len() == l@.len());
                        assert(identity_spec(ops_view(ops@[i as int]@)).len() == ops@[i as int]@.len());
                        assert forall|j: int| 0 <= j < l@.len() implies !apply_panics(
                            #[trigger] l@[j],
                        ) by {
                            let o = ops@[i as int]@[j];
                            assert(ops_view(l@)[j] == identity_spec(ops_view(ops@[i as int]@))[j]);
                            assert(ops_view(l@)[j] == op_view(l@[j]));
                            assert(ops_view(ops@[i as int]@)[j] == op_view(o));
                            assert(!apply_panics(o));
                            lemma_identity_safe(o, l@[j]);
                        }
                    }
                    iden.push(l);
                }
                let mut color = c.clone();
                let ghost c0 = color;
                proof {
                    assert forall|k: int| 0 <= k < iden@.len() implies no_panics(
                        (#[trigger] iden@[k])@,
                    ) by {}
                }
                let res = color.update_ops(iden.as_slice(), space);
                proof {
                    let ls = lists_view(iden@);
                    assert forall|k: int| 0 <= k < ls.len() implies ops_view(#[trigger] ls[k])
                        == identity_spec(ops_view(lists_view(ops@)[k])) by {
                        assert(ls[k] == iden@[k]@);
                        assert(lists_view(ops@)[k] == ops@[k]@);
                    }
                    assert(identity_lists(ls, lists_view(ops@)));
                    match res {
                        Ok(_) => {},
                        Err(_) => {
                            let (i, m) = choose|i: int, m: Color|
                                0 <= i < iden@.len() && lists_reach(c0, lists_view(iden@).take(i), m)
                                    && #[trigger] update_fails(m, iden@[i]@, color);
                            assert(ls[i] == iden@[i]@);
                            assert(update_fails(m, ls[i], color));
                        },
                    }
                    assert(lists_outcome(c0, ls, color));
                }
                ParsedValue::String(color.to_string())
            },
            _ => self.clone(),
        }
    }
}

/// A variable reference of a source that did not parse stays its text.
#[derive(Debug)]
pub enum VarRef {
    Name(String),
    Parsed(ParsedVariable),
}

/// How one referenced name is read.
pub open spec fn var_ref_of(n: Seq<char>, r: VarRef) -> bool {
    match parse_var(n) {
        Ok((nm, ps)) => r matches VarRef::Parsed(p) && p.name@ == nm && ops_match(p.operations@, ps),
        Err(_) => r matches VarRef::Name(x) && x@ == n,
    }
}

/// A template string found where the theme has a value: where it was, what
/// the theme holds there, and the variables the template names.
#[derive(Debug)]
pub struct SourcedVariable {
    pub path: String,
    pub value: ParsedValue,
    pub variables: Vec<VarRef>,
}

impl SourcedVariable {
    /// Reads the template text `var` found at `path` against the theme
    /// value `value`.
    pub fn new<S: ColorSpace>(path: String, var: &str, value: &Json, space: &S) -> (r: Self)
        requires
            pieces_ok(var@),
            jview(*value) matches JsonV::Str(s) ==> value_text_ok(s),
        ensures
            r.path@ == path@,
            value_from(jview(*value), r.value),
            r.variables@.len() == var_names(var@).len(),
            forall|i: int|
                0 <= i < r.variables@.len() ==> var_ref_of(var_names(var@)[i], #[trigger] r.variables@[i]),
    {
        let value = match ParsedValue::from_value(value, space) {
            Ok(v) => v,
            Err(_) => ParsedValue::Null,
        };
        let names = var_names_exec(&chars_of(var));
        let mut variables: Vec<VarRef> = Vec::new();
        for i in 0..names.len()
            invariant
                variables@.len() == i,
                strings_view(names@) == var_names(var@),
                forall|k: int|
                    0 <= k < i ==> var_ref_of(var_names(var@)[k], #[trigger] variables@[k]),
        {
            assert(names@[i as int]@ == var_names(var@)[i as int]);
            match ParsedVariable::from_str(names[i].as_str()) {
                Ok(p) => variables.push(VarRef::Parsed(p)),
                Err(_) => variables.push(VarRef::Name(names[i].clone())),
            }
        }
        SourcedVariable { path, value, variables }
    }
}

/// Marks a variable that stands for several conflicting values.
pub const UNRESOLVED_POINTER: usize = 2497;

/// A variable with the values and names it may resolve to.
#[derive(Debug)]
pub struct ResolvedVariable {
    pub path: JSPath,
    pub value: ParsedValue,
    pub variables: Vec<ParsedVariable>,
    pub resolved_id: Option<usize>,
    pub siblings: Vec<ResolvedVariable>,
}

pub open spec fn pvar_same(a: ParsedVariable, b: ParsedVariable) -> bool {
    a.name@ == b.name@ && a.operations@ == b.operations@
}

pub open spec fn pvars_same(a: Seq<ParsedVariable>, b: Seq<ParsedVariable>) -> bool {
    a.len() == b.len() && forall|i: int| 0 <= i < a.len() ==> pvar_same(#[trigger] a[i], b[i])
}

/// The same variable, field by field through the views.
pub open spec fn rv_same(a: ResolvedVariable, b: ResolvedVariable) -> bool
    decreases a,
{
    &&& a.path@ == b.path@
    &&& pv_same(a.value, b.value)
    &&& pvars_same(a.variables@, b.variables@)
    &&& a.resolved_id == b.resolved_id
    &&& a.siblings@.len() == b.siblings@.len()
    &&& forall|i: int|
        0 <= i < a.siblings@.len() ==> rv_same(#[trigger] a.siblings@[i], b.siblings@[i])
}

pub fn clone_pvars(v: &Vec<ParsedVariable>) -> (r: Vec<ParsedVariable>)
    ensures
        pvars_same(r@, v@),
{
    let mut r: Vec<ParsedVariable> = Vec::new();
    for i in 0..v.len()
        invariant
            r@.len() == i,
            forall|k: int| 0 <= k < i ==> pvar_same(#[trigger] r@[k], v@[k]),
    {
        r.push(v[i].clone());
    }
    r
}

impl Clone for ResolvedVariable {
    fn clone(&self) -> (r: Self)
        ensures
            rv_same(r, *self),
        decreases self,
    {
        let mut sib: Vec<ResolvedVariable> = Vec::new();
        for i in 0..self.siblings.len()
            invariant
                sib@.len() == i,
                forall|k: int| 0 <= k < i ==> rv_same(#[trigger] sib@[k], self.siblings@[k]),
        {
            assert(decreases_to!(*self => self.siblings));
            assert(decreases_to!(self.siblings => self.siblings@));
            assert(decreases_to!(self.siblings@ => self.siblings@[i as int]));
            sib.push(self.siblings[i].clone());
        }
        ResolvedVariable {
            path: self.path.clone(),
            value: self.value.clone(),
            variables: clone_pvars(&self.variables),
            resolved_id: self.resolved_id,
            siblings: sib,
        }
    }
}

/// The operation lists of the variables, in order.
pub open spec fn var_lists(v: ResolvedVariable) -> Seq<Seq<Operation>> {
    v.variables@.map_values(|p: ParsedVariable| p.operations@)
}

pub open spec fn is_resolvable_spec(v: ResolvedVariable) -> bool {
    v.resolved_id matches Some(i) && i < v.variables@.len()
}

pub open spec fn is_pointer_spec(v: ResolvedVariable) -> bool {
    v.resolved_id == Some(UNRESOLVED_POINTER) || (UNRESOLVED_POINTER == 0 && v.resolved_id is None)
}

/// `ResolvedVariable::name`: the resolved name, `*` and the joined path for
/// a pointer, else the path.
pub open spec fn rv_name(v: ResolvedVariable) -> Seq<char> {
    if is_resolvable_spec(v) {
        v.variables@[v.resolved_id->0 as int].name@
    } else if is_pointer_spec(v) {
        seq!['*'] + join_text(v.path@)
    } else {
        path_text(v.path@)
    }
}

/// `ResolvedVariable::results_from`: applying the variable's changes to the
/// identity gives the value.
pub open spec fn results_from_spec(v: ResolvedVariable, identity: ParsedValue, r: bool) -> bool {
    match (v.value, identity) {
        (ParsedValue::Color(a), ParsedValue::Color(b)) => exists|d: Color|
            #[trigger] lists_outcome(b, var_lists(v), d) && r == color_eq(a, d),
        (ParsedValue::Color(a), ParsedValue::String(t)) => if !color_parse_fails(t@) {
            exists|b: Color, d: Color|
                #[trigger] parsed_color(t@, b) && #[trigger] lists_outcome(b, var_lists(v), d) && r
                    == color_eq(a, d)
        } else {
            r == pv_eq(v.value, identity)
        },
        _ => r == pv_eq(v.value, identity),
    }
}

impl ResolvedVariable {
    /// A variable named `name` holding `value`.
    pub fn init(name: &str, value: ParsedValue) -> (r: Self)
        ensures
            r.path@ == Seq::<KeyView>::empty(),
            r.value == value,
            r.variables@.len() == 1,
            r.variables@[0].name@ == name@,
            r.variables@[0].operations@ == Seq::<Operation>::empty(),
            r.resolved_id == Some(0usize),
            r.siblings@.len() == 0,
    {
        let variable = ParsedVariable { name: name.to_string(), operations: Vec::new() };
        let mut variables: Vec<ParsedVariable> = Vec::new();
        variables.push(variable);
        ResolvedVariable {
            value,
            variables,
            path: JSPath::new(),
            resolved_id: Some(0),
            siblings: Vec::new(),
        }
    }

    /// An override of the value at `path`.
    pub fn init_override<S: ColorSpace>(path: &str, value: &Json, space: &S) -> (r: Self)
        requires
            jview(*value) matches JsonV::Str(s) ==> value_text_ok(s),
        ensures
            r.path@ == parse_path(path@),
            value_from(jview(*value), r.value),
            r.variables@.len() == 0,
            r.resolved_id == Some(0usize),
            r.siblings@.len() == 0,
    {
        let p = match JSPath::from_str(path) {
            Ok(p) => p,
            Err(_) => JSPath::new(),
        };
        let v = match ParsedValue::from_value(value, space) {
            Ok(v) => v,
            Err(_) => ParsedValue::Null,
        };
        ResolvedVariable {
            path: p,
            value: v,
            variables: Vec::new(),
            resolved_id: Some(0),
            siblings: Vec::new(),
        }
    }

    /// A pointer named `var_name` to the paths of the values it could stand
    /// for.
    pub fn new_pointer(var_name: &str, unresolved_paths: &Vec<String>) -> (r: Self)
        ensures
            r.path@ == parse_path(var_name@),
            r.value matches ParsedValue::Variables(v) && strings_view(v@) == strings_view(
                unresolved_paths@,
            ),
            r.variables@.len() == 0,
            r.resolved_id == Some(UNRESOLVED_POINTER),
            r.siblings@.len() == 0,
    {
        let p = match JSPath::from_str(var_name) {
            Ok(p) => p,
            Err(_) => JSPath::new(),
        };
        ResolvedVariable {
            path: p,
            value: ParsedValue::Variables(clone_strings(unresolved_paths)),
            variables: Vec::new(),
            resolved_id: Some(UNRESOLVED_POINTER),
            siblings: Vec::new(),
        }
    }

    /// The variable a sourced variable describes, keeping the references
    /// that parsed.
    pub fn from_src(src: &SourcedVariable) -> (r: Self)
        ensures
            r.path@ == parse_path(src.path@),
            pv_same(r.value, src.value),
            pvars_same(r.variables@, parsed_refs(src.variables@)),
            r.resolved_id == Some(0usize),
            r.siblings@.len() == 0,
    {
        let mut variables: Vec<ParsedVariable> = Vec::new();
        for i in 0..src.variables.len()
            invariant
                pvars_same(variables@, parsed_refs(src.variables@.take(i as int))),
        {
            assert(src.variables@.take(i + 1).drop_last() == src.variables@.take(i as int));
            match &src.variables[i] {
                VarRef::Parsed(v) => {
                    variables.push(v.clone());
                },
                VarRef::Name(_) => {},
            }
        }
        assert(src.variables@.take(src.variables.len() as int) == src.variables@);
        let p = match JSPath::from_str(src.path.as_str()) {
            Ok(p) => p,
            Err(_) => JSPath::new(),
        };
        ResolvedVariable {
            path: p,
            value: src.value.clone(),
            variables,
            resolved_id: Some(0),
            siblings: Vec::new(),
        }
    }

    /// The value at `path` in `json` (null when there is none), with no
    /// names yet.
    pub fn from_path<S: ColorSpace>(path: &str, json: &Json, space: &S) -> (r: Self)
        requires
            traverse_spec(jview(*json), parse_path(path@)) matches Some(JsonV::Str(s))
                ==> value_text_ok(s),
        ensures
            r.path@ == parse_path(path@),
            match traverse_spec(jview(*json), parse_path(path@)) {
                Some(j) => value_from(j, r.value),
                None => r.value is Null,
            },
            r.variables@.len() == 0,
            r.resolved_id is None,
            r.siblings@.len() == 0,
    {
        let p = match JSPath::from_str(path) {
            Ok(p) => p,
            Err(_) => JSPath::new(),
        };
        let value = match p.traverse(json) {
            Ok(v) => match ParsedValue::from_value(v, space) {
                Ok(x) => x,
                Err(_) => ParsedValue::Null,
            },
            Err(_) => ParsedValue::Null,
        };
        ResolvedVariable {
            path: p,
            value,
            variables: Vec::new(),
            resolved_id: None,
            siblings: Vec::new(),
        }
    }

    pub fn is_resolvable(&self) -> (r: bool)
        ensures
            r == is_resolvable_spec(*self),
    {
        match self.resolved_id {
            Some(i) => i < self.variables.len(),
            None => false,
        }
    }

    pub fn could_resolve(&self) -> (r: bool)
        ensures
            r == (self.resolved_id is None && self.variables@.len() > 0),
    {
        self.resolved_id.is_none() && self.variables.len() > 0
    }

    pub fn is_pointer(&self) -> (r: bool)
        ensures
            r == is_pointer_spec(*self),
    {
        let id = match self.resolved_id {
            Some(i) => i,
            None => 0,
        };
        id == UNRESOLVED_POINTER
    }

    /// The name the variable goes by.
    pub fn name(&self) -> (r: String)
        ensures
            r@ == rv_name(*self),
    {
        if self.is_resolvable() {
            let i = match self.resolved_id {
                Some(i) => i,
                None => 0,
            };
            self.variables[i].name.clone()
        } else if self.is_pointer() {
            let mut v: Vec<char> = Vec::new();
            v.push('*');
            append_chars(&mut v, &chars_of(self.path.join().as_str()));
            assert(v@ =~= seq!['*'] + join_text(self.path@));
            string_of(&v)
        } else {
            self.path.to_string()
        }
    }

    pub fn unresolve(&mut self)
        ensures
            final(self).resolved_id is None,
            final(self).path == old(self).path,
            final(self).value == old(self).value,
            final(self).variables == old(self).variables,
            final(self).siblings == old(self).siblings,
    {
        self.resolved_id = None;
    }

    /// Moves to the next name: the first when unresolved, and back to
    /// unresolved after the last. Returns the name moved to.
    pub fn next(&mut self) -> (r: Option<ParsedVariable>)
        ensures
            ({
                let i = match old(self).resolved_id {
                    Some(k) => k + 1,
                    None => 0,
                };
                if i < old(self).variables@.len() {
                    final(self).resolved_id == Some(i as usize) && (r matches Some(p) && pvar_same(
                        p,
                        old(self).variables@[i],
                    ))
                } else {
                    final(self).resolved_id is None && r is None
                }
            }),
            final(self).path == old(self).path,
            final(self).value == old(self).value,
            final(self).variables == old(self).variables,
            final(self).siblings == old(self).siblings,
    {
        let i: usize = match self.resolved_id {
            Some(k) => {
                if k >= self.variables.len() {
                    self.resolved_id = None;
                    return None;
                }
                k + 1
            },
            None => 0,
        };
        if i < self.variables.len() {
            self.resolved_id = Some(i);
            Some(self.variables[i].clone())
        } else {
            self.resolved_id = None;
            None
        }
    }
}

/// The references of a source that parsed, in order.
pub open spec fn parsed_refs(v: Seq<VarRef>) -> Seq<ParsedVariable>
    decreases v.len(),
{
    if v.len() == 0 {
        Seq::empty()
    } else {
        match v.last() {
            VarRef::Parsed(p) => parsed_refs(v.drop_last()).push(p),
            VarRef::Name(_) => parsed_refs(v.drop_last()),
        }
    }
}

fn clone_ops(v: &Operations) -> (r: Operations)
    ensures
        r@ == v@,
{
    let mut r: Vec<Operation> = Vec::new();
    for i in 0..v.len()
        invariant
            r@ == v@.take(i as int),
    {
        r.push(v[i].clone());
        assert(r@ =~= v@.take(i + 1));
    }
    assert(r@ =~= v@);
    r
}

impl ResolvedVariable {
    fn op_lists(&self) -> (r: Vec<Operations>)
        ensures
            lists_view(r@) == var_lists(*self),
    {
        let mut r: Vec<Operations> = Vec::new();
        for i in 0..self.variables.len()
            invariant
                r@.len() == i,
                forall|k: int| 0 <= k < i ==> (#[trigger] r@[k])@ == self.variables@[k].operations@,
        {
            r.push(clone_ops(&self.variables[i].operations));
        }
        assert(lists_view(r@) =~= var_lists(*self));
        r
    }

    /// The value with the identity forms of the variable's changes applied
    /// (see `ParsedValue::identity_ops`).
    pub fn identity<S: ColorSpace>(&self, space: &S) -> (r: ParsedValue)
        requires
            lists_safe(var_lists(*self)),
        ensures
            identity_value(self.value, var_lists(*self), r),
    {
        let lists = self.op_lists();
        self.value.identity_ops(&lists, space)
    }

    fn color_results<S: ColorSpace>(&self, a: &Color, b: &Color, space: &S) -> (r: bool)
        requires
            lists_safe(var_lists(*self)),
        ensures
            exists|d: Color| #[trigger] lists_outcome(*b, var_lists(*self), d) && r == color_eq(*a, d),
    {
        let lists = self.op_lists();
        let mut c = b.clone();
        proof {
            assert forall|k: int| 0 <= k < lists@.len() implies no_panics((#[trigger] lists@[k])@) by {
                assert(lists_view(lists@)[k] == lists@[k]@);
            }
        }
        let res = c.update_ops(lists.as_slice(), space);
        proof {
            let ls = lists_view(lists@);
            match res {
                Ok(_) => {},
                Err(_) => {
                    let (i, m) = choose|i: int, m: Color|
                        0 <= i < lists@.len() && lists_reach(*b, lists_view(lists@).take(i), m)
                            && #[trigger] update_fails(m, lists@[i]@, c);
                    assert(ls[i] == lists@[i]@);
                    assert(update_fails(m, ls[i], c));
                },
            }
            assert(lists_outcome(*b, var_lists(*self), c));
        }
        a.eq(&c)
    }

    /// Whether applying the variable's changes to `identity` gives its value.
    pub fn results_from<S: ColorSpace>(&self, identity: &ParsedValue, space: &S) -> (r: bool)
        requires
            lists_safe(var_lists(*self)),
            self.value is Color ==> (identity matches ParsedValue::String(t) ==> color_text_ok(t@)),
        ensures
            results_from_spec(*self, *identity, r),
    {
        match (&self.value, identity) {
            (ParsedValue::Color(a), ParsedValue::Color(b)) => self.color_results(a, b, space),
            (ParsedValue::Color(a), ParsedValue::String(t)) => match Color::from_str(t.as_str(), space) {
                Ok(b) => self.color_results(a, &b, space),
                Err(_) => self.value.eq(identity),
            },
            _ => self.value.eq(identity),
        }
    }

    /// The identities of the two variables are equal.
    pub fn identity_eq<S: ColorSpace>(&self, other: &Self, space: &S) -> (r: bool)
        requires
            lists_safe(var_lists(*self)),
            lists_safe(var_lists(*other)),
        ensures
            exists|p: ParsedValue, q: ParsedValue|
                #[trigger] identity_value(self.value, var_lists(*self), p) && #[trigger] identity_value(
                    other.value,
                    var_lists(*other),
                    q,
                ) && r == pv_eq(p, q),
    {
        let p = self.identity(space);
        let q = other.identity(space);
        p.eq(&q)
    }
}

/// What comparing a template with a theme found: keys missing from the
/// second, keys whose values collide, and the variables read.
#[derive(Debug)]
pub struct KeyDiffInfo {
    pub missing: Vec<String>,
    pub collisions: Vec<String>,
    pub parsed_vars: Vec<SourcedVariable>,
}

impl KeyDiffInfo {
    /// Appends the findings of `other`.
    pub fn extend(&mut self, other: Self)
        ensures
            final(self).missing@ == old(self).missing@ + other.missing@,
            final(self).collisions@ == old(self).collisions@ + other.collisions@,
            final(self).parsed_vars@ == old(self).parsed_vars@ + other.parsed_vars@,
    {
        let mut o = other;
        self.missing.append(&mut o.missing);
        self.collisions.append(&mut o.collisions);
        self.parsed_vars.append(&mut o.parsed_vars);
    }
}

/// Named variables. Each name occurs once.
#[derive(Debug)]
pub struct VariableSet {
    pub variables: Vec<(String, ResolvedVariable)>,
}

pub type Entries = Seq<(Seq<char>, ResolvedVariable)>;

impl View for VariableSet {
    type V = Entries;

    open spec fn view(&self) -> Entries {
        self.variables@.map_values(|e: (String, ResolvedVariable)| (e.0@, e.1))
    }
}

/// Where `k` is, or -1.
pub open spec fn key_index(es: Entries, k: Seq<char>) -> int
    decreases es.len(),
{
    if es.len() == 0 {
        -1
    } else if es.last().0 == k {
        es.len() - 1
    } else {
        key_index(es.drop_last(), k)
    }
}

pub open spec fn keys_unique(es: Entries) -> bool {
    forall|i: int, j: int| 0 <= i < j < es.len() ==> (#[trigger] es[i]).0 != (#[trigger] es[j]).0
}

/// `insert`: the entry of `k` replaced in place, or added at the end.
pub open spec fn set_entry(es: Entries, k: Seq<char>, v: ResolvedVariable) -> Entries {
    let i = key_index(es, k);
    if i >= 0 {
        es.update(i, (k, v))
    } else {
        es.push((k, v))
    }
}

/// `name` followed by the decimal digits of `n`.
pub open spec fn numbered(name: Seq<char>, n: nat) -> Seq<char> {
    name + dec_digits(n)
}

proof fn lemma_key_index(es: Entries, k: Seq<char>)
    ensures
        -1 <= key_index(es, k) < es.len(),
        key_index(es, k) >= 0 ==> es[key_index(es, k)].0 == k,
        key_index(es, k) < 0 ==> forall|j: int| 0 <= j < es.len() ==> (#[trigger] es[j]).0 != k,
    decreases es.len(),
{
    if es.len() > 0 {
        lemma_key_index(es.drop_last(), k);
        if es.last().0 != k && key_index(es, k) < 0 {
            assert forall|j: int| 0 <= j < es.len() implies (#[trigger] es[j]).0 != k by {
                if j < es.len() - 1 {
                    assert(es.drop_last()[j] == es[j]);
                }
            }
        }
    }
}

proof fn lemma_key_index_at(es: Entries, k: Seq<char>, i: int)
    requires
        keys_unique(es),
        0 <= i < es.len(),
        es[i].0 == k,
    ensures
        key_index(es, k) == i,
    decreases es.len(),
{
    if i < es.len() - 1 {
        assert(es.drop_last()[i] == es[i]);
        assert(keys_unique(es.drop_last()));
        lemma_key_index_at(es.drop_last(), k, i);
    }
}

/// The variable of a name, as a spec value: `None` when the set holds no
/// variable of that name.
pub open spec fn entry_of(es: Entries, k: Seq<char>) -> Option<ResolvedVariable> {
    if key_index(es, k) >= 0 {
        Some(es[key_index(es, k)].1)
    } else {
        None
    }
}

/// Inserting a variable under a name and then looking the name up gives
/// that variable; every other name still gives what it gave before.
pub proof fn law_insert_then_find(es: Entries, k: Seq<char>, v: ResolvedVariable, other: Seq<char>)
    requires
        keys_unique(es),
    ensures
        entry_of(set_entry(es, k, v), k) == Some(v),
        other != k ==> entry_of(set_entry(es, k, v), other) == entry_of(es, other),
{
    lemma_set_entry_unique(es, k, v);
    lemma_key_index(es, k);
    lemma_key_index(es, other);
    let r = set_entry(es, k, v);
    lemma_key_index(r, k);
    lemma_key_index(r, other);
    let i = key_index(r, k);
    if key_index(es, k) >= 0 {
        lemma_key_index_at(r, k, key_index(es, k));
    } else {
        lemma_key_index_at(r, k, es.len() as int);
    }
    assert(r[i].1 == v);
    if other != k {
        assert(keys_unique(r));
        if key_index(es, other) >= 0 {
            let j = key_index(es, other);
            assert(r[j] == es[j]);
            lemma_key_index_at(r, other, j);
        } else {
            if key_index(r, other) >= 0 {
                let j = key_index(r, other);
                if j < es.len() {
                    assert(r[j].0 == es[j].0 || r[j].0 == k);
                }
            }
        }
    }
}

pub proof fn lemma_set_entry_unique(es: Entries, k: Seq<char>, v: ResolvedVariable)
    requires
        keys_unique(es),
    ensures
        keys_unique(set_entry(es, k, v)),
        key_index(set_entry(es, k, v), k) >= 0,
{
    lemma_key_index(es, k);
    let r = set_entry(es, k, v);
    if key_index(es, k) >= 0 {
        assert forall|i: int, j: int| 0 <= i < j < r.len() implies (#[trigger] r[i]).0 != (
        #[trigger] r[j]).0 by {
            assert(es[i].0 != es[j].0);
        }
        lemma_key_index_at(r, k, key_index(es, k));
    } else {
        assert forall|i: int, j: int| 0 <= i < j < r.len() implies (#[trigger] r[i]).0 != (
        #[trigger] r[j]).0 by {
            if j < es.len() {
                assert(es[i].0 != es[j].0);
            }
        }
        lemma_key_index_at(r, k, es.len() as int);
    }
}

/// `is_null`: a name is null when it is absent, when one of its further
/// names is not null, or when its value is null. `None` when the walk
/// needs more than `fuel` levels.
pub open spec fn null_walk(es: Entries, name: Seq<char>, fuel: nat) -> Option<bool>
    decreases fuel, 0nat,
{
    if fuel == 0 {
        None
    } else {
        let i = key_index(es, name);
        if i < 0 || i >= es.len() {
            Some(true)
        } else {
            let v = es[i].1;
            match all_null(es, v.variables@, 1, (fuel - 1) as nat) {
                None => None,
                Some(true) => Some(v.value is Null),
                Some(false) => Some(true),
            }
        }
    }
}

pub open spec fn all_null(es: Entries, vars: Seq<ParsedVariable>, j: int, fuel: nat) -> Option<bool>
    decreases fuel, (if j < vars.len() { vars.len() - j + 1 } else { 0 }),
{
    if j < 0 || j >= vars.len() {
        Some(true)
    } else {
        match null_walk(es, vars[j].name@, fuel) {
            None => None,
            Some(false) => Some(false),
            Some(true) => all_null(es, vars, j + 1, fuel),
        }
    }
}

/// The variables that are not resolvable, in order.
pub open spec fn unresolved_of(es: Entries) -> Seq<ResolvedVariable>
    decreases es.len(),
{
    if es.len() == 0 {
        Seq::empty()
    } else if is_resolvable_spec(es.last().1) {
        unresolved_of(es.drop_last())
    } else {
        unresolved_of(es.drop_last()).push(es.last().1)
    }
}

/// The entries whose variable is resolvable, in order.
pub open spec fn resolvable_of(es: Entries) -> Entries
    decreases es.len(),
{
    if es.len() == 0 {
        Seq::empty()
    } else if is_resolvable_spec(es.last().1) {
        resolvable_of(es.drop_last()).push(es.last())
    } else {
        resolvable_of(es.drop_last())
    }
}

/// `new` is `old` with `s` added to the siblings of the entry `k` (if
/// there is one).
pub open spec fn sibling_added(old: Entries, new: Entries, k: Seq<char>, s: ResolvedVariable) -> bool {
    let i = key_index(old, k);
    if i >= 0 {
        &&& new.len() == old.len()
        &&& forall|j: int| 0 <= j < old.len() && j != i ==> #[trigger] new[j] == old[j]
        &&& new[i].0 == k
        &&& new[i].1.path == old[i].1.path
        &&& new[i].1.value == old[i].1.value
        &&& new[i].1.variables == old[i].1.variables
        &&& new[i].1.resolved_id == old[i].1.resolved_id
        &&& new[i].1.siblings@ == old[i].1.siblings@.push(s)
    } else {
        new == old
    }
}

/// The same entries, values cloned.
pub open spec fn entries_same(a: Entries, b: Entries) -> bool {
    a.len() == b.len() && forall|i: int|
        0 <= i < a.len() ==> (#[trigger] a[i]).0 == b[i].0 && rv_same(a[i].1, b[i].1)
}

impl VariableSet {
    pub open spec fn wf(&self) -> bool {
        keys_unique(self@)
    }

    pub fn new() -> (r: Self)
        ensures
            r@ == Entries::empty(),
            r.wf(),
    {
        let r = VariableSet { variables: Vec::new() };
        assert(r@ =~= Entries::empty());
        r
    }

    fn find(&self, name: &str) -> (r: Option<usize>)
        ensures
            match r {
                Some(i) => key_index(self@, name@) == i,
                None => key_index(self@, name@) < 0,
            },
    {
        let n = chars_of(name);
        let mut i = self.variables.len();
        assert(self@.take(i as int) == self@);
        while i > 0
            invariant
                i <= self.variables@.len(),
                key_index(self@, name@) == key_index(self@.take(i as int), name@),
                n@ == name@,
            decreases i,
        {
            let ghost t = self@.take(i as int);
            assert(t.drop_last() == self@.take(i - 1));
            assert(t.last() == self@[i - 1]);
            i -= 1;
            if chars_eq(&chars_of(self.variables[i].0.as_str()), &n) {
                return Some(i);
            }
        }
        None
    }

    pub fn has_variable(&self, name: &str) -> (r: bool)
        ensures
            r == (key_index(self@, name@) >= 0),
    {
        self.find(name).is_some()
    }

    /// Adds or replaces the variable named `name`.
    pub fn insert(&mut self, name: &str, var: ResolvedVariable)
        requires
            old(self).wf(),
        ensures
            final(self)@ == set_entry(old(self)@, name@, var),
            final(self).wf(),
    {
        proof {
            lemma_set_entry_unique(self@, name@, var);
            lemma_key_index(self@, name@);
        }
        let ghost es = self@;
        match self.find(name) {
            Some(i) => {
                self.variables.set(i, (name.to_string(), var));
                assert(self@ =~= set_entry(es, name@, var));
            },
            None => {
                self.variables.push((name.to_string(), var));
                assert(self@ =~= set_entry(es, name@, var));
            },
        }
    }
}

impl VariableSet {
    /// Adds `var` to the siblings of the variable named `name`, if any.
    pub fn insert_sibling(&mut self, name: &str, var: ResolvedVariable)
        requires
            old(self).wf(),
        ensures
            sibling_added(old(self)@, final(self)@, name@, var),
            final(self).wf(),
    {
        let ghost es = self@;
        match self.find(name) {
            Some(i) => {
                proof {
                    lemma_key_index(es, name@);
                }
                let (k, mut e) = self.variables.remove(i);
                e.siblings.push(var);
                self.variables.insert(i, (k, e));
                proof {
                    assert forall|j: int| 0 <= j < es.len() && j != i implies #[trigger] self@[j]
                        == es[j] by {
                        if j < i {
                            assert(self@[j] == es[j]);
                        } else {
                            assert(self@[j] == es[j]);
                        }
                    }
                    assert forall|a: int, b: int| 0 <= a < b < self@.len() implies (
                    #[trigger] self@[a]).0 != (#[trigger] self@[b]).0 by {
                        assert(es[a].0 != es[b].0);
                    }
                }
            },
            None => {},
        }
    }

    /// The variables' values, in order.
    pub fn to_vec(&self) -> (r: Vec<ResolvedVariable>)
        ensures
            r@.len() == self@.len(),
            forall|i: int| 0 <= i < r@.len() ==> rv_same(#[trigger] r@[i], self@[i].1),
    {
        let mut r: Vec<ResolvedVariable> = Vec::new();
        for i in 0..self.variables.len()
            invariant
                r@.len() == i,
                forall|k: int| 0 <= k < i ==> rv_same(#[trigger] r@[k], self@[k].1),
        {
            r.push(self.variables[i].1.clone());
        }
        r
    }

    /// The names and variables, in order.
    pub fn to_map(&self) -> (r: Vec<(String, ResolvedVariable)>)
        ensures
            entries_same(r@.map_values(|e: (String, ResolvedVariable)| (e.0@, e.1)), self@),
    {
        let mut r: Vec<(String, ResolvedVariable)> = Vec::new();
        for i in 0..self.variables.len()
            invariant
                r@.len() == i,
                forall|k: int|
                    0 <= k < i ==> (#[trigger] r@[k]).0@ == self@[k].0 && rv_same(r@[k].1, self@[k].1),
        {
            r.push((self.variables[i].0.clone(), self.variables[i].1.clone()));
        }
        r
    }

    /// The variables that are not resolvable, in order.
    pub fn get_unresolved(&self) -> (r: Vec<ResolvedVariable>)
        ensures
            r@.len() == unresolved_of(self@).len(),
            forall|i: int| 0 <= i < r@.len() ==> rv_same(#[trigger] r@[i], unresolved_of(self@)[i]),
    {
        let mut r: Vec<ResolvedVariable> = Vec::new();
        for i in 0..self.variables.len()
            invariant
                r@.len() == unresolved_of(self@.take(i as int)).len(),
                forall|k: int|
                    0 <= k < r@.len() ==> rv_same(
                        #[trigger] r@[k],
                        unresolved_of(self@.take(i as int))[k],
                    ),
        {
            assert(self@.take(i + 1).drop_last() == self@.take(i as int));
            assert(self@.take(i + 1).last() == self@[i as int]);
            if !self.variables[i].1.is_resolvable() {
                r.push(self.variables[i].1.clone());
            }
        }
        assert(self@.take(self.variables.len() as int) == self@);
        r
    }

    /// Keeps only the resolvable variables.
    pub fn resolve(&mut self)
        requires
            old(self).wf(),
        ensures
            final(self)@ == resolvable_of(old(self)@),
            final(self).wf(),
    {
        let ghost es = self@;
        let mut kept: Vec<(String, ResolvedVariable)> = Vec::new();
        let mut rest: Vec<(String, ResolvedVariable)> = Vec::new();
        std::mem::swap(&mut rest, &mut self.variables);
        let n = rest.len();
        assert(es.skip(0) == es);
        while rest.len() > 0
            invariant
                rest@.len() <= n == es.len(),
                rest@.map_values(|e: (String, ResolvedVariable)| (e.0@, e.1)) == es.skip(
                    n - rest@.len(),
                ),
                kept@.map_values(|e: (String, ResolvedVariable)| (e.0@, e.1)) == resolvable_of(
                    es.take(n - rest@.len()),
                ),
            decreases rest.len(),
        {
            let ghost i = n - rest@.len();
            let ghost r0 = rest@;
            let e = rest.remove(0);
            assert(es.take(i + 1).drop_last() == es.take(i));
            assert(es.take(i + 1).last() == es[i]);
            assert(es.skip(i)[0] == es[i]);
            assert(rest@ == r0.remove(0));
            assert forall|j: int| 0 <= j < rest@.len() implies (#[trigger] rest@[j]).0@ == es[i + 1
                + j].0 && rest@[j].1 == es[i + 1 + j].1 by {
                assert(rest@[j] == r0[j + 1]);
                assert(r0.map_values(|e: (String, ResolvedVariable)| (e.0@, e.1))[j + 1] == es.skip(
                    i,
                )[j + 1]);
            }
            assert(rest@.map_values(|e: (String, ResolvedVariable)| (e.0@, e.1)) =~= es.skip(i + 1));
            if e.1.is_resolvable() {
                let ghost before = kept@;
                kept.push(e);
                assert(kept@.map_values(|e: (String, ResolvedVariable)| (e.0@, e.1)) =~= before.map_values(
                    |e: (String, ResolvedVariable)| (e.0@, e.1),
                ).push((e.0@, e.1)));
            }
        }
        assert(es.take(n as int) == es);
        self.variables = kept;
        proof {
            lemma_resolvable_sub(es);
        }
    }
}

/// Every entry of `resolvable_of(es)` is an entry of `es`, in order.
proof fn lemma_resolvable_sub(es: Entries)
    requires
        keys_unique(es),
    ensures
        keys_unique(resolvable_of(es)),
        forall|i: int|
            0 <= i < resolvable_of(es).len() ==> exists|j: int|
                0 <= j < es.len() && #[trigger] resolvable_of(es)[i] == es[j],
    decreases es.len(),
{
    if es.len() > 0 {
        let d = es.drop_last();
        assert(keys_unique(d));
        lemma_resolvable_sub(d);
        let r = resolvable_of(es);
        assert forall|i: int| 0 <= i < r.len() implies exists|j: int|
            0 <= j < es.len() && #[trigger] r[i] == es[j] by {
            if i < resolvable_of(d).len() {
                let j = choose|j: int| 0 <= j < d.len() && #[trigger] resolvable_of(d)[i] == d[j];
                assert(r[i] == es[j]);
            } else {
                assert(r[i] == es[es.len() - 1]);
            }
        }
        if is_resolvable_spec(es.last().1) {
            assert forall|a: int, b: int| 0 <= a < b < r.len() implies (#[trigger] r[a]).0 != (
            #[trigger] r[b]).0 by {
                if b < r.len() - 1 {
                    assert(resolvable_of(d)[a] == r[a]);
                    assert(resolvable_of(d)[b] == r[b]);
                } else {
                    let ja = choose|j: int| 0 <= j < d.len() && #[trigger] resolvable_of(d)[a] == d[j];
                    assert(r[a] == es[ja]);
                    assert(es[ja].0 != es[es.len() - 1].0);
                }
            }
        }
    }
}

/// The variable with its resolution cleared.
pub open spec fn unresolved(v: ResolvedVariable) -> ResolvedVariable {
    ResolvedVariable { resolved_id: None, ..v }
}

/// Every variable's changes can be applied without a panic.
pub open spec fn entries_safe(es: Entries) -> bool {
    forall|i: int| 0 <= i < es.len() ==> lists_safe(var_lists(#[trigger] es[i].1))
}

/// The paths of a variable and its siblings, as text.
pub open spec fn sibling_paths(v: ResolvedVariable) -> Seq<Seq<char>> {
    v.siblings@.map_values(|s: ResolvedVariable| path_text(s.path@))
}

/// What `safe_insert` does when `var` conflicts with `ex`, the variable
/// already named `name`: both move to their paths and `name` becomes a
/// pointer to them; when `ex` is already a pointer, `var` joins it.
pub open spec fn conflict_result(
    old: Entries,
    new: Entries,
    name: Seq<char>,
    var: ResolvedVariable,
    ex: ResolvedVariable,
) -> bool {
    let vp = path_text(var.path@);
    if !is_pointer_spec(ex) {
        exists|e2: ResolvedVariable, ptr: ResolvedVariable|
            #![trigger rv_same(e2, ex), new_pointer_of(ptr, name, vp, e2)]
            rv_same(e2, ex) && new_pointer_of(ptr, name, vp, e2) && new == set_entry(
                set_entry(set_entry(old, vp, unresolved(var)), path_text(e2.path@), unresolved(e2)),
                name,
                ptr,
            )
    } else if ex.value is Variables {
        exists|e2: ResolvedVariable|
            #[trigger] pointer_joined(e2, ex, vp) && new == set_entry(
                set_entry(old, vp, unresolved(var)),
                name,
                e2,
            )
    } else {
        new == old
    }
}

/// `ptr` is the pointer named `name` to `vp`, the path of `e`, and the
/// paths of its siblings.
pub open spec fn new_pointer_of(ptr: ResolvedVariable, name: Seq<char>, vp: Seq<char>, e: ResolvedVariable) -> bool {
    &&& ptr.path@ == parse_path(name)
    &&& ptr.value matches ParsedValue::Variables(v) && strings_view(v@) == seq![vp, path_text(e.path@)]
        + sibling_paths(e)
    &&& ptr.variables@.len() == 0
    &&& ptr.resolved_id == Some(UNRESOLVED_POINTER)
    &&& ptr.siblings@.len() == 0
}

/// `e` is the pointer `ex` with the path `vp` added.
pub open spec fn pointer_joined(e: ResolvedVariable, ex: ResolvedVariable, vp: Seq<char>) -> bool {
    &&& e.path@ == ex.path@
    &&& ex.value matches ParsedValue::Variables(a) && e.value matches ParsedValue::Variables(b)
        && strings_view(b@) == strings_view(a@).push(vp)
    &&& pvars_same(e.variables@, ex.variables@)
    &&& e.resolved_id == ex.resolved_id
    &&& e.siblings@.len() == ex.siblings@.len()
    &&& forall|i: int| 0 <= i < e.siblings@.len() ==> rv_same(#[trigger] e.siblings@[i], ex.siblings@[i])
}

fn numbered_name(name: &str, n: usize) -> (r: String)
    ensures
        r@ == numbered(name@, n as nat),
{
    let mut v = chars_of(name);
    append_chars(&mut v, &fmt_dec(n));
    string_of(&v)
}

proof fn lemma_rv_same_paths(a: ResolvedVariable, b: ResolvedVariable)
    requires
        rv_same(a, b),
    ensures
        sibling_paths(a) == sibling_paths(b),
        a.path@ == b.path@,
{
    assert forall|i: int| 0 <= i < a.siblings@.len() implies #[trigger] sibling_paths(a)[i]
        == sibling_paths(b)[i] by {
        assert(rv_same(a.siblings@[i], b.siblings@[i]));
    }
    assert(sibling_paths(a) =~= sibling_paths(b));
}

impl VariableSet {
    fn get_clone(&self, i: usize) -> (r: ResolvedVariable)
        requires
            i < self@.len(),
        ensures
            rv_same(r, self@[i as int].1),
    {
        self.variables[i].1.clone()
    }

    /// Inserts `var` as `name`; an earlier variable of that name moves to
    /// the first free name `name1`, `name2`, ...
    pub fn inc_insert(&mut self, name: &str, var: ResolvedVariable)
        requires
            old(self).wf(),
        ensures
            final(self).wf(),
            key_index(old(self)@, name@) < 0 ==> final(self)@ == set_entry(old(self)@, name@, var),
            key_index(old(self)@, name@) >= 0 ==> exists|c: nat, e: ResolvedVariable|
                #![trigger rv_same(e, old(self)@[key_index(old(self)@, name@)].1), numbered(name@, c)]
                1 <= c && rv_same(e, old(self)@[key_index(old(self)@, name@)].1) && (forall|k: nat|
                    1 <= k < c ==> key_index(old(self)@, #[trigger] numbered(name@, k)) >= 0) && (c
                    < usize::MAX ==> key_index(old(self)@, numbered(name@, c)) < 0) && final(self)@
                    == set_entry(set_entry(old(self)@, numbered(name@, c), e), name@, var),
    {
        let ghost es = self@;
        match self.find(name) {
            Some(i) => {
                proof {
                    lemma_key_index(es, name@);
                }
                let existing = self.get_clone(i);
                let mut count: usize = 1;
                while count < usize::MAX && self.has_variable(numbered_name(name, count).as_str())
                    invariant
                        1 <= count,
                        self@ == es,
                        forall|k: nat| 1 <= k < count ==> key_index(es, #[trigger] numbered(name@, k)) >= 0,
                    decreases usize::MAX - count,
                {
                    count += 1;
                }
                let nn = numbered_name(name, count);
                self.insert(nn.as_str(), existing);
                self.insert(name, var);
                assert(1 <= count as nat);
            },
            None => {
                self.insert(name, var);
            },
        }
    }

    /// Inserts `var` as `name`. A variable already named `name` with an
    /// equal identity gets `var` as a sibling; one that conflicts moves to
    /// its path together with `var`, and `name` becomes a pointer to both.
    pub fn safe_insert<S: ColorSpace>(&mut self, name: &str, var: ResolvedVariable, space: &S)
        requires
            old(self).wf(),
            entries_safe(old(self)@),
            lists_safe(var_lists(var)),
        ensures
            final(self).wf(),
            key_index(old(self)@, name@) < 0 ==> final(self)@ == set_entry(old(self)@, name@, var),
            key_index(old(self)@, name@) >= 0 ==> ({
                let ex = old(self)@[key_index(old(self)@, name@)].1;
                exists|p: ParsedValue, q: ParsedValue|
                    #[trigger] identity_value(var.value, var_lists(var), p) && #[trigger] identity_value(
                        ex.value,
                        var_lists(ex),
                        q,
                    ) && if pv_eq(p, q) {
                        sibling_added(old(self)@, final(self)@, name@, var)
                    } else {
                        conflict_result(old(self)@, final(self)@, name@, unresolved(var), ex)
                    }
            }),
    {
        let ghost es = self@;
        let i = match self.find(name) {
            None => {
                self.insert(name, var);
                return;
            },
            Some(i) => i,
        };
        proof {
            lemma_key_index(es, name@);
        }
        let same = var.identity_eq(&self.variables[i].1, space);
        if same {
            self.insert_sibling(name, var);
            return;
        }
        let mut existing = self.get_clone(i);
        let mut var = var;
        var.unresolve();
        let ghost ex = es[i as int].1;
        proof {
            lemma_rv_same_paths(existing, ex);
        }
        let vp = var.path.to_string();
        if !existing.is_pointer() {
            let ghost e2 = existing;
            existing.unresolve();
            let mut paths: Vec<String> = Vec::new();
            paths.push(vp.clone());
            let ep = existing.path.to_string();
            paths.push(ep.clone());
            for k in 0..existing.siblings.len()
                invariant
                    paths@.len() == 2 + k,
                    strings_view(paths@) == seq![vp@, path_text(e2.path@)] + sibling_paths(e2).take(
                        k as int,
                    ),
                    existing.siblings == e2.siblings,
            {
                let ghost before = paths@;
                paths.push(existing.siblings[k].path.to_string());
                assert(strings_view(paths@) =~= strings_view(before).push(sibling_paths(e2)[k as int]));
                assert(sibling_paths(e2).take(k + 1) =~= sibling_paths(e2).take(k as int).push(
                    sibling_paths(e2)[k as int],
                ));
            }
            assert(sibling_paths(e2).take(existing.siblings.len() as int) == sibling_paths(e2));
            let ptr = ResolvedVariable::new_pointer(name, &paths);
            proof {
                assert(existing == unresolved(e2));
                assert(new_pointer_of(ptr, name@, vp@, e2));
            }
            self.insert(vp.as_str(), var);
            self.insert(ep.as_str(), existing);
            self.insert(name, ptr);
        } else {
            let ghost e2 = existing;
            let mut v = ParsedValue::Null;
            std::mem::swap(&mut v, &mut existing.value);
            match v {
                ParsedValue::Variables(mut var_paths) => {
                    let ghost before = var_paths@;
                    var_paths.push(vp.clone());
                    assert(strings_view(var_paths@) =~= strings_view(before).push(vp@));
                    existing.value = ParsedValue::Variables(var_paths);
                    proof {
                        assert(pointer_joined(existing, ex, vp@));
                    }
                    self.insert(vp.as_str(), var);
                    self.insert(name, existing);
                },
                _ => {
                    assert(!(ex.value is Variables));
                },
            }
        }
    }
}

impl VariableSet {
    fn null_fuel(&self, name: &str, fuel: usize) -> (r: Option<bool>)
        ensures
            r == null_walk(self@, name@, fuel as nat),
        decreases fuel, 0nat,
    {
        if fuel == 0 {
            return None;
        }
        match self.find(name) {
            None => Some(true),
            Some(i) => {
                proof {
                    lemma_key_index(self@, name@);
                }
                let v = &self.variables[i].1;
                match self.all_null_fuel(&v.variables, 1, fuel - 1) {
                    None => None,
                    Some(true) => Some(
                        match v.value {
                            ParsedValue::Null => true,
                            _ => false,
                        },
                    ),
                    Some(false) => Some(true),
                }
            },
        }
    }

    fn all_null_fuel(&self, vars: &Vec<ParsedVariable>, j: usize, fuel: usize) -> (r: Option<bool>)
        ensures
            r == all_null(self@, vars@, j as int, fuel as nat),
        decreases fuel, (if j < vars@.len() { vars@.len() - j + 1 } else { 0 }),
    {
        if j >= vars.len() {
            return Some(true);
        }
        match self.null_fuel(vars[j].name.as_str(), fuel) {
            None => None,
            Some(false) => Some(false),
            Some(true) => self.all_null_fuel(vars, j + 1, fuel),
        }
    }

    /// `is_null`, or `None` when the walk through the names does not end
    /// within as many steps as there are variables (the names refer to
    /// each other in a cycle).
    pub fn is_null_checked(&self, name: &str) -> (r: Option<bool>)
        requires
            self@.len() < usize::MAX,
        ensures
            r == null_walk(self@, name@, (self@.len() + 1) as nat),
    {
        self.null_fuel(name, self.variables.len() + 1)
    }

    /// Whether the variable `name` is null: absent, one of its further
    /// names not null, or its value null. The walk through the names must
    /// end, as it does when they do not refer to each other in a cycle.
    pub fn is_null(&self, name: &str) -> (r: bool)
        requires
            self@.len() < usize::MAX,
            null_walk(self@, name@, (self@.len() + 1) as nat) is Some,
        ensures
            Some(r) == null_walk(self@, name@, (self@.len() + 1) as nat),
    {
        match self.null_fuel(name, self.variables.len() + 1) {
            Some(b) => b,
            None => true,
        }
    }
}

/// Every string in the value reads without a panic.
pub open spec fn json_ok(j: JsonV) -> bool
    decreases j, 0nat,
{
    match j {
        JsonV::Str(s) => value_text_ok(s),
        JsonV::Array(a) => all_ok(a),
        JsonV::Object(o) => entries_ok(o),
        _ => true,
    }
}

pub open spec fn all_ok(a: Seq<JsonV>) -> bool
    decreases a, a.len(),
{
    if a.len() == 0 {
        true
    } else {
        proof {
            assert(decreases_to!(a => a.drop_last()));
        }
        all_ok(a.drop_last()) && json_ok(a.last())
    }
}

pub open spec fn entries_ok(o: Seq<(Seq<char>, JsonV)>) -> bool
    decreases o, o.len(),
{
    if o.len() == 0 {
        true
    } else {
        proof {
            assert(decreases_to!(o => o.drop_last()));
        }
        entries_ok(o.drop_last()) && json_ok(o.last().1)
    }
}

pub proof fn lemma_all_ok(a: Seq<JsonV>)
    ensures
        all_ok(a) <==> forall|i: int| 0 <= i < a.len() ==> json_ok(#[trigger] a[i]),
    decreases a.len(),
{
    if a.len() > 0 {
        lemma_all_ok(a.drop_last());
        assert forall|i: int| 0 <= i < a.len() - 1 implies a.drop_last()[i] == a[i] by {}
    }
}

pub proof fn lemma_entries_ok(o: Seq<(Seq<char>, JsonV)>)
    ensures
        entries_ok(o) <==> forall|i: int| 0 <= i < o.len() ==> json_ok(#[trigger] o[i].1),
    decreases o.len(),
{
    if o.len() > 0 {
        lemma_entries_ok(o.drop_last());
        assert forall|i: int| 0 <= i < o.len() - 1 implies o.drop_last()[i] == o[i] by {}
    }
}

/// Tells whether every string in `j` reads without a panic.
pub fn json_ok_exec<S: ColorSpace>(j: &Json, space: &S) -> (r: bool)
    ensures
        r == json_ok(jview(*j)),
    decreases j,
{
    match j {
        Json::String(s) => ParsedValue::text_ok(s.as_str(), space),
        Json::Array(a) => {
            for i in 0..a.len()
                invariant
                    *j == Json::Array(*a),
                    forall|k: int| 0 <= k < i ==> json_ok(#[trigger] jview(a@[k])),
            {
                assert(decreases_to!(*j => (*j)->Array_0));
                assert(decreases_to!(*a => a@));
                assert(decreases_to!(a@ => a@[i as int]));
                if !json_ok_exec(&a[i], space) {
                    assert(jviews(a@)[i as int] == jview(a@[i as int]));
                    proof {
                        lemma_all_ok(jviews(a@));
                    }
                    return false;
                }
            }
            assert forall|k: int| 0 <= k < jviews(a@).len() implies json_ok(#[trigger] jviews(a@)[k]) by {
                assert(jviews(a@)[k] == jview(a@[k]));
            }
            proof {
                lemma_all_ok(jviews(a@));
            }
            true
        },
        Json::Object(o) => {
            for i in 0..o.len()
                invariant
                    *j == Json::Object(*o),
                    forall|k: int| 0 <= k < i ==> json_ok(#[trigger] jview(o@[k].1)),
            {
                assert(decreases_to!(*j => (*j)->Object_0));
                assert(decreases_to!(*o => o@));
                assert(decreases_to!(o@ => o@[i as int]));
                assert(decreases_to!(o@[i as int] => o@[i as int].1));
                if !json_ok_exec(&o[i].1, space) {
                    assert(jentries(o@)[i as int].1 == jview(o@[i as int].1));
                    proof {
                        lemma_entries_ok(jentries(o@));
                    }
                    return false;
                }
            }
            assert forall|k: int| 0 <= k < jentries(o@).len() implies json_ok(
                #[trigger] jentries(o@)[k].1,
            ) by {
                assert(jentries(o@)[k].1 == jview(o@[k].1));
            }
            proof {
                lemma_entries_ok(jentries(o@));
            }
            true
        },
        _ => true,
    }
}

proof fn lemma_names_of_first(ps: Seq<Seq<char>>)
    requires
        ps.len() >= 1,
        var_piece(ps[0]) is Some,
    ensures
        var_names_of(ps).len() >= 1,
    decreases ps.len(),
{
    if ps.len() > 1 {
        assert(ps.drop_last()[0] == ps[0]);
        lemma_names_of_first(ps.drop_last());
    }
}

/// A variable text names at least one variable.
pub proof fn lemma_var_names_nonempty(s: Seq<char>)
    requires
        potential_var_spec(s),
    ensures
        var_names(s).len() >= 1,
{
    lemma_split_first(s, '|');
    let p = split_seq(s, '|')[0];
    lemma_trim_first(p);
    lemma_names_of_first(split_seq(s, '|'));
}

/// Every string in the value satisfies `p`.
pub open spec fn all_strings(j: JsonV, p: spec_fn(Seq<char>) -> bool) -> bool
    decreases j, 0nat,
{
    match j {
        JsonV::Str(s) => p(s),
        JsonV::Array(a) => all_strings_seq(a, p),
        JsonV::Object(o) => all_strings_entries(o, p),
        _ => true,
    }
}

pub open spec fn all_strings_seq(a: Seq<JsonV>, p: spec_fn(Seq<char>) -> bool) -> bool
    decreases a, a.len(),
{
    if a.len() == 0 {
        true
    } else {
        proof {
            assert(decreases_to!(a => a.drop_last()));
        }
        all_strings_seq(a.drop_last(), p) && all_strings(a.last(), p)
    }
}

pub open spec fn all_strings_entries(o: Seq<(Seq<char>, JsonV)>, p: spec_fn(Seq<char>) -> bool) -> bool
    decreases o, o.len(),
{
    if o.len() == 0 {
        true
    } else {
        proof {
            assert(decreases_to!(o => o.drop_last()));
        }
        all_strings_entries(o.drop_last(), p) && all_strings(o.last().1, p)
    }
}

pub proof fn lemma_all_strings_seq(a: Seq<JsonV>, p: spec_fn(Seq<char>) -> bool)
    ensures
        all_strings_seq(a, p) <==> forall|i: int| 0 <= i < a.len() ==> all_strings(#[trigger] a[i], p),
    decreases a.len(),
{
    if a.len() > 0 {
        lemma_all_strings_seq(a.drop_last(), p);
        assert forall|i: int| 0 <= i < a.len() - 1 implies a.drop_last()[i] == a[i] by {}
    }
}

pub proof fn lemma_all_strings_entries(o: Seq<(Seq<char>, JsonV)>, p: spec_fn(Seq<char>) -> bool)
    ensures
        all_strings_entries(o, p) <==> forall|i: int| 0 <= i < o.len() ==> all_strings(#[trigger] o[i].1, p),
    decreases o.len(),
{
    if o.len() > 0 {
        lemma_all_strings_entries(o.drop_last(), p);
        assert forall|i: int| 0 <= i < o.len() - 1 implies o.drop_last()[i] == o[i] by {}
    }
}

/// Texts that can be read both as a value and as variable references.
pub open spec fn source_text_ok(s: Seq<char>) -> bool {
    value_text_ok(s) && pieces_ok(s)
}

pub proof fn lemma_key_index_pub(es: Entries, k: Seq<char>)
    ensures
        -1 <= key_index(es, k) < es.len(),
        key_index(es, k) >= 0 ==> es[key_index(es, k)].0 == k,
{
    lemma_key_index(es, k);
}

} // verus!

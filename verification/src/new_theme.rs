//! The `new` command's settings: theme names, styles, variants, theme
//! files and the flags that set them.
use vstd::prelude::*;
use crate::text::{
    chars_of, string_of, append_chars, starts_with, has_prefix, split_seq, split_char, trim, trim_seq,
    to_lower, unicode_lower, replace_chars, lemma_split_seq_nonempty,
};
use crate::generate::{flag_value, flag_dir, last_piece};
use crate::args::ProgramError;

verus! {

/// Dark or light.
#[derive(Debug, PartialEq, Eq, Structural)]
pub enum ThemeStyle {
    Dark,
    Light,
}

/// `ThemeStyle::from_str`: a text starting with `d` is dark, one starting
/// with `l` light.
pub open spec fn style_of(s: Seq<char>) -> Option<ThemeStyle> {
    if s.len() > 0 && s[0] == 'd' {
        Some(ThemeStyle::Dark)
    } else if s.len() > 0 && s[0] == 'l' {
        Some(ThemeStyle::Light)
    } else {
        None
    }
}

pub open spec fn style_error(s: Seq<char>, e: ProgramError) -> bool {
    e matches ProgramError::InvalidFlag(c, m) && c@ == "new"@ && m@ == "Invalid style: "@ + s
}

impl ThemeStyle {
    pub fn from_str(s: &str) -> (r: Result<Self, ProgramError>)
        ensures
            match style_of(s@) {
                Some(t) => r == Ok::<ThemeStyle, ProgramError>(t),
                None => r matches Err(e) && style_error(s@, e),
            },
    {
        let c = chars_of(s);
        if c.len() > 0 && c[0] == 'd' {
            Ok(ThemeStyle::Dark)
        } else if c.len() > 0 && c[0] == 'l' {
            Ok(ThemeStyle::Light)
        } else {
            let mut m = chars_of("Invalid style: ");
            append_chars(&mut m, &c);
            Err(ProgramError::InvalidFlag(String::from_str("new"), string_of(&m)))
        }
    }

    pub fn clone_style(&self) -> (r: Self)
        ensures
            r == *self,
    {
        match self {
            ThemeStyle::Dark => ThemeStyle::Dark,
            ThemeStyle::Light => ThemeStyle::Light,
        }
    }
}

/// A theme's name as written, and in lower case with dashes for spaces.
#[derive(Debug)]
pub struct ThemeNames {
    pub name: String,
    pub dash_case: String,
}

pub open spec fn dash_case(s: Seq<char>) -> Seq<char> {
    unicode_lower(s).map_values(
        |c: char|
            if c == ' ' {
                '-'
            } else {
                c
            },
    )
}

impl ThemeNames {
    pub fn from_str(s: &str) -> (r: Self)
        ensures
            r.name@ == s@,
            r.dash_case@ == dash_case(s@),
    {
        let low = chars_of(to_lower(s).as_str());
        let mut d: Vec<char> = Vec::new();
        for i in 0..low.len()
            invariant
                low@ == unicode_lower(s@),
                d@ == low@.take(i as int).map_values(
                    |c: char|
                        if c == ' ' {
                            '-'
                        } else {
                            c
                        },
                ),
        {
            let c = low[i];
            d.push(
                if c == ' ' {
                    '-'
                } else {
                    c
                },
            );
            assert(low@.take(i + 1) =~= low@.take(i as int).push(c));
        }
        assert(low@.take(low.len() as int) =~= low@);
        ThemeNames { name: s.to_string(), dash_case: string_of(&d) }
    }
}

/// A theme variant: its names and its style.
#[derive(Debug)]
pub struct Variant {
    pub names: ThemeNames,
    pub style: ThemeStyle,
}

/// A variant's name, dashed name and style.
pub type VariantV = (Seq<char>, Seq<char>, ThemeStyle);

pub open spec fn variant_view(v: Variant) -> VariantV {
    (v.names.name@, v.names.dash_case@, v.style)
}

/// `Variant::from_str` on `name:style`: the style is light when the part
/// after the colon starts with `l`, dark otherwise.
pub open spec fn variant_of(s: Seq<char>) -> VariantV {
    let parts = split_seq(s, ':');
    (
        parts[0],
        dash_case(parts[0]),
        if parts.len() > 1 && parts[1].len() > 0 && parts[1][0] == 'l' {
            ThemeStyle::Light
        } else {
            ThemeStyle::Dark
        },
    )
}

impl Variant {
    pub fn from_str(s: &str) -> (r: Self)
        ensures
            variant_view(r) == variant_of(s@),
    {
        let parts = split_char(&chars_of(s), ':');
        proof {
            lemma_split_seq_nonempty(s@, ':');
        }
        let names = ThemeNames::from_str(string_of(&parts[0]).as_str());
        let style = if parts.len() > 1 && parts[1].len() > 0 && parts[1][0] == 'l' {
            ThemeStyle::Light
        } else {
            ThemeStyle::Dark
        };
        Variant { names, style }
    }
}

/// A theme file to start a style's themes from.
#[derive(Debug)]
pub struct ThemeFile {
    pub path: String,
    pub style: ThemeStyle,
}

pub type ThemeV = (Seq<char>, ThemeStyle);

pub open spec fn theme_view(t: ThemeFile) -> ThemeV {
    (t.path@, t.style)
}

/// The path part of `path:style`.
pub open spec fn theme_path(s: Seq<char>) -> Seq<char> {
    split_seq(s, ':')[0]
}

/// `ThemeFile::from_str` on `path:style`, where `exists` tells whether the
/// path exists: dark when no style is given.
pub open spec fn theme_outcome(s: Seq<char>, exists: bool, r: Result<ThemeFile, ProgramError>) -> bool {
    let parts = split_seq(s, ':');
    if !exists {
        r matches Err(ProgramError::Processing(m)) && m@ == "Theme file does not exist: "@ + parts[0]
    } else if parts.len() < 2 {
        r matches Ok(t) && theme_view(t) == (parts[0], ThemeStyle::Dark)
    } else {
        match style_of(parts[1]) {
            Some(st) => r matches Ok(t) && theme_view(t) == (parts[0], st),
            None => r matches Err(e) && style_error(parts[1], e),
        }
    }
}

pub open spec fn theme_reads(s: Seq<char>, exists: bool) -> bool {
    let parts = split_seq(s, ':');
    exists && (parts.len() < 2 || style_of(parts[1]) is Some)
}

impl ThemeFile {
    /// The path a `path:style` text names, whose existence `from_str` needs.
    pub fn path_of(s: &str) -> (r: String)
        ensures
            r@ == theme_path(s@),
    {
        let parts = split_char(&chars_of(s), ':');
        proof {
            lemma_split_seq_nonempty(s@, ':');
        }
        string_of(&parts[0])
    }

    pub fn from_str(s: &str, exists: bool) -> (r: Result<Self, ProgramError>)
        ensures
            theme_outcome(s@, exists, r),
            r is Ok <==> theme_reads(s@, exists),
    {
        let parts = split_char(&chars_of(s), ':');
        proof {
            lemma_split_seq_nonempty(s@, ':');
        }
        if !exists {
            let mut m = chars_of("Theme file does not exist: ");
            append_chars(&mut m, &parts[0]);
            return Err(ProgramError::Processing(string_of(&m)));
        }
        let style = if parts.len() < 2 {
            ThemeStyle::Dark
        } else {
            match ThemeStyle::from_str(string_of(&parts[1]).as_str()) {
                Ok(st) => st,
                Err(e) => {
                    return Err(e);
                },
            }
        };
        Ok(ThemeFile { path: string_of(&parts[0]), style })
    }
}

/// The items of a comma-separated list: trimmed, empty ones left out.
pub open spec fn list_items(v: Seq<char>) -> Seq<Seq<char>> {
    split_seq(v, ',').map_values(|p: Seq<char>| trim_seq(p)).filter(|p: Seq<char>| p.len() > 0)
}

/// The items of the list a flag holds after its `=`.
pub fn flag_items(flag: &str) -> (r: Vec<String>)
    ensures
        r@.map_values(|s: String| s@) == list_items(flag_value(flag@)),
{
    let v = last_piece(&chars_of(flag), '=');
    let pieces = split_char(&v, ',');
    let ghost ps = split_seq(v@, ',');
    let ghost tr = ps.map_values(|p: Seq<char>| trim_seq(p));
    let mut out: Vec<String> = Vec::new();
    for i in 0..pieces.len()
        invariant
            ps == split_seq(v@, ','),
            tr == ps.map_values(|p: Seq<char>| trim_seq(p)),
            pieces@.len() == ps.len(),
            forall|j: int| 0 <= j < pieces@.len() ==> (#[trigger] pieces@[j])@ == ps[j],
            out@.map_values(|s: String| s@) == tr.take(i as int).filter(|p: Seq<char>| p.len() > 0),
    {
        reveal(Seq::filter);
        assert(tr.take(i + 1).drop_last() =~= tr.take(i as int));
        assert(tr.take(i + 1).last() == trim_seq(pieces@[i as int]@));
        let t = trim(&pieces[i]);
        if t.len() > 0 {
            let ghost o0 = out@;
            out.push(string_of(&t));
            assert(out@.map_values(|s: String| s@) =~= o0.map_values(|s: String| s@).push(t@));
        }
    }
    assert(tr.take(pieces.len() as int) =~= tr);
    out
}

/// One flag of the `new` command.
#[derive(Debug)]
pub enum FlagTypes {
    OutputDirectory(String),
    Template(String),
    Style(ThemeStyle),
    Variants(Vec<Variant>),
    Description(String),
    Themes(Vec<ThemeFile>),
}

/// A flag taking a directory or file: `-o` or `-t`.
pub open spec fn takes_path(f: Seq<char>) -> bool {
    starts_with(f, "-o"@) || starts_with(f, "-t"@)
}

/// The flag reads as a list of theme files: `-T` (and not `-o` or `-t`).
pub open spec fn is_themes_flag(f: Seq<char>) -> bool {
    !takes_path(f) && starts_with(f, "-T"@)
}

/// `FlagTypes::from_str`; `exists` tells whether the path of a `-o` or
/// `-t` flag exists, `themes_exist` whether each theme file of a `-T` flag
/// does.
pub open spec fn new_flag(
    f: Seq<char>,
    home: Seq<char>,
    exists: bool,
    themes_exist: Seq<bool>,
    r: Result<FlagTypes, ProgramError>,
) -> bool {
    if takes_path(f) {
        if !exists {
            r matches Err(ProgramError::Processing(m)) && m@ == "Invalid file/directory: "@ + flag_dir(f, home)
        } else if starts_with(f, "-o"@) {
            r matches Ok(FlagTypes::OutputDirectory(d)) && d@ == flag_dir(f, home)
        } else {
            r matches Ok(FlagTypes::Template(d)) && d@ == flag_dir(f, home)
        }
    } else if starts_with(f, "-T"@) {
        let items = list_items(flag_value(f));
        r matches Ok(FlagTypes::Themes(ts)) && ts@.len() == items.len() && forall|i: int|
            0 <= i < items.len() ==> theme_outcome(items[i], themes_exist[i], Ok(#[trigger] ts@[i]))
    } else if starts_with(f, "-s"@) {
        match style_of(flag_value(f)) {
            Some(st) => r matches Ok(FlagTypes::Style(x)) && x == st,
            None => r matches Err(e) && style_error(flag_value(f), e),
        }
    } else if starts_with(f, "-v"@) {
        let items = list_items(flag_value(f));
        r matches Ok(FlagTypes::Variants(vs)) && vs@.len() == items.len() && forall|i: int|
            0 <= i < items.len() ==> variant_view(#[trigger] vs@[i]) == variant_of(items[i])
    } else if starts_with(f, "-d"@) {
        r matches Ok(FlagTypes::Description(d)) && d@ == flag_value(f)
    } else {
        r matches Err(ProgramError::InvalidFlag(c, g)) && c@ == "reverse"@ && g@ == f
    }
}

/// The flag reads without an error.
pub open spec fn new_flag_ok(f: Seq<char>, exists: bool) -> bool {
    if takes_path(f) {
        exists
    } else if starts_with(f, "-T"@) || starts_with(f, "-v"@) || starts_with(f, "-d"@) {
        true
    } else if starts_with(f, "-s"@) {
        style_of(flag_value(f)) is Some
    } else {
        false
    }
}

/// Each theme file a `-T` flag lists reads; creation stops on one that
/// does not.
pub open spec fn themes_read(f: Seq<char>, themes_exist: Seq<bool>) -> bool {
    is_themes_flag(f) ==> themes_exist.len() == list_items(flag_value(f)).len() && forall|i: int|
        0 <= i < themes_exist.len() ==> #[trigger] theme_reads(list_items(flag_value(f))[i], themes_exist[i])
}

impl FlagTypes {
    pub fn from_str(flag: &str, home: &str, exists: bool, themes_exist: &Vec<bool>) -> (r: Result<
        Self,
        ProgramError,
    >)
        requires
            themes_read(flag@, themes_exist@),
        ensures
            new_flag(flag@, home@, exists, themes_exist@, r),
            r is Ok <==> new_flag_ok(flag@, exists),
    {
        let f = chars_of(flag);
        if has_prefix(&f, "-o") || has_prefix(&f, "-t") {
            let mut tilde: Vec<char> = Vec::new();
            tilde.push('~');
            assert(tilde@ =~= seq!['~']);
            let d = replace_chars(&last_piece(&f, '='), &tilde, &chars_of(home));
            if !exists {
                let mut m = chars_of("Invalid file/directory: ");
                append_chars(&mut m, &d);
                return Err(ProgramError::Processing(string_of(&m)));
            }
            if has_prefix(&f, "-o") {
                return Ok(FlagTypes::OutputDirectory(string_of(&d)));
            }
            return Ok(FlagTypes::Template(string_of(&d)));
        }
        if has_prefix(&f, "-T") {
            let items = flag_items(flag);
            let ghost iv = items@.map_values(|s: String| s@);
            let mut ts: Vec<ThemeFile> = Vec::new();
            for i in 0..items.len()
                invariant
                    iv == items@.map_values(|s: String| s@),
                    iv == list_items(flag_value(flag@)),
                    themes_read(flag@, themes_exist@),
                    is_themes_flag(flag@),
                    ts@.len() == i,
                    forall|k: int| 0 <= k < i ==> theme_outcome(iv[k], themes_exist@[k], Ok(#[trigger] ts@[k])),
            {
                assert(theme_reads(iv[i as int], themes_exist@[i as int]));
                match ThemeFile::from_str(items[i].as_str(), themes_exist[i]) {
                    Ok(t) => ts.push(t),
                    Err(_) => {
                        assert(false);
                        return Err(ProgramError::NoCommand);
                    },
                }
            }
            return Ok(FlagTypes::Themes(ts));
        }
        if has_prefix(&f, "-s") {
            proof {
                reveal_strlit("-s");
                reveal_strlit("-T");
                reveal_strlit("-v");
                reveal_strlit("-d");
                assert(flag@.take(2)[1] == 's');
            }
            return match ThemeStyle::from_str(string_of(&last_piece(&f, '=')).as_str()) {
                Ok(st) => Ok(FlagTypes::Style(st)),
                Err(e) => Err(e),
            };
        }
        if has_prefix(&f, "-v") {
            let items = flag_items(flag);
            let ghost iv = items@.map_values(|s: String| s@);
            let mut vs: Vec<Variant> = Vec::new();
            for i in 0..items.len()
                invariant
                    iv == items@.map_values(|s: String| s@),
                    vs@.len() == i,
                    forall|k: int| 0 <= k < i ==> variant_view(#[trigger] vs@[k]) == variant_of(iv[k]),
            {
                vs.push(Variant::from_str(items[i].as_str()));
            }
            return Ok(FlagTypes::Variants(vs));
        }
        if has_prefix(&f, "-d") {
            return Ok(FlagTypes::Description(string_of(&last_piece(&f, '='))));
        }
        Err(ProgramError::InvalidFlag(String::from_str("reverse"), flag.to_string()))
    }
}


/// Which setting a flag sets, in the order `from_str` tries them: output
/// directory, template, theme files, style, variants, description; 6 for
/// none.
pub open spec fn kind_of(f: Seq<char>) -> int {
    if starts_with(f, "-o"@) {
        0
    } else if starts_with(f, "-t"@) {
        1
    } else if starts_with(f, "-T"@) {
        2
    } else if starts_with(f, "-s"@) {
        3
    } else if starts_with(f, "-v"@) {
        4
    } else if starts_with(f, "-d"@) {
        5
    } else {
        6
    }
}

/// The index of the last of the first `n` flags that sets setting `k`, or -1.
pub open spec fn last_of(fs: Seq<Seq<char>>, n: int, k: int) -> int
    decreases n,
{
    if n <= 0 || n > fs.len() {
        -1
    } else if kind_of(fs[n - 1]) == k {
        n - 1
    } else {
        last_of(fs, n - 1, k)
    }
}

/// The style of a `path:style` theme item that reads.
pub open spec fn item_style(s: Seq<char>) -> ThemeStyle {
    let parts = split_seq(s, ':');
    if parts.len() < 2 {
        ThemeStyle::Dark
    } else {
        style_of(parts[1])->0
    }
}

pub open spec fn theme_item(s: Seq<char>) -> ThemeV {
    (theme_path(s), item_style(s))
}

/// What `std::path::Path::join` gives, as text.
pub uninterp spec fn path_joined(base: Seq<char>, rel: Seq<char>) -> Seq<char>;

/// `std::path::Path::new(base).join(rel)`, as text: `rel` after `base`
/// and a separator, as std's path rules put them.
#[verifier::external_body]
fn path_join(base: &str, rel: &str) -> (r: String)
    ensures
        r@ == path_joined(base@, rel@),
{
    std::path::Path::new(base).join(rel).to_string_lossy().to_string()
}

/// The settings of the `new` command.
#[derive(Debug)]
pub struct Flags {
    pub output_directory: String,
    pub template: String,
    pub style: ThemeStyle,
    pub variants: Vec<Variant>,
    pub description: String,
    pub themes: Vec<ThemeFile>,
}

pub open spec fn default_themes(manifest: Seq<char>) -> Seq<ThemeV> {
    seq![
        (path_joined(manifest, "themes/theme-dark.json"@), ThemeStyle::Dark),
        (path_joined(manifest, "themes/theme-light.json"@), ThemeStyle::Light),
    ]
}

/// The settings the flags give, the last flag of each kind winning, with
/// the defaults: `.`, the template shipped with the program, dark, no
/// variants, a description for zed, and the two themes shipped with the
/// program (also when the last `-T` flag lists none).
pub open spec fn new_settings(fs: Seq<Seq<char>>, home: Seq<char>, manifest: Seq<char>, f: Flags) -> bool {
    let n = fs.len() as int;
    let o = last_of(fs, n, 0);
    let t = last_of(fs, n, 1);
    let th = last_of(fs, n, 2);
    let st = last_of(fs, n, 3);
    let vs = last_of(fs, n, 4);
    let d = last_of(fs, n, 5);
    let listed = if th < 0 {
        Seq::<ThemeV>::empty()
    } else {
        list_items(flag_value(fs[th])).map_values(|x: Seq<char>| theme_item(x))
    };
    &&& f.output_directory@ == if o < 0 {
        "."@
    } else {
        flag_dir(fs[o], home)
    }
    &&& f.template@ == if t < 0 {
        path_joined(manifest, "templates/new-hls.json.template"@)
    } else {
        flag_dir(fs[t], home)
    }
    &&& f.style == if st < 0 {
        ThemeStyle::Dark
    } else {
        style_of(flag_value(fs[st]))->0
    }
    &&& f.variants@.map_values(|v: Variant| variant_view(v)) == if vs < 0 {
        Seq::<VariantV>::empty()
    } else {
        list_items(flag_value(fs[vs])).map_values(|x: Seq<char>| variant_of(x))
    }
    &&& f.description@ == if d < 0 {
        "This is a theme made for zed."@
    } else {
        flag_value(fs[d])
    }
    &&& f.themes@.map_values(|t: ThemeFile| theme_view(t)) == if listed.len() == 0 {
        default_themes(manifest)
    } else {
        listed
    }
}

impl FlagTypes {
    /// Reads every flag; the first that fails gives the error.
    pub fn into_vec(flags: &Vec<String>, home: &str, exists: &Vec<bool>, themes_exist: &Vec<Vec<bool>>) -> (r: Result<
        Vec<Self>,
        ProgramError,
    >)
        requires
            exists@.len() == flags@.len(),
            themes_exist@.len() == flags@.len(),
            forall|i: int| 0 <= i < flags@.len() ==> themes_read(#[trigger] flags@[i]@, themes_exist@[i]@),
        ensures
            r is Ok <==> forall|i: int| 0 <= i < flags@.len() ==> #[trigger] new_flag_ok(flags@[i]@, exists@[i]),
            r matches Ok(v) ==> v@.len() == flags@.len() && forall|i: int|
                0 <= i < v@.len() ==> new_flag(flags@[i]@, home@, exists@[i], themes_exist@[i]@, Ok(#[trigger] v@[i])),
            r matches Err(e) ==> exists|i: int|
                0 <= i < flags@.len() && new_flag(flags@[i]@, home@, exists@[i], themes_exist@[i]@, Err(e)) && forall|j: int|
                    0 <= j < i ==> #[trigger] new_flag_ok(flags@[j]@, exists@[j]),
    {
        let mut v: Vec<FlagTypes> = Vec::new();
        for i in 0..flags.len()
            invariant
                exists@.len() == flags@.len(),
                themes_exist@.len() == flags@.len(),
                forall|i: int| 0 <= i < flags@.len() ==> themes_read(#[trigger] flags@[i]@, themes_exist@[i]@),
                v@.len() == i,
                forall|k: int| 0 <= k < i ==> new_flag(flags@[k]@, home@, exists@[k], themes_exist@[k]@, Ok(#[trigger] v@[k])),
                forall|k: int| 0 <= k < i ==> #[trigger] new_flag_ok(flags@[k]@, exists@[k]),
        {
            assert(themes_read(flags@[i as int]@, themes_exist@[i as int]@));
            match Self::from_str(flags[i].as_str(), home, exists[i], &themes_exist[i]) {
                Ok(f) => v.push(f),
                Err(e) => {
                    assert(!new_flag_ok(flags@[i as int]@, exists@[i as int]));
                    return Err(e);
                },
            }
        }
        Ok(v)
    }
}

proof fn lemma_kind(f: Seq<char>, home: Seq<char>, exists: bool, te: Seq<bool>, x: FlagTypes)
    requires
        new_flag(f, home, exists, te, Ok(x)),
    ensures
        x is OutputDirectory ==> kind_of(f) == 0,
        x is Template ==> kind_of(f) == 1,
        x is Themes ==> kind_of(f) == 2,
        x is Style ==> kind_of(f) == 3,
        x is Variants ==> kind_of(f) == 4,
        x is Description ==> kind_of(f) == 5,
        kind_of(f) != 6,
{
}

impl FlagTypes {
    /// The settings the flags give (see `new_settings`); `manifest` is the
    /// directory the program ships its templates and themes in.
    pub fn parse(
        flags: &Vec<String>,
        home: &str,
        exists: &Vec<bool>,
        themes_exist: &Vec<Vec<bool>>,
        manifest: &str,
    ) -> (r: Result<Flags, ProgramError>)
        requires
            exists@.len() == flags@.len(),
            themes_exist@.len() == flags@.len(),
            forall|i: int| 0 <= i < flags@.len() ==> themes_read(#[trigger] flags@[i]@, themes_exist@[i]@),
        ensures
            r is Ok <==> forall|i: int| 0 <= i < flags@.len() ==> #[trigger] new_flag_ok(flags@[i]@, exists@[i]),
            r matches Err(e) ==> exists|i: int|
                0 <= i < flags@.len() && new_flag(flags@[i]@, home@, exists@[i], themes_exist@[i]@, Err(e)),
            r matches Ok(f) ==> new_settings(flags@.map_values(|s: String| s@), home@, manifest@, f),
    {
        let list = match Self::into_vec(flags, home, exists, themes_exist) {
            Ok(l) => l,
            Err(e) => {
                return Err(e);
            },
        };
        let ghost fs = flags@.map_values(|s: String| s@);
        let n = list.len();
        let mut output_directory = String::from_str(".");
        let mut template: Option<String> = None;
        let mut style = ThemeStyle::Dark;
        let mut variants: Vec<Variant> = Vec::new();
        let mut description = String::from_str("This is a theme made for zed.");
        let mut themes: Vec<ThemeFile> = Vec::new();
        let mut list = list;
        let mut i: usize = 0;
        assert forall|k: int| 0 <= k < list@.len() implies new_flag(
            fs[0 + k],
            home@,
            exists@[0 + k],
            themes_exist@[0 + k]@,
            Ok(#[trigger] list@[k]),
        ) by {
            assert(fs[k] == flags@[k]@);
        }
        while list.len() > 0
            invariant
                n == flags@.len(),
                fs == flags@.map_values(|s: String| s@),
                list@.len() == n - i,
                i <= n,
                forall|k: int|
                    0 <= k < list@.len() ==> new_flag(
                        fs[i + k],
                        home@,
                        exists@[i + k],
                        themes_exist@[i + k]@,
                        Ok(#[trigger] list@[k]),
                    ),
                output_directory@ == if last_of(fs, i as int, 0) < 0 {
                    "."@
                } else {
                    flag_dir(fs[last_of(fs, i as int, 0)], home@)
                },
                template matches Some(t) ==> last_of(fs, i as int, 1) >= 0 && t@ == flag_dir(fs[last_of(fs, i as int, 1)], home@),
                template is None ==> last_of(fs, i as int, 1) < 0,
                style == if last_of(fs, i as int, 3) < 0 {
                    ThemeStyle::Dark
                } else {
                    style_of(flag_value(fs[last_of(fs, i as int, 3)]))->0
                },
                variants@.map_values(|v: Variant| variant_view(v)) == if last_of(fs, i as int, 4) < 0 {
                    Seq::<VariantV>::empty()
                } else {
                    list_items(flag_value(fs[last_of(fs, i as int, 4)])).map_values(|x: Seq<char>| variant_of(x))
                },
                description@ == if last_of(fs, i as int, 5) < 0 {
                    "This is a theme made for zed."@
                } else {
                    flag_value(fs[last_of(fs, i as int, 5)])
                },
                themes@.map_values(|t: ThemeFile| theme_view(t)) == if last_of(fs, i as int, 2) < 0 {
                    Seq::<ThemeV>::empty()
                } else {
                    list_items(flag_value(fs[last_of(fs, i as int, 2)])).map_values(|x: Seq<char>| theme_item(x))
                },
            decreases list.len(),
        {
            let ghost x = list@[0];
            proof {
                lemma_kind(fs[i as int], home@, exists@[i as int], themes_exist@[i as int]@, x);
            }
            let f = list.remove(0);
            assert forall|k: int| 0 <= k < list@.len() implies new_flag(
                fs[(i + 1) + k],
                home@,
                exists@[(i + 1) + k],
                themes_exist@[(i + 1) + k]@,
                Ok(#[trigger] list@[k]),
            ) by {
            }
            match f {
                FlagTypes::OutputDirectory(p) => output_directory = p,
                FlagTypes::Template(p) => template = Some(p),
                FlagTypes::Style(st) => style = st,
                FlagTypes::Variants(vs) => {
                    let ghost items = list_items(flag_value(fs[i as int]));
                    assert(vs@.map_values(|v: Variant| variant_view(v)) =~= items.map_values(|x: Seq<char>| variant_of(x)));
                    variants = vs;
                },
                FlagTypes::Description(d) => description = d,
                FlagTypes::Themes(ts) => {
                    let ghost items = list_items(flag_value(fs[i as int]));
                    assert forall|k: int| 0 <= k < items.len() implies theme_view(#[trigger] ts@[k]) == theme_item(items[k]) by {
                        assert(theme_outcome(items[k], themes_exist@[i as int]@[k], Ok(ts@[k])));
                    }
                    assert(ts@.map_values(|t: ThemeFile| theme_view(t)) =~= items.map_values(|x: Seq<char>| theme_item(x)));
                    themes = ts;
                },
            }
            i = i + 1;
        }
        let template = match template {
            Some(t) => t,
            None => path_join(manifest, "templates/new-hls.json.template"),
        };
        if themes.len() == 0 {
            themes.push(ThemeFile { path: path_join(manifest, "themes/theme-dark.json"), style: ThemeStyle::Dark });
            themes.push(ThemeFile { path: path_join(manifest, "themes/theme-light.json"), style: ThemeStyle::Light });
            assert(themes@.map_values(|t: ThemeFile| theme_view(t)) =~= default_themes(manifest@));
        }
        Ok(Flags { output_directory, template, style, variants, description, themes })
    }
}


pub type ContextV = Seq<(Seq<char>, Seq<char>)>;

pub open spec fn context_view(c: Seq<(String, String)>) -> ContextV {
    c.map_values(|e: (String, String)| (e.0@, e.1@))
}

/// `tera::Tera::one_off(text, context, false)` with a context of texts:
/// renders the template text. What comes out depends on the template,
/// which may read the clock or draw random numbers, so nothing is stated
/// of it; an error comes back as its message.
#[verifier::external_body]
fn render_one_off(text: &str, ctx: &Vec<(String, String)>) -> (r: Result<String, String>)
{
    let mut c = tera::Context::new();
    for (k, v) in ctx.iter() {
        c.insert(k.as_str(), v);
    }
    match tera::Tera::one_off(text, &c, false) {
        Ok(s) => Ok(s),
        Err(e) => Err(e.to_string()),
    }
}

fn pair(k: &str, v: &Vec<char>) -> (r: (String, String))
    ensures
        r.0@ == k@,
        r.1@ == v@,
{
    (String::from_str(k), string_of(v))
}

/// What a variant's preview is rendered with: its title and dashed name.
pub fn preview_context(v: &Variant) -> (r: Vec<(String, String)>)
    ensures
        context_view(r@) == seq![("title"@, v.names.name@), ("dash"@, v.names.dash_case@)],
{
    let mut c: Vec<(String, String)> = Vec::new();
    c.push(pair("title", &chars_of(v.names.name.as_str())));
    c.push(pair("dash", &chars_of(v.names.dash_case.as_str())));
    assert(context_view(c@) =~= seq![("title"@, v.names.name@), ("dash"@, v.names.dash_case@)]);
    c
}

/// The README previews of the variants, one per variant, joined by new
/// lines; an error when a preview does not render.
pub fn generate_preview_str(variants: &Vec<Variant>) -> (r: Result<String, ProgramError>)
    ensures
        r matches Err(e) ==> e matches ProgramError::Processing(m) && starts_with(m@, "Error rendering preview: "@),
        variants@.len() == 0 ==> (r matches Ok(s) && s@ == Seq::<char>::empty()),
{
    let mut out: Vec<char> = Vec::new();
    assert(out@ =~= Seq::<char>::empty());
    for i in 0..variants.len()
        invariant
            variants@.len() == 0 ==> out@ == Seq::<char>::empty(),
    {
        let ctx = preview_context(&variants[i]);
        let t = "
### {{title}}
<img src=\"assets/{{dash}}.png\" width=\"670\">";
        match render_one_off(t, &ctx) {
            Ok(s) => {
                if i > 0 {
                    out.push('\n');
                }
                append_chars(&mut out, &chars_of(s.as_str()));
            },
            Err(m) => {
                let mut msg = chars_of("Error rendering preview: ");
                let ghost p = msg@;
                append_chars(&mut msg, &chars_of(m.as_str()));
                assert(msg@.take(p.len() as int) =~= p);
                return Err(ProgramError::Processing(string_of(&msg)));
            },
        }
    }
    Ok(string_of(&out))
}

/// The names of the variants joined by `, `.
pub open spec fn variant_names(vs: Seq<VariantV>) -> Seq<char>
    decreases vs.len(),
{
    if vs.len() == 0 {
        Seq::empty()
    } else if vs.len() == 1 {
        vs[0].0
    } else {
        variant_names(vs.drop_last()) + ", "@ + vs.last().0
    }
}

fn variant_names_exec(variants: &Vec<Variant>) -> (r: Vec<char>)
    ensures
        r@ == variant_names(variants@.map_values(|v: Variant| variant_view(v))),
{
    let ghost vv = variants@.map_values(|v: Variant| variant_view(v));
    let mut out: Vec<char> = Vec::new();
    for i in 0..variants.len()
        invariant
            vv == variants@.map_values(|v: Variant| variant_view(v)),
            out@ == variant_names(vv.take(i as int)),
    {
        assert(vv.take(i + 1).drop_last() =~= vv.take(i as int));
        if i > 0 {
            append_chars(&mut out, &chars_of(", "));
        } else {
            assert(vv.take(1) =~= seq![vv[0]]);
        }
        append_chars(&mut out, &chars_of(variants[i].names.name.as_str()));
    }
    assert(vv.take(variants.len() as int) =~= vv);
    out
}

/// What the README is rendered with.
pub fn readme_context(names: &ThemeNames, variants: &Vec<Variant>, description: &str, previews: &str) -> (r: Vec<
    (String, String),
>)
    ensures
        context_view(r@) == seq![
            ("theme_name"@, names.name@),
            ("theme_title"@, names.name@),
            ("theme_dash"@, names.dash_case@),
            ("theme_description"@, description@),
            ("theme_previews"@, previews@),
            ("theme_variants"@, variant_names(variants@.map_values(|v: Variant| variant_view(v)))),
        ],
{
    let mut c: Vec<(String, String)> = Vec::new();
    c.push(pair("theme_name", &chars_of(names.name.as_str())));
    c.push(pair("theme_title", &chars_of(names.name.as_str())));
    c.push(pair("theme_dash", &chars_of(names.dash_case.as_str())));
    c.push(pair("theme_description", &chars_of(description)));
    c.push(pair("theme_previews", &chars_of(previews)));
    c.push(pair("theme_variants", &variant_names_exec(variants)));
    assert(context_view(c@) =~= seq![
        ("theme_name"@, names.name@),
        ("theme_title"@, names.name@),
        ("theme_dash"@, names.dash_case@),
        ("theme_description"@, description@),
        ("theme_previews"@, previews@),
        ("theme_variants"@, variant_names(variants@.map_values(|v: Variant| variant_view(v)))),
    ]);
    c
}

fn render_error(prefix: &str, m: &String) -> (r: ProgramError)
    ensures
        r matches ProgramError::Processing(x) && x@ == prefix@ + m@,
{
    let mut msg = chars_of(prefix);
    append_chars(&mut msg, &chars_of(m.as_str()));
    ProgramError::Processing(string_of(&msg))
}

/// The README rendered with the theme's names, description, variants and
/// previews (see `readme_context`).
pub fn update_readme(readme: &str, names: &ThemeNames, variants: &Vec<Variant>, description: &str) -> (r: Result<
    String,
    ProgramError,
>)
    ensures
        r matches Err(e) ==> e matches ProgramError::Processing(m) && (starts_with(m@, "Error rendering preview: "@)
            || starts_with(m@, "Error rendering README.md: "@)),
{
    let previews = match generate_preview_str(variants) {
        Ok(p) => p,
        Err(e) => {
            return Err(e);
        },
    };
    let ctx = readme_context(names, variants, description, previews.as_str());
    match render_one_off(readme, &ctx) {
        Ok(s) => Ok(s),
        Err(m) => {
            let e = render_error("Error rendering README.md: ", &m);
            proof {
                if let ProgramError::Processing(x) = &e {
                    assert(x@.take("Error rendering README.md: "@.len() as int) =~= "Error rendering README.md: "@);
                }
            }
            Err(e)
        },
    }
}

/// What `extension.toml` is rendered with.
pub fn extension_context(names: &ThemeNames, description: &str) -> (r: Vec<(String, String)>)
    ensures
        context_view(r@) == seq![
            ("theme_dash"@, names.dash_case@),
            ("theme_title"@, names.name@),
            ("theme_description"@, description@),
        ],
{
    let mut c: Vec<(String, String)> = Vec::new();
    c.push(pair("theme_dash", &chars_of(names.dash_case.as_str())));
    c.push(pair("theme_title", &chars_of(names.name.as_str())));
    c.push(pair("theme_description", &chars_of(description)));
    assert(context_view(c@) =~= seq![
        ("theme_dash"@, names.dash_case@),
        ("theme_title"@, names.name@),
        ("theme_description"@, description@),
    ]);
    c
}

/// `extension.toml` rendered with the theme's names and description.
pub fn update_extensions_toml(text: &str, names: &ThemeNames, description: &str) -> (r: Result<String, ProgramError>)
    ensures
        r matches Err(e) ==> e matches ProgramError::Processing(m) && starts_with(m@, "Error rendering extension.toml: "@),
{
    let ctx = extension_context(names, description);
    match render_one_off(text, &ctx) {
        Ok(s) => Ok(s),
        Err(m) => {
            let e = render_error("Error rendering extension.toml: ", &m);
            proof {
                if let ProgramError::Processing(x) = &e {
                    assert(x@.take("Error rendering extension.toml: "@.len() as int) =~= "Error rendering extension.toml: "@);
                }
            }
            Err(e)
        },
    }
}

/// The style each variant takes its theme from is among those given:
/// dark when `dark` is, light when `light` is.
pub open spec fn styles_given(vs: Seq<VariantV>, dark: bool, light: bool) -> bool {
    forall|i: int| 0 <= i < vs.len() ==> if #[trigger] vs[i].2 == ThemeStyle::Dark {
        dark
    } else {
        light
    }
}

/// Which styles the variants take their themes from: dark, light.
pub fn styles_used(variants: &Vec<Variant>) -> (r: (bool, bool))
    ensures
        r.0 <==> exists|i: int| 0 <= i < variants@.len() && #[trigger] variants@[i].style == ThemeStyle::Dark,
        r.1 <==> exists|i: int| 0 <= i < variants@.len() && #[trigger] variants@[i].style == ThemeStyle::Light,
{
    let mut dark = false;
    let mut light = false;
    for i in 0..variants.len()
        invariant
            dark <==> exists|j: int| 0 <= j < i && #[trigger] variants@[j].style == ThemeStyle::Dark,
            light <==> exists|j: int| 0 <= j < i && #[trigger] variants@[j].style == ThemeStyle::Light,
    {
        match variants[i].style {
            ThemeStyle::Dark => {
                assert(variants@[i as int].style == ThemeStyle::Dark);
                dark = true;
            },
            ThemeStyle::Light => {
                assert(variants@[i as int].style == ThemeStyle::Light);
                light = true;
            },
        }
    }
    (dark, light)
}

/// The first theme file of a style, whose text a variant of that style is
/// rendered from.
pub fn theme_for_style(themes: &Vec<ThemeFile>, style: &ThemeStyle) -> (r: Option<usize>)
    ensures
        match r {
            Some(i) => i < themes@.len() && themes@[i as int].style == *style && forall|j: int|
                0 <= j < i ==> #[trigger] themes@[j].style != *style,
            None => forall|j: int| 0 <= j < themes@.len() ==> #[trigger] themes@[j].style != *style,
        },
{
    for i in 0..themes.len()
        invariant
            forall|j: int| 0 <= j < i ==> #[trigger] themes@[j].style != *style,
    {
        let same = match (&themes[i].style, style) {
            (ThemeStyle::Dark, ThemeStyle::Dark) => true,
            (ThemeStyle::Light, ThemeStyle::Light) => true,
            _ => false,
        };
        if same {
            return Some(i);
        }
    }
    None
}

/// The themes of the variants, each rendered from the theme text of its
/// style with its name, joined by `,`, a new line and two tabs.
pub fn generate_variants_json(dark: &Option<String>, light: &Option<String>, variants: &Vec<Variant>) -> (r: Result<
    String,
    ProgramError,
>)
    requires
        styles_given(variants@.map_values(|v: Variant| variant_view(v)), dark is Some, light is Some),
    ensures
        r matches Err(e) ==> e is Processing,
        variants@.len() == 0 ==> (r matches Ok(s) && s@ == Seq::<char>::empty()),
{
    let mut out: Vec<char> = Vec::new();
    assert(out@ =~= Seq::<char>::empty());
    for i in 0..variants.len()
        invariant
            styles_given(variants@.map_values(|v: Variant| variant_view(v)), dark is Some, light is Some),
            variants@.len() == 0 ==> out@ == Seq::<char>::empty(),
    {
        assert(variants@.map_values(|v: Variant| variant_view(v))[i as int].2 == variants@[i as int].style);
        let text = match variants[i].style {
            ThemeStyle::Dark => match dark {
                Some(t) => t,
                None => {
                    assert(false);
                    return Err(ProgramError::Processing(String::new()));
                },
            },
            ThemeStyle::Light => match light {
                Some(t) => t,
                None => {
                    assert(false);
                    return Err(ProgramError::Processing(String::new()));
                },
            },
        };
        let mut ctx: Vec<(String, String)> = Vec::new();
        ctx.push(pair("theme_name", &chars_of(variants[i].names.name.as_str())));
        match render_one_off(text.as_str(), &ctx) {
            Ok(s) => {
                if i > 0 {
                    append_chars(&mut out, &chars_of(",\n\t\t"));
                }
                append_chars(&mut out, &chars_of(s.as_str()));
            },
            Err(m) => {
                return Err(ProgramError::Processing(m));
            },
        }
    }
    Ok(string_of(&out))
}

/// `themes/theme.json` rendered with the theme's dashed name and the
/// themes of its variants.
pub fn update_theme_json(text: &str, names: &ThemeNames, themes: &str) -> (r: Result<String, ProgramError>)
    ensures
        r matches Err(e) ==> e matches ProgramError::Processing(m) && starts_with(m@, "Error rendering theme.json: "@),
{
    let mut ctx: Vec<(String, String)> = Vec::new();
    ctx.push(pair("theme_name", &chars_of(names.dash_case.as_str())));
    ctx.push(pair("themes", &chars_of(themes)));
    match render_one_off(text, &ctx) {
        Ok(s) => Ok(s),
        Err(m) => {
            let e = render_error("Error rendering theme.json: ", &m);
            proof {
                if let ProgramError::Processing(x) = &e {
                    assert(x@.take("Error rendering theme.json: "@.len() as int) =~= "Error rendering theme.json: "@);
                }
            }
            Err(e)
        },
    }
}

} // verus!

//! Commands, program errors, the files a command works on, and the reading
//! of the command line.
use vstd::prelude::*;
use crate::text::{chars_of, string_of, append_chars, eq_str, starts_with, has_prefix};
use crate::generate::{FlagTypes, gen_flag_ok, last_in};

verus! {

#[derive(Debug, PartialEq, Eq, Structural)]
pub enum ValidCommands {
    Check,
    Generate,
    Reverse,
    Help,
    Watch,
    Edit,
    New,
}

#[derive(Debug)]
pub enum ProgramError {
    NoCommand,
    InvalidCommand,
    HelpAll,
    NotEnoughArguments(ValidCommands),
    InvalidFile(String),
    InvalidFileType,
    InvalidFlag(String, String),
    InvalidIOFormat(String),
    HelpInvalidCommand,
    Processing(String),
}

/// A `Processing` error whose message is `prefix` followed by `tail`.
pub fn processing_error(prefix: &str, tail: &Vec<char>) -> (r: ProgramError)
    ensures
        r matches ProgramError::Processing(m) && m@ == prefix@ + tail@,
{
    let mut v = chars_of(prefix);
    append_chars(&mut v, tail);
    ProgramError::Processing(string_of(&v))
}


/// The command a name on the command line selects.
pub open spec fn command_of(s: Seq<char>) -> Option<ValidCommands> {
    if s == "check"@ {
        Some(ValidCommands::Check)
    } else if s == "gen"@ {
        Some(ValidCommands::Generate)
    } else if s == "rev"@ {
        Some(ValidCommands::Reverse)
    } else if s == "help"@ {
        Some(ValidCommands::Help)
    } else if s == "watch"@ {
        Some(ValidCommands::Watch)
    } else if s == "edit"@ {
        Some(ValidCommands::Edit)
    } else if s == "new"@ {
        Some(ValidCommands::New)
    } else {
        None
    }
}

/// The command names `list_commands` gives.
pub open spec fn command_names() -> Seq<Seq<char>> {
    seq!["check"@, "gen"@, "rev"@, "help"@, "watch"@, "edit"@, "new"@]
}

/// Every name `list_commands` gives reads as a command, and every name that
/// reads as one is listed.
pub proof fn law_listed_commands_read(s: Seq<char>)
    ensures
        command_names().contains(s) <==> command_of(s) is Some,
{
    if command_of(s) is Some {
        if s == "check"@ {
            assert(command_names()[0] == s);
        } else if s == "gen"@ {
            assert(command_names()[1] == s);
        } else if s == "rev"@ {
            assert(command_names()[2] == s);
        } else if s == "help"@ {
            assert(command_names()[3] == s);
        } else if s == "watch"@ {
            assert(command_names()[4] == s);
        } else if s == "edit"@ {
            assert(command_names()[5] == s);
        } else {
            assert(command_names()[6] == s);
        }
    }
}

impl ValidCommands {
    /// Reads a command name: `check`, `gen`, `rev`, `help`, `watch`, `edit`
    /// or `new`.
    pub fn from_str(command: &str) -> (r: Result<Self, ProgramError>)
        ensures
            match command_of(command@) {
                Some(c) => r == Ok::<ValidCommands, ProgramError>(c),
                None => r matches Err(ProgramError::InvalidCommand),
            },
    {
        let c = chars_of(command);
        if eq_str(&c, "check") {
            Ok(ValidCommands::Check)
        } else if eq_str(&c, "gen") {
            Ok(ValidCommands::Generate)
        } else if eq_str(&c, "rev") {
            Ok(ValidCommands::Reverse)
        } else if eq_str(&c, "help") {
            Ok(ValidCommands::Help)
        } else if eq_str(&c, "watch") {
            Ok(ValidCommands::Watch)
        } else if eq_str(&c, "edit") {
            Ok(ValidCommands::Edit)
        } else if eq_str(&c, "new") {
            Ok(ValidCommands::New)
        } else {
            Err(ProgramError::InvalidCommand)
        }
    }

    /// The command names, in order.
    pub fn list_commands() -> (r: Vec<String>)
        ensures
            r@.map_values(|s: String| s@) == command_names(),
    {
        let mut v: Vec<String> = Vec::new();
        v.push(String::from_str("check"));
        v.push(String::from_str("gen"));
        v.push(String::from_str("rev"));
        v.push(String::from_str("help"));
        v.push(String::from_str("watch"));
        v.push(String::from_str("edit"));
        v.push(String::from_str("new"));
        assert(v@.map_values(|s: String| s@) =~= command_names());
        v
    }
}

/// What a file holds: a theme, a template or variables.
#[derive(Debug, PartialEq, Eq, Structural)]
pub enum FileType {
    Theme,
    Template,
    Variable,
}

/// A file named on the command line, with its format and what it holds.
#[derive(Debug)]
pub struct ValidatedFile {
    pub format: String,
    pub name: String,
    pub file_type: FileType,
}

/// What `std::path::Path::extension` gives for the path, as text.
pub uninterp spec fn extension_of(path: Seq<char>) -> Option<Seq<char>>;

/// `std::path::Path::new(path).extension()`: the part of the file name
/// after its last dot, as std's path rules read it.
#[verifier::external_body]
fn path_extension(path: &str) -> (r: Option<String>)
    ensures
        match r {
            Some(e) => extension_of(path@) == Some(e@),
            None => extension_of(path@) is None,
        },
{
    match std::path::Path::new(path).extension() {
        Some(e) => match e.to_str() {
            Some(t) => Some(t.to_string()),
            None => None,
        },
        None => None,
    }
}

/// What `std::path::Path::ends_with` gives: the path's last components
/// are those of `tail`.
pub uninterp spec fn ends_with_components(path: Seq<char>, tail: Seq<char>) -> bool;

/// `std::path::Path::new(path).ends_with(tail)`, which compares whole
/// components.
#[verifier::external_body]
fn path_ends_with(path: &str, tail: &str) -> (r: bool)
    ensures
        r == ends_with_components(path@, tail@),
{
    std::path::Path::new(path).ends_with(tail)
}

/// The format a file's path gives: `template` for a file named
/// `template.json`, else its extension.
pub open spec fn file_format(path: Seq<char>) -> Option<Seq<char>> {
    if ends_with_components(path, "template.json"@) {
        Some("template"@)
    } else {
        extension_of(path)
    }
}

pub open spec fn format_type(f: Seq<char>) -> Option<FileType> {
    if f == "json"@ {
        Some(FileType::Theme)
    } else if f == "toml"@ {
        Some(FileType::Variable)
    } else if f == "template"@ {
        Some(FileType::Template)
    } else {
        None
    }
}

/// `ValidatedFile::from_str` on a path that could be opened or not.
pub open spec fn file_outcome(path: Seq<char>, opened: bool, r: Result<ValidatedFile, ProgramError>) -> bool {
    match file_format(path) {
        None => r matches Err(ProgramError::InvalidFile(p)) && p@ == path,
        Some(f) => match format_type(f) {
            None => r matches Err(ProgramError::InvalidIOFormat(g)) && g@ == f,
            Some(t) => if opened {
                r matches Ok(v) && v.format@ == f && v.name@ == path && v.file_type == t
            } else {
                r matches Err(ProgramError::InvalidFile(p)) && p@ == path
            },
        },
    }
}

pub open spec fn file_ok(path: Seq<char>, opened: bool) -> bool {
    &&& file_format(path) matches Some(f) && format_type(f) is Some
    &&& opened
}

impl ValidatedFile {
    /// Reads what a file named on the command line is from its path;
    /// `opened` tells whether the file could be opened.
    pub fn from_str(file_path: &str, opened: bool) -> (r: Result<Self, ProgramError>)
        ensures
            file_outcome(file_path@, opened, r),
            r is Ok <==> file_ok(file_path@, opened),
    {
        let format = if path_ends_with(file_path, "template.json") {
            String::from_str("template")
        } else {
            match path_extension(file_path) {
                Some(e) => e,
                None => {
                    return Err(ProgramError::InvalidFile(file_path.to_string()));
                },
            }
        };
        let f = chars_of(format.as_str());
        let file_type = if eq_str(&f, "json") {
            FileType::Theme
        } else if eq_str(&f, "toml") {
            FileType::Variable
        } else if eq_str(&f, "template") {
            FileType::Template
        } else {
            return Err(ProgramError::InvalidIOFormat(format));
        };
        if !opened {
            return Err(ProgramError::InvalidFile(file_path.to_string()));
        }
        Ok(ValidatedFile { format, name: file_path.to_string(), file_type })
    }
}

/// `eq_ignore_ascii_case("toml")`.
pub open spec fn is_toml_ext(e: Seq<char>) -> bool {
    e.len() == 4 && (e[0] == 't' || e[0] == 'T') && (e[1] == 'o' || e[1] == 'O') && (e[2] == 'm' || e[2]
        == 'M') && (e[3] == 'l' || e[3] == 'L')
}

/// A directory entry that is a file with a `toml` extension (in any case).
pub open spec fn selected(e: (Seq<char>, bool, bool)) -> bool {
    &&& e.1
    &&& extension_of(e.0) matches Some(x) && is_toml_ext(x)
}

pub open spec fn entries_view(es: Seq<(String, bool, bool)>) -> Seq<(Seq<char>, bool, bool)> {
    es.map_values(|e: (String, bool, bool)| (e.0@, e.1, e.2))
}

/// What reading the variable files of a listing gives (see
/// `all_variable_files`).
pub open spec fn listing_outcome(ev: Seq<(Seq<char>, bool, bool)>, r: Result<Vec<ValidatedFile>, ProgramError>) -> bool {
    &&& r is Ok <==> forall|i: int| 0 <= i < ev.len() && #[trigger] selected(ev[i]) ==> file_ok(ev[i].0, ev[i].2)
    &&& r matches Ok(v) ==> v@.len() == ev.filter(|e: (Seq<char>, bool, bool)| selected(e)).len() && forall|k: int|
        0 <= k < v@.len() ==> file_outcome(
            ev.filter(|e: (Seq<char>, bool, bool)| selected(e))[k].0,
            true,
            Ok(#[trigger] v@[k]),
        )
    &&& r matches Err(e) ==> exists|i: int|
        0 <= i < ev.len() && #[trigger] selected(ev[i]) && file_outcome(ev[i].0, ev[i].2, Err(e)) && forall|j: int|
            0 <= j < i && selected(ev[j]) ==> file_ok(ev[j].0, ev[j].2)
}

fn listed_files(es: &Vec<(String, bool, bool)>) -> (r: Result<Vec<ValidatedFile>, ProgramError>)
    ensures
        listing_outcome(entries_view(es@), r),
{
    let ghost ev = entries_view(es@);
    let mut files: Vec<ValidatedFile> = Vec::new();
    for i in 0..es.len()
        invariant
            ev == entries_view(es@),
            forall|j: int| 0 <= j < i && #[trigger] selected(ev[j]) ==> file_ok(ev[j].0, ev[j].2),
            files@.len() == ev.take(i as int).filter(|e: (Seq<char>, bool, bool)| selected(e)).len(),
            forall|k: int| 0 <= k < files@.len() ==> file_outcome(
                ev.take(i as int).filter(|e: (Seq<char>, bool, bool)| selected(e))[k].0,
                true,
                Ok(#[trigger] files@[k]),
            ),
    {
        let ghost fl = ev.take(i as int).filter(|e: (Seq<char>, bool, bool)| selected(e));
        assert(ev.take(i + 1).drop_last() =~= ev.take(i as int));
        assert(ev.take(i + 1).last() == ev[i as int]);
        reveal(Seq::filter);
        let path = es[i].0.as_str();
        let sel = es[i].1 && match path_extension(path) {
            Some(x) => is_toml_exec(&chars_of(x.as_str())),
            None => false,
        };
        assert(ev[i as int] == (es@[i as int].0@, es@[i as int].1, es@[i as int].2));
        if sel {
            match ValidatedFile::from_str(path, es[i].2) {
                Ok(f) => {
                    let ghost f0 = files@;
                    files.push(f);
                    assert(ev.take(i + 1).filter(|e: (Seq<char>, bool, bool)| selected(e)) == fl.push(ev[i as int]));
                    assert forall|k: int| 0 <= k < files@.len() implies file_outcome(
                        ev.take(i + 1).filter(|e: (Seq<char>, bool, bool)| selected(e))[k].0,
                        true,
                        Ok(#[trigger] files@[k]),
                    ) by {
                        if k < f0.len() {
                            assert(files@[k] == f0[k]);
                        }
                    }
                },
                Err(e) => {
                    assert(selected(ev[i as int]));
                    assert(file_outcome(ev[i as int].0, ev[i as int].2, Err(e)));
                    assert(!file_ok(ev[i as int].0, ev[i as int].2));
                    return Err(e);
                },
            }
        } else {
            assert(ev.take(i + 1).filter(|e: (Seq<char>, bool, bool)| selected(e)) == fl);
        }
    }
    assert(ev.take(es.len() as int) =~= ev);
    Ok(files)
}

impl ValidatedFile {
    /// The variable files of a directory, from its listing: for each entry,
    /// its path, whether it is a file, and whether it could be opened.
    /// `None` stands for a directory that could not be read.
    pub fn all_variable_files(directory: &str, listing: &Option<Vec<(String, bool, bool)>>) -> (r: Result<
        Vec<Self>,
        ProgramError,
    >)
        ensures
            match listing {
                None => r matches Err(ProgramError::InvalidFile(d)) && d@ == directory@,
                Some(es) => listing_outcome(entries_view(es@), r),
            },
    {
        match listing {
            None => Err(ProgramError::InvalidFile(directory.to_string())),
            Some(es) => listed_files(es),
        }
    }
}

fn is_toml_exec(e: &Vec<char>) -> (r: bool)
    ensures
        r == is_toml_ext(e@),
{
    e.len() == 4 && (e[0] == 't' || e[0] == 'T') && (e[1] == 'o' || e[1] == 'O') && (e[2] == 'm' || e[2]
        == 'M') && (e[3] == 'l' || e[3] == 'L')
}

} // verus!

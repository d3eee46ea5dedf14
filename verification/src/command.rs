//! Reading a command line into what to run: the command, its arguments and
//! its flags (sorted, each once).
use vstd::prelude::*;
use crate::text::{chars_of, string_of, eq_str};
use crate::json::key_lt;
use crate::parsing::strings_view;
use crate::check::{sorted_strict, insert_sorted};
use crate::args::{
    ValidCommands, ProgramError, command_of, ValidatedFile, FileType, file_ok, file_outcome, file_format,
    format_type, listing_outcome, entries_view,
};
use crate::generate::{FlagTypes, gen_flag_ok, gen_flag, last_in};
use crate::text::{starts_with, has_prefix};

verus! {

/// What a command line asks for.
#[derive(Debug)]
pub enum CommandPlan {
    /// Show the help of a command.
    Help(ValidCommands),
    /// Create a project for the named theme.
    New(String, Vec<String>),
    /// Compare two files.
    Check(String, String),
    /// Reverse a theme against a template (the two files in the order given).
    Reverse(String, String, Vec<String>),
    /// Generate themes from the arguments (a template, and a variable file or `all`).
    Generate(Vec<String>, Vec<String>),
    /// Watch variable files and generate on each change.
    Watch(Vec<String>, Vec<String>),
    /// Reverse the two files, then watch: the flags for watching, then
    /// those for reversing.
    Edit(String, String, Vec<String>, Vec<String>),
}

pub open spec fn is_flag(s: Seq<char>) -> bool {
    s.len() > 0 && s[0] == '-'
}

/// The arguments after the command that are not flags.
pub open spec fn command_args(a: Seq<Seq<char>>) -> Seq<Seq<char>> {
    a.skip(2).filter(|s: Seq<char>| !is_flag(s))
}

/// The flags of a command line, sorted, each once.
pub open spec fn sorted_flags(v: Seq<Seq<char>>, a: Seq<Seq<char>>) -> bool {
    sorted_strict(v) && v.to_set() == a.filter(|s: Seq<char>| is_flag(s)).to_set()
}

/// The first two characters of a flag can be cut from it as text: the
/// second one is a single byte.
pub open spec fn two_chars_ok(s: Seq<char>) -> bool {
    s.len() >= 2 && (s[1] as u32) < 0x80
}

pub open spec fn gen_valid(p: Seq<char>) -> bool {
    p == "-o"@ || p == "-i"@ || p == "-p"@ || p == "-n"@ || p == "-r"@
}

pub open spec fn rev_valid(p: Seq<char>) -> bool {
    p == "-t"@ || p == "-o"@ || p == "-n"@ || p == "-p"@ || p == "-g"@
}

/// The flags that watching takes.
pub open spec fn watch_flags(fl: Seq<Seq<char>>) -> Seq<Seq<char>> {
    fl.filter(|x: Seq<char>| gen_valid(x.take(2)))
}

/// The flags that reversing takes, but for the output directory.
pub open spec fn reverse_flags(fl: Seq<Seq<char>>) -> Seq<Seq<char>> {
    fl.filter(|x: Seq<char>| rev_valid(x.take(2)) && x.take(2) != "-o"@)
}

/// Command lines on which running them panics: `new` without a name, and
/// `edit` with a flag whose first two characters cannot be cut from it.
pub open spec fn plan_panics(a: Seq<Seq<char>>) -> bool {
    &&& a.len() >= 2
    &&& command_of(a[1]) matches Some(c) && (
        (c == ValidCommands::New && command_args(a).len() == 0)
        || (c == ValidCommands::Edit && command_args(a).len() >= 2 && exists|i: int|
            0 <= i < a.len() && is_flag(#[trigger] a[i]) && !two_chars_ok(a[i])))
}

pub open spec fn arg_views(args: Seq<String>) -> Seq<Seq<char>> {
    args.map_values(|s: String| s@)
}

/// What `plan_command` gives for the command line `a`.
pub open spec fn plan_outcome(a: Seq<Seq<char>>, r: Result<CommandPlan, ProgramError>) -> bool {
    if a.len() < 2 {
        r matches Err(ProgramError::NoCommand)
    } else {
        match command_of(a[1]) {
            None => r matches Err(ProgramError::InvalidCommand),
            Some(c) => {
                let ca = command_args(a);
                if c == ValidCommands::Help {
                    if ca.len() == 0 {
                        r matches Err(ProgramError::HelpAll)
                    } else {
                        match command_of(ca[0]) {
                            None => r matches Err(ProgramError::HelpInvalidCommand),
                            Some(h) => r matches Ok(CommandPlan::Help(x)) && x == h,
                        }
                    }
                } else if c == ValidCommands::New {
                    r matches Ok(CommandPlan::New(n, fl)) && n@ == ca[0] && sorted_flags(strings_view(fl@), a)
                } else if ca.len() < 2 {
                    r matches Err(ProgramError::NotEnoughArguments(x)) && x == c
                } else {
                    match c {
                        ValidCommands::Check => r matches Ok(CommandPlan::Check(x, y)) && x@ == ca[0] && y@ == ca[1],
                        ValidCommands::Reverse => r matches Ok(CommandPlan::Reverse(x, y, fl)) && x@ == ca[0] && y@
                            == ca[1] && sorted_flags(strings_view(fl@), a),
                        ValidCommands::Generate => r matches Ok(CommandPlan::Generate(xs, fl)) && strings_view(xs@)
                            == ca && sorted_flags(strings_view(fl@), a),
                        ValidCommands::Watch => r matches Ok(CommandPlan::Watch(xs, fl)) && strings_view(xs@) == ca
                            && sorted_flags(strings_view(fl@), a),
                        _ => r matches Ok(CommandPlan::Edit(x, y, wf, rf)) && x@ == ca[0] && y@ == ca[1] && exists|
                            fl: Seq<Seq<char>>,
                        |
                            #![trigger sorted_flags(fl, a)]
                            sorted_flags(fl, a) && strings_view(wf@) == watch_flags(fl) && strings_view(rf@)
                                == reverse_flags(fl),
                    }
                }
            },
        }
    }
}

fn is_flag_exec(s: &String) -> (r: bool)
    ensures
        r == is_flag(s@),
{
    let c = chars_of(s.as_str());
    c.len() > 0 && c[0] == '-'
}

fn sorted_flags_exec(args: &Vec<String>) -> (r: Vec<String>)
    ensures
        sorted_flags(strings_view(r@), arg_views(args@)),
{
    let ghost a = arg_views(args@);
    let mut v: Vec<String> = Vec::new();
    assert(strings_view(v@).to_set() =~= a.take(0).filter(|s: Seq<char>| is_flag(s)).to_set());
    for i in 0..args.len()
        invariant
            a == arg_views(args@),
            sorted_strict(strings_view(v@)),
            strings_view(v@).to_set() == a.take(i as int).filter(|s: Seq<char>| is_flag(s)).to_set(),
    {
        reveal(Seq::filter);
        assert(a.take(i + 1).drop_last() =~= a.take(i as int));
        assert(a.take(i + 1).last() == a[i as int]);
        let ghost prev = a.take(i as int).filter(|s: Seq<char>| is_flag(s));
        if is_flag_exec(&args[i]) {
            insert_sorted(&mut v, args[i].clone());
            assert(a.take(i + 1).filter(|s: Seq<char>| is_flag(s)) == prev.push(a[i as int]));
            proof {
                prev.lemma_push_to_set_commute(a[i as int]);
            }
        } else {
            assert(a.take(i + 1).filter(|s: Seq<char>| is_flag(s)) == prev);
        }
    }
    assert(a.take(args.len() as int) =~= a);
    v
}

fn command_args_exec(args: &Vec<String>) -> (r: Vec<String>)
    requires
        args@.len() >= 2,
    ensures
        strings_view(r@) == command_args(arg_views(args@)),
{
    let ghost a = arg_views(args@);
    let ghost t = a.skip(2);
    let mut v: Vec<String> = Vec::new();
    let mut i: usize = 2;
    assert(t.take(0).filter(|s: Seq<char>| !is_flag(s)) =~= Seq::<Seq<char>>::empty());
    while i < args.len()
        invariant
            2 <= i <= args@.len(),
            a == arg_views(args@),
            t == a.skip(2),
            strings_view(v@) == t.take(i - 2).filter(|s: Seq<char>| !is_flag(s)),
        decreases args.len() - i,
    {
        reveal(Seq::filter);
        assert(t.take(i - 1).drop_last() =~= t.take(i - 2));
        assert(t.take(i - 1).last() == a[i as int]);
        if !is_flag_exec(&args[i]) {
            let ghost v0 = v@;
            v.push(args[i].clone());
            assert(strings_view(v@) =~= strings_view(v0).push(a[i as int]));
        }
        i += 1;
    }
    assert(t.take(args.len() - 2) =~= t);
    v
}

fn prefix_in(x: &String, valid: &Vec<&str>) -> (r: bool)
    requires
        two_chars_ok(x@),
    ensures
        r == exists|k: int| 0 <= k < valid@.len() && #[trigger] valid@[k]@ == x@.take(2),
{
    let c = chars_of(x.as_str());
    let mut p: Vec<char> = Vec::new();
    p.push(c[0]);
    p.push(c[1]);
    assert(p@ =~= x@.take(2));
    for k in 0..valid.len()
        invariant
            p@ == x@.take(2),
            forall|j: int| 0 <= j < k ==> valid@[j]@ != x@.take(2),
    {
        if eq_str(&p, valid[k]) {
            return true;
        }
    }
    false
}

fn filter_flags(fl: &Vec<String>, for_watch: bool) -> (r: Vec<String>)
    requires
        forall|i: int| 0 <= i < fl@.len() ==> two_chars_ok(#[trigger] fl@[i]@),
    ensures
        for_watch ==> strings_view(r@) == watch_flags(strings_view(fl@)),
        !for_watch ==> strings_view(r@) == reverse_flags(strings_view(fl@)),
{
    let ghost f = strings_view(fl@);
    let gen: Vec<&str> = vec!["-o", "-i", "-p", "-n", "-r"];
    let rev: Vec<&str> = vec!["-t", "-o", "-n", "-p", "-g"];
    proof {
        assert(gen@[0]@ == "-o"@ && gen@[1]@ == "-i"@ && gen@[2]@ == "-p"@ && gen@[3]@ == "-n"@ && gen@[4]@ == "-r"@);
        assert(rev@[0]@ == "-t"@ && rev@[1]@ == "-o"@ && rev@[2]@ == "-n"@ && rev@[3]@ == "-p"@ && rev@[4]@ == "-g"@);
    }
    let out_flag: Vec<&str> = vec!["-o"];
    let mut v: Vec<String> = Vec::new();
    for i in 0..fl.len()
        invariant
            f == strings_view(fl@),
            forall|i: int| 0 <= i < fl@.len() ==> two_chars_ok(#[trigger] fl@[i]@),
            gen@.len() == 5 && gen@[0]@ == "-o"@ && gen@[1]@ == "-i"@ && gen@[2]@ == "-p"@ && gen@[3]@ == "-n"@
                && gen@[4]@ == "-r"@,
            rev@.len() == 5 && rev@[0]@ == "-t"@ && rev@[1]@ == "-o"@ && rev@[2]@ == "-n"@ && rev@[3]@ == "-p"@
                && rev@[4]@ == "-g"@,
            out_flag@.len() == 1 && out_flag@[0]@ == "-o"@,
            for_watch ==> strings_view(v@) == watch_flags(f.take(i as int)),
            !for_watch ==> strings_view(v@) == reverse_flags(f.take(i as int)),
    {
        reveal(Seq::filter);
        assert(f.take(i + 1).drop_last() =~= f.take(i as int));
        assert(f.take(i + 1).last() == f[i as int]);
        assert(two_chars_ok(fl@[i as int]@));
        let keep = if for_watch {
            let r = prefix_in(&fl[i], &gen);
            assert(r == gen_valid(f[i as int].take(2))) by {
                if gen_valid(f[i as int].take(2)) {
                    if f[i as int].take(2) == "-o"@ { assert(gen@[0]@ == f[i as int].take(2)); }
                    else if f[i as int].take(2) == "-i"@ { assert(gen@[1]@ == f[i as int].take(2)); }
                    else if f[i as int].take(2) == "-p"@ { assert(gen@[2]@ == f[i as int].take(2)); }
                    else if f[i as int].take(2) == "-n"@ { assert(gen@[3]@ == f[i as int].take(2)); }
                    else { assert(gen@[4]@ == f[i as int].take(2)); }
                }
            }
            r
        } else {
            let r = prefix_in(&fl[i], &rev) && !prefix_in(&fl[i], &out_flag);
            assert(r == (rev_valid(f[i as int].take(2)) && f[i as int].take(2) != "-o"@)) by {
                if rev_valid(f[i as int].take(2)) {
                    if f[i as int].take(2) == "-t"@ { assert(rev@[0]@ == f[i as int].take(2)); }
                    else if f[i as int].take(2) == "-o"@ { assert(rev@[1]@ == f[i as int].take(2)); }
                    else if f[i as int].take(2) == "-n"@ { assert(rev@[2]@ == f[i as int].take(2)); }
                    else if f[i as int].take(2) == "-p"@ { assert(rev@[3]@ == f[i as int].take(2)); }
                    else { assert(rev@[4]@ == f[i as int].take(2)); }
                }
                if f[i as int].take(2) == "-o"@ {
                    assert(out_flag@[0]@ == f[i as int].take(2));
                }
            }
            r
        };
        if keep {
            let ghost v0 = v@;
            v.push(fl[i].clone());
            assert(strings_view(v@) =~= strings_view(v0).push(f[i as int]));
        }
    }
    assert(f.take(fl.len() as int) =~= f);
    v
}

/// Reads a command line (the program's name first) into what to run; the
/// errors are those of the command line itself.
pub fn plan_command(args: &Vec<String>) -> (r: Result<CommandPlan, ProgramError>)
    requires
        !plan_panics(arg_views(args@)),
    ensures
        plan_outcome(arg_views(args@), r),
{
    let ghost a = arg_views(args@);
    if args.len() < 2 {
        return Err(ProgramError::NoCommand);
    }
    let flags = sorted_flags_exec(args);
    let command = match ValidCommands::from_str(args[1].as_str()) {
        Ok(c) => c,
        Err(e) => {
            return Err(e);
        },
    };
    let ca = command_args_exec(args);
    match command {
        ValidCommands::Help => {
            if ca.len() == 0 {
                Err(ProgramError::HelpAll)
            } else {
                match ValidCommands::from_str(ca[0].as_str()) {
                    Ok(h) => Ok(CommandPlan::Help(h)),
                    Err(_) => Err(ProgramError::HelpInvalidCommand),
                }
            }
        },
        ValidCommands::New => Ok(CommandPlan::New(ca[0].clone(), flags)),
        _ => {
            if ca.len() < 2 {
                return Err(ProgramError::NotEnoughArguments(command));
            }
            match command {
                ValidCommands::Check => Ok(CommandPlan::Check(ca[0].clone(), ca[1].clone())),
                ValidCommands::Reverse => Ok(CommandPlan::Reverse(ca[0].clone(), ca[1].clone(), flags)),
                ValidCommands::Generate => Ok(CommandPlan::Generate(ca, flags)),
                ValidCommands::Watch => Ok(CommandPlan::Watch(ca, flags)),
                _ => {
                    proof {
                        assert forall|i: int| 0 <= i < flags@.len() implies two_chars_ok(#[trigger] flags@[i]@) by {
                            let s = strings_view(flags@);
                            assert(s[i] == flags@[i]@);
                            assert(s.to_set().contains(s[i]));
                            let pred = |s: Seq<char>| is_flag(s);
                            let fa = a.filter(pred);
                            assert(fa.to_set().contains(s[i]));
                            assert(fa.contains(s[i]));
                            a.lemma_filter_contains_rev(pred, s[i]);
                            broadcast use vstd::seq_lib::group_filter_ensures;
                            let j = choose|j: int| 0 <= j < fa.len() && fa[j] == s[i];
                            assert(pred(fa[j]));
                            let k = choose|k: int| 0 <= k < a.len() && a[k] == s[i];
                            assert(is_flag(a[k]));
                            assert(two_chars_ok(a[k]));
                        }
                    }
                    let w = filter_flags(&flags, true);
                    let rv = filter_flags(&flags, false);
                    Ok(CommandPlan::Edit(ca[0].clone(), ca[1].clone(), w, rv))
                },
            }
        },
    }
}


fn two_chars_exec(s: &String) -> (r: bool)
    ensures
        r == two_chars_ok(s@),
{
    let c = chars_of(s.as_str());
    c.len() >= 2 && (c[1] as u32) < 0x80
}

/// Tells whether running the command line would panic (see `plan_panics`),
/// which `plan_command` does not take.
pub fn plan_would_panic(args: &Vec<String>) -> (r: bool)
    ensures
        r == plan_panics(arg_views(args@)),
{
    let ghost a = arg_views(args@);
    if args.len() < 2 {
        return false;
    }
    let c = match ValidCommands::from_str(args[1].as_str()) {
        Ok(c) => c,
        Err(_) => {
            return false;
        },
    };
    let ca = command_args_exec(args);
    match c {
        ValidCommands::New => ca.len() == 0,
        ValidCommands::Edit => {
            if ca.len() < 2 {
                return false;
            }
            for i in 0..args.len()
                invariant
                    a == arg_views(args@),
                    a.len() >= 2,
                    command_of(a[1]) == Some(ValidCommands::Edit),
                    command_args(a).len() >= 2,
                    forall|j: int| 0 <= j < i && is_flag(#[trigger] a[j]) ==> two_chars_ok(a[j]),
            {
                if is_flag_exec(&args[i]) && !two_chars_exec(&args[i]) {
                    assert(is_flag(a[i as int]) && !two_chars_ok(a[i as int]));
                    return true;
                }
            }
            false
        },
        _ => false,
    }
}

pub open spec fn has_input_flag(fs: Seq<Seq<char>>) -> bool {
    exists|i: int| 0 <= i < fs.len() && starts_with(#[trigger] fs[i], "-i"@)
}

/// The directory variable files are read from: that of the last `-i` flag
/// when one is given (all the `gen` flags must then read), else the
/// directory the command runs in. `exists` tells, for each flag, whether
/// the directory it names exists.
pub fn generation_directory(flags: &Vec<String>, call_dir: &str, home: &str, exists: &Vec<bool>) -> (r: Result<
    String,
    ProgramError,
>)
    requires
        exists@.len() == flags@.len(),
    ensures
        if has_input_flag(strings_view(flags@)) {
            &&& r is Ok <==> forall|i: int| 0 <= i < flags@.len() ==> #[trigger] gen_flag_ok(flags@[i]@, home@, exists@[i])
            &&& r matches Ok(d) ==> d@ == last_in(flags@.map_values(|s: String| s@), home@, flags@.len() as int, "."@)
            &&& r matches Err(e) ==> exists|i: int| 0 <= i < flags@.len() && gen_flag(flags@[i]@, home@, exists@[i], Err(e))
        } else {
            r matches Ok(d) && d@ == call_dir@
        },
{
    let ghost fs = strings_view(flags@);
    let mut any = false;
    for i in 0..flags.len()
        invariant
            fs == strings_view(flags@),
            any <==> exists|j: int| 0 <= j < i && starts_with(#[trigger] fs[j], "-i"@),
    {
        if has_prefix(&chars_of(flags[i].as_str()), "-i") {
            assert(starts_with(fs[i as int], "-i"@));
            any = true;
        }
    }
    if any {
        match FlagTypes::parse(flags, home, exists) {
            Ok(f) => Ok(f.directory()),
            Err(e) => Err(e),
        }
    } else {
        Ok(call_dir.to_string())
    }
}

/// The file a pair of arguments names as the template when the other is
/// `all`.
pub open spec fn template_arg(a0: Seq<char>, a1: Seq<char>) -> int {
    if a0 == "all"@ {
        1
    } else {
        0
    }
}

/// What `get_generation_files` gives for two arguments (`opened` tells
/// whether each could be opened) and a listing of the directory.
pub open spec fn generation_outcome(
    a: Seq<Seq<char>>,
    opened: Seq<bool>,
    directory: Seq<char>,
    listing: Option<Seq<(Seq<char>, bool, bool)>>,
    r: Result<(ValidatedFile, Vec<ValidatedFile>), ProgramError>,
) -> bool {
    if a[0] == "all"@ || a[1] == "all"@ {
        let k = template_arg(a[0], a[1]);
        if !file_ok(a[k], opened[k]) {
            r matches Err(e) && file_outcome(a[k], opened[k], Err(e))
        } else if format_type(file_format(a[k])->0) != Some(FileType::Template) {
            r matches Err(ProgramError::InvalidFileType)
        } else {
            match listing {
                None => r matches Err(ProgramError::InvalidFile(d)) && d@ == directory,
                Some(es) => match r {
                    Ok((t, vs)) => file_outcome(a[k], opened[k], Ok(t)) && listing_outcome(es, Ok(vs)),
                    Err(e) => listing_outcome(es, Err(e)),
                },
            }
        }
    } else if !file_ok(a[0], opened[0]) {
        r matches Err(e) && file_outcome(a[0], opened[0], Err(e))
    } else if !file_ok(a[1], opened[1]) {
        r matches Err(e) && file_outcome(a[1], opened[1], Err(e))
    } else {
        let t0 = format_type(file_format(a[0])->0);
        let t1 = format_type(file_format(a[1])->0);
        if t0 == Some(FileType::Template) && t1 == Some(FileType::Variable) {
            r matches Ok((t, vs)) && file_outcome(a[0], opened[0], Ok(t)) && vs@.len() == 1 && file_outcome(
                a[1],
                opened[1],
                Ok(vs@[0]),
            )
        } else if t0 == Some(FileType::Variable) && t1 == Some(FileType::Template) {
            r matches Ok((t, vs)) && file_outcome(a[1], opened[1], Ok(t)) && vs@.len() == 1 && file_outcome(
                a[0],
                opened[0],
                Ok(vs@[0]),
            )
        } else {
            r matches Err(ProgramError::InvalidFileType)
        }
    }
}

pub open spec fn listing_view(l: Option<Vec<(String, bool, bool)>>) -> Option<Seq<(Seq<char>, bool, bool)>> {
    match l {
        Some(es) => Some(entries_view(es@)),
        None => None,
    }
}

/// The template and the variable files of a `gen` or `watch` command: a
/// template and a variable file in either order, or a template and `all`
/// (in either order) for every variable file of the directory.
pub fn get_generation_files(
    command_args: &Vec<String>,
    opened: &Vec<bool>,
    directory: &str,
    listing: &Option<Vec<(String, bool, bool)>>,
) -> (r: Result<(ValidatedFile, Vec<ValidatedFile>), ProgramError>)
    requires
        command_args@.len() >= 2,
        opened@.len() >= 2,
    ensures
        generation_outcome(strings_view(command_args@), opened@, directory@, listing_view(*listing), r),
{
    let ghost a = strings_view(command_args@);
    let a0 = chars_of(command_args[0].as_str());
    let a1 = chars_of(command_args[1].as_str());
    let all0 = eq_str(&a0, "all");
    let all1 = eq_str(&a1, "all");
    if all0 || all1 {
        let k: usize = if all0 {
            1
        } else {
            0
        };
        let t = match ValidatedFile::from_str(command_args[k].as_str(), opened[k]) {
            Ok(t) => t,
            Err(e) => {
                return Err(e);
            },
        };
        match t.file_type {
            FileType::Template => {},
            _ => {
                return Err(ProgramError::InvalidFileType);
            },
        }
        match ValidatedFile::all_variable_files(directory, listing) {
            Ok(vs) => Ok((t, vs)),
            Err(e) => Err(e),
        }
    } else {
        let f0 = match ValidatedFile::from_str(command_args[0].as_str(), opened[0]) {
            Ok(t) => t,
            Err(e) => {
                return Err(e);
            },
        };
        let f1 = match ValidatedFile::from_str(command_args[1].as_str(), opened[1]) {
            Ok(t) => t,
            Err(e) => {
                return Err(e);
            },
        };
        match (&f0.file_type, &f1.file_type) {
            (FileType::Template, FileType::Variable) => {
                let mut vs: Vec<ValidatedFile> = Vec::new();
                vs.push(f1);
                Ok((f0, vs))
            },
            (FileType::Variable, FileType::Template) => {
                let mut vs: Vec<ValidatedFile> = Vec::new();
                vs.push(f0);
                Ok((f1, vs))
            },
            _ => Err(ProgramError::InvalidFileType),
        }
    }
}

} // verus!

use theme_generation::args::{FileType, ProgramError, ValidCommands, ValidatedFile};
use theme_generation::command::{plan_command, plan_would_panic, CommandPlan, get_generation_files};
use theme_generation::help::{help, watch, WatchAction, WatchEvent};

fn args(v: &[&str]) -> Vec<String> {
    v.iter().map(|s| s.to_string()).collect()
}

#[test]
fn command_names() {
    assert!(matches!(ValidCommands::from_str("check"), Ok(ValidCommands::Check)));
    assert!(matches!(ValidCommands::from_str("gen"), Ok(ValidCommands::Generate)));
    assert!(matches!(ValidCommands::from_str("rev"), Ok(ValidCommands::Reverse)));
    assert!(matches!(ValidCommands::from_str("help"), Ok(ValidCommands::Help)));
    assert!(matches!(ValidCommands::from_str("watch"), Ok(ValidCommands::Watch)));
    assert!(matches!(ValidCommands::from_str("edit"), Ok(ValidCommands::Edit)));
    assert!(matches!(ValidCommands::from_str("new"), Ok(ValidCommands::New)));
    assert!(matches!(ValidCommands::from_str("generate"), Err(ProgramError::InvalidCommand)));
}

#[test]
fn list_of_commands() {
    assert_eq!(
        ValidCommands::list_commands(),
        vec!["check", "gen", "rev", "help", "watch", "edit", "new"]
    );
}

#[test]
fn file_kinds_from_paths() {
    let t = ValidatedFile::from_str("themes/template.json", true).unwrap();
    assert_eq!(t.format, "template");
    assert!(t.file_type == FileType::Template);
    let j = ValidatedFile::from_str("themes/one.json", true).unwrap();
    assert_eq!(j.format, "json");
    assert!(j.file_type == FileType::Theme);
    assert_eq!(j.name, "themes/one.json");
    let v = ValidatedFile::from_str("vars.toml", true).unwrap();
    assert!(v.file_type == FileType::Variable);
}

#[test]
fn file_errors() {
    assert!(matches!(ValidatedFile::from_str("notes.txt", true), Err(ProgramError::InvalidIOFormat(f)) if f == "txt"));
    assert!(matches!(ValidatedFile::from_str("README", true), Err(ProgramError::InvalidFile(f)) if f == "README"));
    assert!(matches!(ValidatedFile::from_str("a.json", false), Err(ProgramError::InvalidFile(f)) if f == "a.json"));
    // Only a file named exactly `template.json` is a template.
    let j = ValidatedFile::from_str("my.template.json", true).unwrap();
    assert!(j.file_type == FileType::Theme);
}

#[test]
fn variable_files_of_a_listing() {
    let listing = Some(vec![
        (String::from("d/a.toml"), true, true),
        (String::from("d/b.json"), true, true),
        (String::from("d/sub.toml"), false, true),
        (String::from("d/c.toml"), true, true),
    ]);
    let files = ValidatedFile::all_variable_files("d", &listing).unwrap();
    let names: Vec<String> = files.iter().map(|f| f.name.clone()).collect();
    assert_eq!(names, vec!["d/a.toml", "d/c.toml"]);
    assert!(matches!(ValidatedFile::all_variable_files("d", &None), Err(ProgramError::InvalidFile(d)) if d == "d"));
}

#[test]
fn upper_case_toml_extension_is_selected_then_refused() {
    let listing = Some(vec![(String::from("d/A.TOML"), true, true)]);
    assert!(matches!(
        ValidatedFile::all_variable_files("d", &listing),
        Err(ProgramError::InvalidIOFormat(f)) if f == "TOML"
    ));
}

#[test]
fn generation_files_in_either_order() {
    let (t, vs) = get_generation_files(&args(&["v.toml", "t/template.json"]), &vec![true, true], ".", &None).unwrap();
    assert_eq!(t.name, "t/template.json");
    assert_eq!(vs.len(), 1);
    assert_eq!(vs[0].name, "v.toml");
    assert!(matches!(
        get_generation_files(&args(&["a.json", "b.toml"]), &vec![true, true], ".", &None),
        Err(ProgramError::InvalidFileType)
    ));
}

#[test]
fn generation_files_all() {
    let listing = Some(vec![(String::from("d/x.toml"), true, true)]);
    let (t, vs) = get_generation_files(&args(&["all", "template.json"]), &vec![false, true], "d", &listing).unwrap();
    assert_eq!(t.format, "template");
    assert_eq!(vs.len(), 1);
    assert!(matches!(
        get_generation_files(&args(&["template.json", "all"]), &vec![true, false], "d", &None),
        Err(ProgramError::InvalidFile(d)) if d == "d"
    ));
}

#[test]
fn no_command() {
    assert!(matches!(plan_command(&args(&["prog"])), Err(ProgramError::NoCommand)));
    assert!(matches!(plan_command(&args(&["prog", "make"])), Err(ProgramError::InvalidCommand)));
}

#[test]
fn help_plans() {
    assert!(matches!(plan_command(&args(&["prog", "help"])), Err(ProgramError::HelpAll)));
    assert!(matches!(plan_command(&args(&["prog", "help", "gen"])), Ok(CommandPlan::Help(ValidCommands::Generate))));
    assert!(matches!(plan_command(&args(&["prog", "help", "x"])), Err(ProgramError::HelpInvalidCommand)));
}

#[test]
fn not_enough_arguments() {
    assert!(matches!(
        plan_command(&args(&["prog", "check", "a.json", "-x"])),
        Err(ProgramError::NotEnoughArguments(ValidCommands::Check))
    ));
}

#[test]
fn flags_are_sorted_and_kept_once() {
    match plan_command(&args(&["prog", "rev", "-t=2", "t.template", "-o=x", "theme.json", "-t=2"])) {
        Ok(CommandPlan::Reverse(a, b, flags)) => {
            assert_eq!(a, "t.template");
            assert_eq!(b, "theme.json");
            assert_eq!(flags, vec!["-o=x", "-t=2"]);
        }
        _ => panic!("expected a reverse plan"),
    }
}

#[test]
fn edit_splits_flags() {
    let a = args(&["prog", "edit", "t.json", "u.template", "-n=x", "-t=3", "-o=d", "-i=z"]);
    assert!(!plan_would_panic(&a));
    match plan_command(&a) {
        Ok(CommandPlan::Edit(x, y, w, r)) => {
            assert_eq!(x, "t.json");
            assert_eq!(y, "u.template");
            assert_eq!(w, vec!["-i=z", "-n=x", "-o=d"]);
            assert_eq!(r, vec!["-n=x", "-t=3"]);
        }
        _ => panic!("expected an edit plan"),
    }
}

#[test]
fn plans_that_would_panic() {
    assert!(plan_would_panic(&args(&["prog", "new"])));
    assert!(plan_would_panic(&args(&["prog", "edit", "a.json", "b.template", "-"])));
    assert!(!plan_would_panic(&args(&["prog", "new", "Name"])));
}

#[test]
fn new_takes_the_first_argument() {
    match plan_command(&args(&["prog", "new", "My Theme", "-d=desc"])) {
        Ok(CommandPlan::New(n, f)) => {
            assert_eq!(n, "My Theme");
            assert_eq!(f, vec!["-d=desc"]);
        }
        _ => panic!("expected a new plan"),
    }
}

#[test]
fn help_texts() {
    assert_eq!(help(&ValidCommands::Help), "Displays help information.");
    assert!(help(&ValidCommands::Check).starts_with("Description:\n    - This checks line by line"));
    assert!(help(&ValidCommands::Reverse).contains("-t int\tThreshold"));
}

#[test]
fn watch_generates_on_changes_only() {
    assert!(watch(&WatchEvent::Changed) == WatchAction::Generate);
    assert!(watch(&WatchEvent::WatchError) == WatchAction::Wait);
    assert!(watch(&WatchEvent::Nothing) == WatchAction::Wait);
}

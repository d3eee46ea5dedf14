//! The help text of each command, and what watching does on each event.
use vstd::prelude::*;
use crate::args::ValidCommands;

verus! {

pub open spec fn check_help() -> Seq<char> {
    "Description:
    - This checks line by line if the original file and the new file are the same.
    - Displays similarity metrics.
    - Will help in debugging issues in generation/reverse process.
    - Template + Variables = GeneratedTheme == OriginalTheme

Usage:
    substitutor check originalFile newFile
"@
}

pub open spec fn generate_help() -> Seq<char> {
    "Description:
    - Template + Variables = GeneratedTheme
    - This generates a new file by substituting variables in the template file with values from the variable file.
    - This takes the Template as the source of truth. Things in the variable file that arent in the template will be ignored.
    - The generated file will be saved in the current directory.

Usage:
    substitutor gen templateFile variableFile [optional flags]

Flags:
    -v\tToggles verbose logging for debug purposes
    -c originalTheme\tRun substitutor check on originalTheme and generatedTheme
    -o directory\tSet output directory of generatedTheme
    -n name\tSet name of output theme file
        "@
}

pub open spec fn reverse_help() -> Seq<char> {
    "Description:
    - Template + OriginalTheme = Variables
    - This generates a variable file by substituting values in the original theme file with variables in the template file.
    - This takes the OriginalTheme as the source of truth. Things in the template that arent in the OriginalTheme will be ignored.
    - The generated file will be saved in the current directory.

Usage:
    substitutor rev templateFile originalTheme [optional flags]

Flags:
    -v\tToggles verbose logging for debug purposes
    -c\tRuns substitutor check on originalTheme and a generatedTheme of the generated variableFile
    -t int\tThreshold for how many same colors to exist before adding to [colors] subgroup
    -o directory\tSet output directory of variable file
        "@
}

pub open spec fn watch_help() -> Seq<char> {
    "Description:
    - Watch changes to .toml files in a directory or a specific file and generate the theme file on each change.
    - This makes it better to see live changes fast as you are making a theme

Usage:
    substitutor watch templateFile variableFile|all [optional flags]

Flags:
    -p path\tInner path to the theme in the theme file
    -o directory\tSet output directory of generatedTheme
    -n name\tSet name of output theme file
    -i directory\tSet directory where the .toml files are located
"@
}

pub open spec fn edit_help() -> Seq<char> {
    "Description:
    - Reverse the theme file against the template, then watch the variable files and generate the theme on each change.
    - This makes it way faster to get started editing rather than having to reverse and then generate manually, this does both.

Usage:
    substitutor edit themeFile templateFile [watch flags]

Flags: (Same as watch flags)
"@
}

pub open spec fn new_help() -> Seq<char> {
    "Description:
    - Generates a new project with a theme and its variants

Usage:
    substitutor new `theme-name` [flags]

Flags:
    -o directory: path\tSet output directory of variable file
    -t template: path\tSet template file to use
    -T themes: path[]\tSet paths of custom light and dark themes with trailing :d/:l to differentiaate
    -s style: str\tSet style of template to use (dark or light)
    -v variants: str[]\tNames of theme variants to auto fill
    -d description: str\tDescription of theme
"@
}

pub open spec fn help_text(c: ValidCommands) -> Seq<char> {
    match c {
        ValidCommands::Check => check_help(),
        ValidCommands::Generate => generate_help(),
        ValidCommands::Reverse => reverse_help(),
        ValidCommands::Help => "Displays help information."@,
        ValidCommands::Watch => watch_help(),
        ValidCommands::Edit => edit_help(),
        ValidCommands::New => new_help(),
    }
}

/// The help text of a command.
pub fn help(command: &ValidCommands) -> (r: String)
    ensures
        r@ == help_text(*command),
{
    match command {
        ValidCommands::Check => String::from_str("Description:
    - This checks line by line if the original file and the new file are the same.
    - Displays similarity metrics.
    - Will help in debugging issues in generation/reverse process.
    - Template + Variables = GeneratedTheme == OriginalTheme

Usage:
    substitutor check originalFile newFile
"),
        ValidCommands::Generate => String::from_str("Description:
    - Template + Variables = GeneratedTheme
    - This generates a new file by substituting variables in the template file with values from the variable file.
    - This takes the Template as the source of truth. Things in the variable file that arent in the template will be ignored.
    - The generated file will be saved in the current directory.

Usage:
    substitutor gen templateFile variableFile [optional flags]

Flags:
    -v\tToggles verbose logging for debug purposes
    -c originalTheme\tRun substitutor check on originalTheme and generatedTheme
    -o directory\tSet output directory of generatedTheme
    -n name\tSet name of output theme file
        "),
        ValidCommands::Reverse => String::from_str("Description:
    - Template + OriginalTheme = Variables
    - This generates a variable file by substituting values in the original theme file with variables in the template file.
    - This takes the OriginalTheme as the source of truth. Things in the template that arent in the OriginalTheme will be ignored.
    - The generated file will be saved in the current directory.

Usage:
    substitutor rev templateFile originalTheme [optional flags]

Flags:
    -v\tToggles verbose logging for debug purposes
    -c\tRuns substitutor check on originalTheme and a generatedTheme of the generated variableFile
    -t int\tThreshold for how many same colors to exist before adding to [colors] subgroup
    -o directory\tSet output directory of variable file
        "),
        ValidCommands::Help => String::from_str("Displays help information."),
        ValidCommands::Watch => String::from_str("Description:
    - Watch changes to .toml files in a directory or a specific file and generate the theme file on each change.
    - This makes it better to see live changes fast as you are making a theme

Usage:
    substitutor watch templateFile variableFile|all [optional flags]

Flags:
    -p path\tInner path to the theme in the theme file
    -o directory\tSet output directory of generatedTheme
    -n name\tSet name of output theme file
    -i directory\tSet directory where the .toml files are located
"),
        ValidCommands::Edit => String::from_str("Description:
    - Reverse the theme file against the template, then watch the variable files and generate the theme on each change.
    - This makes it way faster to get started editing rather than having to reverse and then generate manually, this does both.

Usage:
    substitutor edit themeFile templateFile [watch flags]

Flags: (Same as watch flags)
"),
        ValidCommands::New => String::from_str("Description:
    - Generates a new project with a theme and its variants

Usage:
    substitutor new `theme-name` [flags]

Flags:
    -o directory: path\tSet output directory of variable file
    -t template: path\tSet template file to use
    -T themes: path[]\tSet paths of custom light and dark themes with trailing :d/:l to differentiaate
    -s style: str\tSet style of template to use (dark or light)
    -v variants: str[]\tNames of theme variants to auto fill
    -d description: str\tDescription of theme
"),
    }
}

/// What the watcher reported: a batch of changes, an error of the
/// watcher, or nothing yet.
#[derive(Debug)]
pub enum WatchEvent {
    Changed,
    WatchError,
    Nothing,
}

/// What to do on an event: generate again, or keep waiting.
#[derive(Debug, PartialEq, Eq, Structural)]
pub enum WatchAction {
    Generate,
    Wait,
}

/// Watching generates the themes again on each batch of changes, and
/// ignores everything else.
pub fn watch(event: &WatchEvent) -> (r: WatchAction)
    ensures
        r == (if *event is Changed {
            WatchAction::Generate
        } else {
            WatchAction::Wait
        }),
{
    match event {
        WatchEvent::Changed => WatchAction::Generate,
        _ => WatchAction::Wait,
    }
}

} // verus!

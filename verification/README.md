# theme_generation

A command-line tool that builds editor color themes from a JSON template and
TOML variable files, reverses a finished theme back into a variable file,
compares two themes, watches files to regenerate on change, and scaffolds new
theme projects.

The logic is a Verus library under `src/`, each function with a contract that
Verus proves:

- `text`: character-level helpers the parsers share.
- `color`: colors in hex and functional forms, and the operations that change
  one component.
- `json`, `parsing`: JSON values, paths into them, and the values and variable
  references read from templates and themes.
- `generate`, `generation`: filling a template from a variable file.
- `check`: comparing two themes key by key.
- `reverse`, `rebuild`, `toml_out`: reversing a theme into the lines of a
  variable file.
- `args`, `command`, `help`, `new_theme`: the command line, the files a command
  works on, help texts and the `new` command's settings.

`app/` holds the program around it: reading and writing files, JSON and TOML
text, floating-point color conversions, the watch loop and project creation.
`tests/` runs the library on concrete inputs.

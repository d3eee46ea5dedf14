use palette::{Hsl, Hsv, IntoColor, Srgb};
use theme_generation::args::ProgramError;
use theme_generation::check::{compare_themes, Similarity};
use theme_generation::color::ColorSpace;
use theme_generation::generate::{gen, Flags};
use theme_generation::generation::{generate_themes, output_file_name, start_would_panic, variables_usable};
use theme_generation::json::{JSPath, Json};
use theme_generation::rebuild::{reverse, source_ok_exec, template_array_empty};
use theme_generation::reverse::{ReverseFlags, ReverseSettings};
use theme_generation::toml_out::{generate_toml_string, into_toml, render_lines, TomlLine};
use theme_generation::parsing::{ParsedValue, ResolvedVariable, VariableSet};

struct Space;

impl ColorSpace for Space {
    fn hsvl_from_rgb(&self, red: i16, green: i16, blue: i16) -> (i16, i16, i16, i16) {
        let rgb = Srgb::new(f32::from(red) / 255.0, f32::from(green) / 255.0, f32::from(blue) / 255.0);
        let v: Hsv = rgb.into_color();
        let l: Hsl = rgb.into_color();
        (
            v.hue.into_positive_degrees() as i16,
            (v.saturation * 100.0) as i16,
            (v.value * 100.0) as i16,
            (l.lightness * 100.0) as i16,
        )
    }
    fn rgb_from_hsv(&self, hue: i16, saturation: i16, value: i16) -> (i16, i16, i16) {
        let hsv = Hsv::new(f32::from(hue), f32::from(saturation) / 100.0, f32::from(value) / 100.0);
        let rgb: Srgb = hsv.into_color();
        ((rgb.red * 255.0) as i16, (rgb.green * 255.0) as i16, (rgb.blue * 255.0) as i16)
    }
    fn lightness_from_hsv(&self, hue: i16, saturation: i16, value: i16) -> i16 {
        let hsv = Hsv::new(f32::from(hue), f32::from(saturation) / 100.0, f32::from(value) / 100.0);
        let hsl: Hsl = hsv.into_color();
        (hsl.lightness * 100.0) as i16
    }
    fn sv_from_hsl(&self, hue: i16, saturation: i16, lightness: i16) -> (i16, i16) {
        let hsl = Hsl::new(f32::from(hue), f32::from(saturation) / 100.0, f32::from(lightness) / 100.0);
        let hsv: Hsv = hsl.into_color();
        ((hsv.saturation * 100.0) as i16, (hsv.value * 100.0) as i16)
    }
    fn saturation_from_sv(&self, saturation: i16, value: i16) -> i16 {
        let x = f32::from((200 - saturation) * value) / 100.0;
        let s = if x == 0.0 || x as i32 == 200 {
            0.0
        } else {
            f32::from(saturation * value) / { if x <= 100.0 { x } else { 200.0 - x } }.round()
        };
        s as i16
    }
}


fn to_json(v: &serde_json::Value) -> Json {
    match v {
        serde_json::Value::Null => Json::Null,
        serde_json::Value::Bool(b) => Json::Bool(*b),
        serde_json::Value::Number(n) => Json::Number(n.to_string()),
        serde_json::Value::String(s) => Json::String(s.clone()),
        serde_json::Value::Array(a) => Json::Array(a.iter().map(to_json).collect()),
        serde_json::Value::Object(o) => {
            Json::Object(o.iter().map(|(k, v)| (k.clone(), to_json(v))).collect())
        }
    }
}

fn parse(text: &str) -> Json {
    to_json(&serde_json::from_str::<serde_json::Value>(text).unwrap())
}

fn same(a: &Json, b: &Json) -> bool {
    theme_generation::json::json_eq(a, b)
}

fn gen_flags(name: &str, path: Option<&str>) -> Flags {
    Flags {
        replace_name: false,
        output_directory: String::from("."),
        input_directory: String::from("."),
        name: String::from(name),
        path: path.map(|p| JSPath::from_str(p).unwrap()),
    }
}

fn rev_settings() -> ReverseSettings {
    ReverseSettings {
        threshold: 3,
        output_directory: String::from("."),
        name: String::from("reversed-theme"),
        path: None,
        generate_deletions: true,
        generate_additions: true,
        generate_colors: true,
        generate_manual: true,
    }
}

fn texts(lines: &[TomlLine]) -> Vec<String> {
    lines
        .iter()
        .map(|l| match l {
            TomlLine::Text(t) => t.clone(),
            TomlLine::Entry(k, v) => format!("{k} = {}", show(v)),
            TomlLine::Item(v, c) => format!("\t{}{}", show(v), if *c { "," } else { "" }),
        })
        .collect()
}

fn show(j: &Json) -> String {
    match j {
        Json::String(s) => format!("{s:?}"),
        Json::Number(n) => n.clone(),
        Json::Bool(b) => b.to_string(),
        _ => String::from("<value>"),
    }
}

#[test]
fn gen_fills_variables() {
    let t = parse(r#"{"a": "$x", "b": "plain"}"#);
    let v = parse(r##"{"x": "#FF0000"}"##);
    assert!(variables_usable(&v, &Space));
    let out = gen(t, &v, &Space).unwrap();
    assert!(same(&out, &parse(r##"{"a": "#F00", "b": "plain"}"##)));
}

#[test]
fn gen_applies_path_overrides() {
    let t = parse(r#"{"a": "$x", "b": 1}"#);
    let v = parse(r#"{"x": "one", "overrides": {"/b": 2}}"#);
    let out = gen(t, &v, &Space).unwrap();
    assert!(same(&out, &parse(r#"{"a": "one", "b": 2}"#)));
}

#[test]
fn generate_one_theme_per_file() {
    let t = parse(r#"{"name": "$name", "a": "$x"}"#);
    let vars = vec![parse(r#"{"name": "Night", "x": "1"}"#), parse(r#"{"name": "Day", "x": "2"}"#)];
    let flags = gen_flags("generated-theme", None);
    assert!(!start_would_panic(&t, &flags, vars.len()));
    let outs = generate_themes(&t, &vars, &flags, &Space).unwrap();
    assert_eq!(outs.len(), 2);
    assert_eq!(outs[0].1, "Night.json");
    assert_eq!(outs[1].1, "Day.json");
    assert!(outs[0].2);
    assert!(same(&outs[1].0, &parse(r#"{"name": "Day", "a": "2"}"#)));
}

#[test]
fn generate_into_an_inner_array() {
    let t = parse(r#"{"themes": [{"c": "$x"}], "meta": 1}"#);
    let vars = vec![parse(r#"{"x": "a"}"#), parse(r#"{"x": "b"}"#)];
    let flags = gen_flags("out", Some("/themes"));
    let outs = generate_themes(&t, &vars, &flags, &Space).unwrap();
    assert_eq!(outs.len(), 1);
    assert_eq!(outs[0].1, "out.json");
    assert!(!outs[0].2);
    assert!(same(&outs[0].0, &parse(r#"{"themes": [{"c": "a"}, {"c": "b"}], "meta": 1}"#)));
}

#[test]
fn generate_with_a_missing_start() {
    let t = parse(r#"{"a": 1}"#);
    let flags = gen_flags("out", Some("/b"));
    match generate_themes(&t, &vec![], &flags, &Space) {
        Err(ProgramError::Processing(m)) => assert_eq!(m, "Invalid starting path."),
        _ => panic!("expected an error"),
    }
    let s = gen_flags("out", Some("/a"));
    match generate_themes(&t, &vec![], &s, &Space) {
        Err(ProgramError::Processing(m)) => assert_eq!(m, "Starting path must be an object or array."),
        _ => panic!("expected an error"),
    }
}

#[test]
fn start_that_would_panic() {
    let t = parse(r#"{"o": {}, "e": []}"#);
    assert!(start_would_panic(&t, &gen_flags("x", Some("/o")), 1));
    assert!(!start_would_panic(&t, &gen_flags("x", Some("/o")), 0));
    assert!(start_would_panic(&t, &gen_flags("x", Some("/e")), 0));
}

#[test]
fn output_names() {
    let flags = gen_flags("generated-theme", None);
    assert_eq!(output_file_name(&parse(r#"{"name": "A"}"#), &flags).unwrap(), "A.json");
    assert_eq!(output_file_name(&parse(r#"{"x": 1}"#), &flags).unwrap(), "generated-theme.json");
    assert!(output_file_name(&parse(r#"{"name": 3}"#), &flags).is_err());
    let named = gen_flags("mine", None);
    assert_eq!(output_file_name(&parse(r#"{"name": "A"}"#), &named).unwrap(), "mine.json");
}

#[test]
fn compare_identical_and_unrelated() {
    let a = parse(r#"{"a": 1}"#);
    assert!(matches!(compare_themes(&a, &a, &Space), Similarity::Identical));
    assert!(matches!(compare_themes(&a, &parse("[1]"), &Space), Similarity::Unrelated));
}

#[test]
fn compare_partial_lists_differences_once() {
    let a = parse(r#"{"a": 1, "b": 2}"#);
    let b = parse(r#"{"a": 1, "b": 3, "c": 4}"#);
    match compare_themes(&a, &b, &Space) {
        Similarity::Partial(d) => {
            assert_eq!(d.diffs, vec!["./b", "./c"]);
            assert_eq!(d.total_keys, 2);
        }
        _ => panic!("expected differences"),
    }
}

#[test]
fn into_toml_marks_nulls() {
    let t = into_toml(&parse(r#"{"a": null, "b": [null, 1]}"#));
    assert!(same(&t, &parse(r#"{"a": "$none", "b": ["$none", 1]}"#)));
}

#[test]
fn toml_file_layout() {
    let vars = parse(r##"{"a": 1, "color": {"red": "#f00"}, "g": {"x": [1, 2], "y": "s"}}"##);
    let overrides = VariableSet::new();
    let dels = vec![JSPath::from_str("/b/1").unwrap(), JSPath::from_str("/a").unwrap(), JSPath::from_str("/a").unwrap()];
    let lines = generate_toml_string(&vars, &overrides, &dels, &rev_settings());
    assert_eq!(
        texts(&lines),
        vec![
            "# Reverse Generation Tool Version 3.0",
            "a = 1",
            "\n# Theme Colors",
            "[color]",
            "red = \"#f00\"",
            "\n[g]",
            "x = [",
            "\t1,",
            "\t2",
            "]",
            "y = \"s\"",
            "\n# Overrides",
            "[overrides]",
            "\n# Deletions",
            "[deletions]",
            "keys = [",
            "\t\"/a\",",
            "\t\"/b/1\"",
            "]",
        ]
    );
}

#[test]
fn numbered_deletions_go_from_the_greatest_down() {
    let vars = parse(r#"{}"#);
    let dels = vec![JSPath::from_str("/x/1").unwrap(), JSPath::from_str("/x/2").unwrap()];
    let mut s = rev_settings();
    s.generate_colors = false;
    s.generate_additions = false;
    let lines = generate_toml_string(&vars, &VariableSet::new(), &dels, &s);
    assert_eq!(
        texts(&lines),
        vec!["# Reverse Generation Tool Version 3.0", "\n# Deletions", "[deletions]", "keys = [", "\t\"/x/2\",", "\t\"/x/1\"", "]"]
    );
}

#[test]
fn reverse_reads_variables_back() {
    let template = parse(r#"{"a": "$x", "b": "$y"}"#);
    let theme = parse(r##"{"a": "#FF0000", "b": "hello"}"##);
    let settings = rev_settings();
    assert!(source_ok_exec(&template, &Space) && source_ok_exec(&theme, &Space));
    assert!(!template_array_empty(&theme, &template, &settings));
    let files = reverse(&theme, &template, &settings, &Space).unwrap();
    assert_eq!(files.len(), 1);
    assert_eq!(files[0].0, "reversed-theme.toml");
    assert_eq!(
        texts(&files[0].1),
        vec![
            "# Reverse Generation Tool Version 3.0",
            "x = \"#F00\"",
            "y = \"hello\"",
            "\n# Theme Colors",
            "[color]",
            "\n# Overrides",
            "[overrides]",
            "\n# Deletions",
            "[deletions]",
            "keys = [",
            "]",
        ]
    );
}

#[test]
fn reverse_lists_missing_keys_as_deletions() {
    let template = parse(r#"{"a": "$x", "gone": "$y"}"#);
    let theme = parse(r#"{"a": "1"}"#);
    let files = reverse(&theme, &template, &rev_settings(), &Space).unwrap();
    let t = texts(&files[0].1);
    assert!(t.contains(&String::from("\t\"/gone\"")));
}

#[test]
fn reverse_names_array_themes() {
    let template = parse(r#"[{"name": "$n"}]"#);
    let theme = parse(r#"[{"name": "First"}, {"other": 1}]"#);
    let files = reverse(&theme, &template, &rev_settings(), &Space).unwrap();
    assert_eq!(files.len(), 2);
    assert_eq!(files[0].0, "First.toml");
    assert_eq!(files[1].0, "reversed-theme1.toml");
}

#[test]
fn reverse_start_errors() {
    let template = parse(r#"{"a": 1}"#);
    let theme = parse(r#"[1]"#);
    match reverse(&theme, &template, &rev_settings(), &Space) {
        Err(ProgramError::Processing(m)) => assert_eq!(m, "Invalid starting path."),
        _ => panic!("expected an error"),
    }
    let mut s = rev_settings();
    s.path = Some(JSPath::from_str("/nope").unwrap());
    match reverse(&template, &template, &s, &Space) {
        Err(ProgramError::Processing(m)) => assert_eq!(m, "Invalid starting path."),
        _ => panic!("expected an error"),
    }
}

#[test]
fn reverse_flags() {
    let flags = vec![String::from("-t=5"), String::from("-n=mine"), String::from("-gdc")];
    let s = ReverseFlags::parse(&flags, "/home/u", &vec![true, true, true]);
    assert_eq!(s.threshold, 5);
    assert_eq!(s.name, "mine");
    assert!(!s.generate_deletions);
    assert!(!s.generate_colors);
    assert!(s.generate_additions);
    assert!(s.generate_manual);
    assert!(ReverseFlags::into_vec(&vec![String::from("-x")], "/h", &vec![true]).is_err());
    match ReverseFlags::from_str("-t=abc", "/h", true) {
        Err(ProgramError::InvalidFlag(c, f)) => {
            assert_eq!(c, "reverse");
            assert_eq!(f, "-t=abc");
        }
        _ => panic!("expected an error"),
    }
}

#[test]
fn insert_then_read_variables() {
    let mut set = VariableSet::new();
    set.insert("a", ResolvedVariable::init("a", ParsedValue::String(String::from("one"))));
    set.insert("b", ResolvedVariable::init("b", ParsedValue::String(String::from("two"))));
    set.insert("a", ResolvedVariable::init("a", ParsedValue::String(String::from("three"))));
    assert!(set.has_variable("a"));
    assert!(!set.has_variable("c"));
    let m = set.to_map();
    assert_eq!(m.len(), 2);
    assert_eq!(m[0].0, "a");
    assert!(matches!(&m[0].1.value, ParsedValue::String(s) if s == "three"));
    assert!(matches!(&m[1].1.value, ParsedValue::String(s) if s == "two"));
}

#[test]
fn inc_insert_numbers_the_earlier_variable() {
    let mut set = VariableSet::new();
    set.inc_insert("c", ResolvedVariable::init("c", ParsedValue::String(String::from("x"))));
    set.inc_insert("c", ResolvedVariable::init("c", ParsedValue::String(String::from("y"))));
    let m = set.to_map();
    let names: Vec<&str> = m.iter().map(|e| e.0.as_str()).collect();
    assert!(names.contains(&"c"));
    assert!(names.contains(&"c1"));
}

#[test]
fn variable_file_text_layout() {
    let lines = vec![
        TomlLine::Text("[color]".to_string()),
        TomlLine::Entry("red".to_string(), Json::String("#F00".to_string())),
        TomlLine::Text("list = [".to_string()),
        TomlLine::Item(Json::Number("1".to_string()), true),
        TomlLine::Item(Json::Number("2".to_string()), false),
        TomlLine::Text("]".to_string()),
    ];
    let texts = vec![
        String::new(),
        "\"#F00\"".to_string(),
        String::new(),
        "1".to_string(),
        "2".to_string(),
        String::new(),
    ];
    assert_eq!(render_lines(&lines, &texts), "[color]\nred = \"#F00\"\nlist = [\n\t1,\n\t2\n]\n");
}

#[test]
fn distinct_template_variables_each_become_a_variable() {
    let info = theme_generation::parsing::KeyDiffInfo {
        missing: vec![],
        collisions: vec![],
        parsed_vars: vec![
            theme_generation::parsing::SourcedVariable::new("/a".to_string(), "$x", &Json::Number("1".to_string()), &Space),
            theme_generation::parsing::SourcedVariable::new("/b".to_string(), "$y", &Json::Number("2".to_string()), &Space),
        ],
    };
    let (v, o) = theme_generation::reverse::resolve_variables(&info, vec![], &Space);
    let vm = v.to_map();
    assert_eq!(vm.len(), 2);
    assert_eq!(vm[0].0, "x");
    assert_eq!(vm[1].0, "y");
    assert_eq!(vm[0].1.resolved_id, Some(0));
    assert!(matches!(&vm[0].1.value, ParsedValue::Value(Json::Number(n)) if n == "1"));
    assert_eq!(o.to_map().len(), 0);
}

#[test]
fn one_name_with_two_values_keeps_one_and_overrides_the_other() {
    let info = theme_generation::parsing::KeyDiffInfo {
        missing: vec![],
        collisions: vec![],
        parsed_vars: vec![
            theme_generation::parsing::SourcedVariable::new("/a".to_string(), "$x", &Json::Number("1".to_string()), &Space),
            theme_generation::parsing::SourcedVariable::new("/b".to_string(), "$x", &Json::Number("2".to_string()), &Space),
        ],
    };
    let (v, o) = theme_generation::reverse::resolve_variables(&info, vec![], &Space);
    let vm = v.to_map();
    let om = o.to_map();
    assert_eq!(vm.len(), 1);
    assert_eq!(vm[0].0, "x");
    assert_eq!(vm[0].1.resolved_id, Some(0));
    assert!(om.iter().any(|(k, r)| k == "x" && r.resolved_id.is_none()));
}

#[test]
fn a_value_walked_against_itself_shows_no_difference() {
    let j = parse(r##"{"a": {"b": "#FF0000", "c": [1, 2, "x"]}, "d": null}"##);
    let d = theme_generation::check::json_deep_diff(&j, &j, ".".to_string(), 0, &Space);
    assert!(d.diffs.is_empty());
    assert_eq!(d.total_keys, 7);
}

#[test]
fn reverse_texts_reads_json_and_writes_toml_text() {
    let template = r#"{"name": "$name", "bg": "$bg"}"#;
    let theme = r##"{"name": "Night", "bg": "#112233"}"##;
    let mut flags = rev_settings();
    flags.generate_colors = false;
    flags.generate_manual = false;
    let files = theme_generation::files::reverse_texts(theme, template, &flags, &Space).unwrap().unwrap();
    assert_eq!(files.len(), 1);
    assert_eq!(files[0].0, "reversed-theme.toml");
    assert!(files[0].1.contains("name = \"Night\""));
    assert!(files[0].1.contains("bg = \"#123\""), "{}", files[0].1);
    let bad = theme_generation::files::reverse_texts("{", template, &flags, &Space);
    assert!(matches!(bad, Err(ProgramError::Processing(m)) if m.starts_with("Invalid theme file json: ")));
}

#[test]
fn generate_texts_reads_toml_and_writes_json_text() {
    let template = r#"{"name": "$name", "bg": "$color.bg"}"#;
    let vars = vec![String::from("name = \"Night\"\n[color]\nbg = \"#112233\"\n")];
    let out = theme_generation::files::generate_texts(template, &vars, &gen_flags("generated-theme", None), &Space)
        .unwrap()
        .unwrap();
    assert_eq!(out.len(), 1);
    assert_eq!(out[0].1, "Night.json");
    let back = parse(&out[0].0);
    assert!(same(&back, &parse(r##"{"name": "Night", "bg": "#123"}"##)));
    let bad = theme_generation::files::generate_texts(template, &vec![String::from("= =")], &gen_flags("x", None), &Space);
    assert!(matches!(bad, Err(ProgramError::Processing(m)) if m.starts_with("Invalid variable toml: ")));
}

#[test]
fn check_texts_reads_both_themes() {
    let r = theme_generation::files::check_texts("{\"a\": 1}", "{\"a\": 1}", "json", "json", &Space).unwrap().unwrap();
    assert!(matches!(compare_themes(&r.0, &r.1, &Space), Similarity::Identical));
    let bad = theme_generation::files::check_texts("{\"a\": 1}", "nope", "json", "jsonc", &Space);
    assert!(matches!(bad, Err(ProgramError::InvalidIOFormat(f)) if f == "jsonc"));
}

#[test]
fn plain_reverse_of_nested_names_succeeds() {
    let template = parse(r#"{"a": "$ui.fg", "b": "$ui.bg", "c": "$size"}"#);
    let theme = parse(r##"{"a": "#FF0000", "b": "#000000", "c": 3}"##);
    let mut settings = rev_settings();
    settings.generate_colors = false;
    settings.generate_manual = false;
    let files = reverse(&theme, &template, &settings, &Space).unwrap();
    assert_eq!(files.len(), 1);
    let t = texts(&files[0].1);
    assert!(t.contains(&String::from("size = 3")));
    assert!(t.contains(&String::from("\n[ui]")));
    assert!(t.contains(&String::from("fg = \"#F00\"")));
    assert!(t.contains(&String::from("bg = \"#000\"")));
}

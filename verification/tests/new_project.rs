use theme_generation::args::ProgramError;
use theme_generation::new_theme::{
    flag_items, styles_used, theme_for_style, FlagTypes, ThemeFile, ThemeNames, ThemeStyle, Variant,
};

#[test]
fn theme_names_dash_case() {
    let n = ThemeNames::from_str("My Cool Theme");
    assert_eq!(n.name, "My Cool Theme");
    assert_eq!(n.dash_case, "my-cool-theme");
}

#[test]
fn style_parsing() {
    assert!(matches!(ThemeStyle::from_str("dark"), Ok(ThemeStyle::Dark)));
    assert!(matches!(ThemeStyle::from_str("light"), Ok(ThemeStyle::Light)));
    match ThemeStyle::from_str("blue") {
        Err(ProgramError::InvalidFlag(c, m)) => {
            assert_eq!(c, "new");
            assert_eq!(m, "Invalid style: blue");
        }
        _ => panic!("expected an error"),
    }
}

#[test]
fn variants_with_styles() {
    let v = Variant::from_str("Ocean Blue:l");
    assert_eq!(v.names.name, "Ocean Blue");
    assert_eq!(v.names.dash_case, "ocean-blue");
    assert!(matches!(v.style, ThemeStyle::Light));
    let d = Variant::from_str("Night");
    assert!(matches!(d.style, ThemeStyle::Dark));
}

#[test]
fn theme_files() {
    assert_eq!(ThemeFile::path_of("a/b.json:l"), "a/b.json");
    let t = ThemeFile::from_str("a/b.json:l", true).unwrap();
    assert_eq!(t.path, "a/b.json");
    assert!(matches!(t.style, ThemeStyle::Light));
    match ThemeFile::from_str("a/b.json", false) {
        Err(ProgramError::Processing(m)) => assert_eq!(m, "Theme file does not exist: a/b.json"),
        _ => panic!("expected an error"),
    }
}

#[test]
fn list_items_are_trimmed() {
    assert_eq!(flag_items("-v=One, Two:l,,  "), vec!["One", "Two:l"]);
}

#[test]
fn new_flags() {
    match FlagTypes::from_str("-d=A theme", "/h", true, &vec![]) {
        Ok(FlagTypes::Description(d)) => assert_eq!(d, "A theme"),
        _ => panic!("expected a description"),
    }
    match FlagTypes::from_str("-o=~/out", "/home/me", false, &vec![]) {
        Err(ProgramError::Processing(m)) => assert_eq!(m, "Invalid file/directory: /home/me/out"),
        _ => panic!("expected an error"),
    }
    match FlagTypes::from_str("-q", "/h", true, &vec![]) {
        Err(ProgramError::InvalidFlag(c, f)) => {
            assert_eq!(c, "reverse");
            assert_eq!(f, "-q");
        }
        _ => panic!("expected an error"),
    }
}

#[test]
fn new_settings_defaults_and_last_wins() {
    let flags = vec![String::from("-s=light"), String::from("-v=A,B:l"), String::from("-d=x"), String::from("-d=y")];
    let s = FlagTypes::parse(&flags, "/h", &vec![true; 4], &vec![vec![]; 4], "/m").unwrap();
    assert_eq!(s.output_directory, ".");
    assert!(matches!(s.style, ThemeStyle::Light));
    assert_eq!(s.description, "y");
    assert_eq!(s.variants.len(), 2);
    assert_eq!(s.themes.len(), 2);
    assert!(s.themes[0].path.ends_with("themes/theme-dark.json"));
    assert!(matches!(s.themes[1].style, ThemeStyle::Light));
    assert!(s.template.ends_with("templates/new-hls.json.template"));
    let (dark, light) = styles_used(&s.variants);
    assert!(dark && light);
    assert_eq!(theme_for_style(&s.themes, &ThemeStyle::Light), Some(1));
}

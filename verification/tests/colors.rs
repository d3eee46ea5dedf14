use palette::{Hsl, Hsv, IntoColor, Srgb};
use theme_generation::color::{Color, ColorSpace, Component, Operation};

struct Space;

impl ColorSpace for Space {
    fn hsvl_from_rgb(&self, red: i16, green: i16, blue: i16) -> (i16, i16, i16, i16) {
        let rgb = Srgb::new(f32::from(red) / 255.0, f32::from(green) / 255.0, f32::from(blue) / 255.0);
        let v: Hsv = rgb.into_color();
        let l: Hsl = rgb.into_color();
        (
            v.hue.into_positive_degrees() as i16,
            (v.saturation * 100.0) as i16,
            (v.value * 100.0) as i16,
            (l.lightness * 100.0) as i16,
        )
    }
    fn rgb_from_hsv(&self, hue: i16, saturation: i16, value: i16) -> (i16, i16, i16) {
        let hsv = Hsv::new(f32::from(hue), f32::from(saturation) / 100.0, f32::from(value) / 100.0);
        let rgb: Srgb = hsv.into_color();
        ((rgb.red * 255.0) as i16, (rgb.green * 255.0) as i16, (rgb.blue * 255.0) as i16)
    }
    fn lightness_from_hsv(&self, hue: i16, saturation: i16, value: i16) -> i16 {
        let hsv = Hsv::new(f32::from(hue), f32::from(saturation) / 100.0, f32::from(value) / 100.0);
        let hsl: Hsl = hsv.into_color();
        (hsl.lightness * 100.0) as i16
    }
    fn sv_from_hsl(&self, hue: i16, saturation: i16, lightness: i16) -> (i16, i16) {
        let hsl = Hsl::new(f32::from(hue), f32::from(saturation) / 100.0, f32::from(lightness) / 100.0);
        let hsv: Hsv = hsl.into_color();
        ((hsv.saturation * 100.0) as i16, (hsv.value * 100.0) as i16)
    }
    fn saturation_from_sv(&self, saturation: i16, value: i16) -> i16 {
        let x = f32::from((200 - saturation) * value) / 100.0;
        let s = if x == 0.0 || x as i32 == 200 {
            0.0
        } else {
            f32::from(saturation * value) / { if x <= 100.0 { x } else { 200.0 - x } }.round()
        };
        s as i16
    }
}

#[test]
fn norm_hex_expands_short_forms() {
    assert_eq!(Color::norm_hex("#abc"), "#AABBCC");
    assert_eq!(Color::norm_hex("#abcd"), "#AABBCCDD");
    assert_eq!(Color::norm_hex("#a1b2c3"), "#A1B2C3");
}

#[test]
fn hex_validity() {
    assert!(Color::is_valid_hex("#fff"));
    assert!(Color::is_valid_hex("#FFFFFF80"));
    assert!(!Color::is_valid_hex("#ffff0"));
    assert!(!Color::is_valid_hex("fff"));
    assert!(!Color::is_valid_hex("#ggg"));
}

#[test]
fn from_hex_reads_channels() {
    let c = Color::from_hex("#FF0000", &Space).unwrap();
    assert_eq!((c.red, c.green, c.blue, c.alpha), (255, 0, 0, 100));
    assert_eq!(c.hue, 0);
    assert_eq!(c.saturation, 100);
    assert_eq!(c.value, 100);
    assert_eq!(c.lightness, 50);
    assert_eq!(c.hex, "#F00");
    assert!(!c.has_alpha());
    assert_eq!(c.get_alpha(), "FF");
}

#[test]
fn from_hex_reads_alpha() {
    let c = Color::from_hex("#00FF0080", &Space).unwrap();
    assert_eq!(c.alpha, 50);
    assert!(c.has_alpha());
    assert_eq!(c.get_alpha(), "80");
    assert_eq!(c.to_alphaless_hex(), "#00FF00");
}

#[test]
fn from_hex_rejects_bad_text() {
    assert!(Color::from_hex("#12345", &Space).is_err());
}

#[test]
fn alphaless_hex_of_opaque_color_is_normalized() {
    let c = Color::from_hex("#abc", &Space).unwrap();
    assert_eq!(c.to_alphaless_hex(), "#AABBCC");
}

#[test]
fn operation_parsing() {
    let o = Operation::from_str("r+10").unwrap();
    assert!(matches!(o.0, Component::Red(10)));
    assert_eq!(o.1, "+");
    let a = Operation::from_str("a=50").unwrap();
    assert!(matches!(a.0, Component::Alpha(50)));
    let h = Operation::from_str("h.80").unwrap();
    assert!(matches!(h.0, Component::Hex(ref x) if x == "80"));
    assert_eq!(h.1, ".");
    assert!(Operation::from_str("x+1").is_err());
    assert!(Operation::from_str(".80").is_err());
    assert!(Operation::from_str("r%1").is_err());
    assert!(Operation::from_str("r+abc").is_err());
}

#[test]
fn identity_resets_alpha_changes() {
    let a = Operation::from_str("a=50").unwrap();
    let i = Operation::identity(a);
    assert!(matches!(i.0, Component::Alpha(100)));
    assert_eq!(i.1, "=");
    let r = Operation::from_str("r+10").unwrap();
    let j = Operation::identity(r);
    assert!(matches!(j.0, Component::Red(0)));
    assert_eq!(j.1, "+");
}

#[test]
fn identity_leaves_the_color_unchanged() {
    for text in ["h+10", "r-20", "s*2", "v/2", "l=40"] {
        let c = Operation::from_str(text).unwrap();
        let col = Color::from_hex("#FF0000", &Space).unwrap();
        let mut d = col.clone();
        assert!(d.update(vec![Operation::identity(c)], &Space).is_ok());
        assert_eq!(d.hex, col.hex);
    }
}

#[test]
fn inverse_undoes_additions() {
    let ops = vec![Operation::from_str("r+10").unwrap(), Operation::from_str("g-5").unwrap()];
    let inv = Operation::inverse(&ops);
    assert_eq!(inv.len(), 2);
    assert!(matches!(inv[0].0, Component::Green(5)));
    assert_eq!(inv[0].1, "+");
    assert!(matches!(inv[1].0, Component::Red(10)));
    assert_eq!(inv[1].1, "-");
}

#[test]
fn update_changes_red() {
    let mut c = Color::from_hex("#000000", &Space).unwrap();
    let ops = vec![Operation::from_str("r+16").unwrap()];
    c.update(ops, &Space).unwrap();
    assert_eq!(c.red, 16);
    assert_eq!(c.hex, "#100000");
}

#[test]
fn update_sets_alpha_in_hex() {
    let mut c = Color::from_hex("#FF0000", &Space).unwrap();
    c.update(vec![Operation::from_str("a=50").unwrap()], &Space).unwrap();
    assert_eq!(c.alpha, 50);
    assert_eq!(c.hex, "#FF000080");
}

#[test]
fn color_from_rgb_text() {
    let c = Color::from_str("rgb(0, 0, 255)", &Space).unwrap();
    assert_eq!(c.hex, "#00F");
    assert!(Color::from_str("rgb(0, 0)", &Space).is_err());
}

#[test]
fn color_equality_is_close_channels() {
    let a = Color::from_hex("#FF0000", &Space).unwrap();
    let b = Color::from_hex("#FE0000", &Space).unwrap();
    let c = Color::from_hex("#F00000", &Space).unwrap();
    assert!(a.eq(&b));
    assert!(!a.eq(&c));
}

#[test]
fn color_names_come_from_the_palette_of_names() {
    let c = Color::from_hex("#FF0000", &Space).unwrap();
    assert_eq!(c.get_name(), "color.red");
}

#[test]
fn from_change_applies_operations() {
    let ops = vec![Operation::from_str("b+1").unwrap()];
    let c = Color::from_change("#000000", &ops, &Space).unwrap();
    assert_eq!(c.blue, 1);
    assert_eq!(c.to_string(), "#000001");
}

#[test]
fn inverse_twice_gives_the_changes_back() {
    let ops = vec![Operation::from_str("h*2").unwrap(), Operation::from_str("v/3").unwrap()];
    let back = Operation::inverse(&Operation::inverse(&ops));
    assert_eq!(back.len(), 2);
    assert!(matches!(back[0].0, Component::Hue(2)));
    assert_eq!(back[0].1, "*");
    assert!(matches!(back[1].0, Component::Value(3)));
    assert_eq!(back[1].1, "/");
}

#[test]
fn norm_hex_twice_is_norm_hex_once() {
    let once = Color::norm_hex("#abc");
    assert_eq!(once, "#AABBCC");
    assert_eq!(Color::norm_hex(&once), once);
    let once = Color::norm_hex("#12ab34cd");
    assert_eq!(Color::norm_hex(&once), once);
}

#[test]
fn alpha_below_full_only_with_an_alpha_pair_short_of_ff() {
    assert!(Color::from_hex("#FF000080", &Space).unwrap().has_alpha());
    assert!(!Color::from_hex("#FF0000FF", &Space).unwrap().has_alpha());
    assert!(!Color::from_hex("#F00", &Space).unwrap().has_alpha());
    assert!(Color::from_hex("#F008", &Space).unwrap().has_alpha());
}

#[test]
fn from_change_names_the_parse_error() {
    assert!(matches!(Color::from_change("nothex", &[], &Space), Err(theme_generation::color::Error::InvalidColorString)));
    assert!(matches!(Color::from_change("#GGG", &[], &Space), Err(theme_generation::color::Error::Hex(h)) if h == "#ggg"));
}

#[test]
fn rgb_changes_then_their_inverse_give_the_color_back() {
    let start = Color::from_hex("#102030", &Space).unwrap();
    let ops = vec![
        Operation::from_str("r+10").unwrap(),
        Operation::from_str("g-5").unwrap(),
        Operation::from_str("b+200").unwrap(),
    ];
    let inv = Operation::inverse(&ops);
    let mut c = start.clone();
    c.update(ops, &Space).unwrap();
    assert_eq!(c.hex, "#1A1BF8");
    c.update(inv, &Space).unwrap();
    assert_eq!(c.hex, start.hex);
    assert_eq!((c.red, c.green, c.blue, c.alpha), (start.red, start.green, start.blue, start.alpha));
}

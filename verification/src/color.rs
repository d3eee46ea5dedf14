//! Colors as hex strings with their RGB, HSV and HSL components, and the
//! operations that change one component of a color.
//!
//! Valid color strings are `#RRGGBB`, `#RGB`, `#RRGGBBAA`, `#RGBA`, and the
//! functional forms `rgb(..)`, `hsl(..)`, `hsv(..)`. When a color is modified
//! all of its properties are brought up to date: changing HSV recomputes RGB,
//! changing RGB recomputes HSV and HSL, and the hex string always follows the
//! RGB and alpha components.
use vstd::prelude::*;
use crate::text::{
    push_char, chars_of, string_of, to_upper, unicode_upper, i16_hex2, fmt_i16_hex2, hex2,
    fmt_hex2, byte_len, byte_length_capped, char_len, is_hex_digit, is_ascii_hexdigit, hex_value,
    hex_digit_value, starts_with, all_ascii, is_ascii_char, append_chars, trim, trim_seq,
    is_alphabetic, unicode_alphabetic, int_text, parse_i16, skip_chars, to_lower, unicode_lower,
    split_by, split_any, take_bytes, take_bytes_exec, has_byte_boundary, ends_with, has_suffix,
    chars_eq, lemma_split_by_nonempty, byte_boundary,
};

verus! {

pub const MAX_RGB: i16 = 255;

pub const MAX_SVA: i16 = 100;

pub const MAX_HUE: i16 = 360;

#[derive(Debug)]
pub enum Error {
    Hex(String),
    Component,
    Change,
    Operator,
    InvalidColorString,
}

/// A single component of a color that can be changed.
#[derive(Debug)]
pub enum Component {
    Hue(i16),
    HsvSaturation(i16),
    HslSaturation(i16),
    Value(i16),
    Red(i16),
    Green(i16),
    Blue(i16),
    Lightness(i16),
    Alpha(i16),
    Hex(String),
}

impl Clone for Component {
    fn clone(&self) -> (r: Self)
        ensures
            r == *self,
    {
        match self {
            Component::Hue(v) => Component::Hue(*v),
            Component::HsvSaturation(v) => Component::HsvSaturation(*v),
            Component::HslSaturation(v) => Component::HslSaturation(*v),
            Component::Value(v) => Component::Value(*v),
            Component::Red(v) => Component::Red(*v),
            Component::Green(v) => Component::Green(*v),
            Component::Blue(v) => Component::Blue(*v),
            Component::Lightness(v) => Component::Lightness(*v),
            Component::Alpha(v) => Component::Alpha(*v),
            Component::Hex(h) => Component::Hex(h.clone()),
        }
    }
}

/// The numeric value a component carries (0 for a hex component).
pub open spec fn comp_value(c: Component) -> i16 {
    match c {
        Component::Hue(v) => v,
        Component::HsvSaturation(v) => v,
        Component::HslSaturation(v) => v,
        Component::Value(v) => v,
        Component::Red(v) => v,
        Component::Green(v) => v,
        Component::Blue(v) => v,
        Component::Lightness(v) => v,
        Component::Alpha(v) => v,
        Component::Hex(_) => 0,
    }
}

impl Component {
    /// The numeric value the component carries (0 for a hex component).
    pub fn value(&self) -> (r: i16)
        ensures
            r == comp_value(*self),
    {
        match self {
            Component::Hue(v) => *v,
            Component::HsvSaturation(v) => *v,
            Component::HslSaturation(v) => *v,
            Component::Value(v) => *v,
            Component::Red(v) => *v,
            Component::Green(v) => *v,
            Component::Blue(v) => *v,
            Component::Lightness(v) => *v,
            Component::Alpha(v) => *v,
            Component::Hex(_) => 0,
        }
    }
}

/// The same kind of component, carrying `v`.
pub open spec fn with_value(c: Component, v: i16) -> Component {
    match c {
        Component::Hue(_) => Component::Hue(v),
        Component::HsvSaturation(_) => Component::HsvSaturation(v),
        Component::HslSaturation(_) => Component::HslSaturation(v),
        Component::Value(_) => Component::Value(v),
        Component::Red(_) => Component::Red(v),
        Component::Green(_) => Component::Green(v),
        Component::Blue(_) => Component::Blue(v),
        Component::Lightness(_) => Component::Lightness(v),
        Component::Alpha(_) => Component::Alpha(v),
        Component::Hex(h) => Component::Hex(h),
    }
}

pub open spec fn clamp(v: int, lo: int, hi: int) -> int {
    if v < lo {
        lo
    } else if v > hi {
        hi
    } else {
        v
    }
}

/// A component brought into its valid range: hue wraps around 360,
/// saturation, value, lightness and alpha are clamped to `0..=100`, and the
/// RGB channels to `0..=255`.
pub open spec fn validated(c: Component) -> Component {
    match c {
        Component::Hue(h) => Component::Hue(
            if 0 <= h < 360 {
                h
            } else {
                (h % 360) as i16
            },
        ),
        Component::Red(v) => Component::Red(clamp(v as int, 0, 255) as i16),
        Component::Green(v) => Component::Green(clamp(v as int, 0, 255) as i16),
        Component::Blue(v) => Component::Blue(clamp(v as int, 0, 255) as i16),
        Component::Hex(h) => Component::Hex(h),
        _ => with_value(c, clamp(comp_value(c) as int, 0, 100) as i16),
    }
}

fn clamp_i16(v: i16, lo: i16, hi: i16) -> (r: i16)
    requires
        lo <= hi,
    ensures
        r == clamp(v as int, lo as int, hi as int),
{
    if v < lo {
        lo
    } else if v > hi {
        hi
    } else {
        v
    }
}

impl Component {
    /// Validates and clamps the component value to its valid range.
    pub fn validate_change(&mut self)
        ensures
            *final(self) == validated(*old(self)),
    {
        match self {
            Component::Hue(h) => {
                if !(0 <= *h && *h < MAX_HUE) {
                    let m = (*h as i32) % 360;
                    let r = if m < 0 {
                        m + 360
                    } else {
                        m
                    };
                    assert(r == (*h as int) % 360);
                    *h = r as i16;
                }
            },
            Component::Red(v) => {
                *v = clamp_i16(*v, 0, MAX_RGB);
            },
            Component::Green(v) => {
                *v = clamp_i16(*v, 0, MAX_RGB);
            },
            Component::Blue(v) => {
                *v = clamp_i16(*v, 0, MAX_RGB);
            },
            Component::HsvSaturation(v) => {
                *v = clamp_i16(*v, 0, MAX_SVA);
            },
            Component::HslSaturation(v) => {
                *v = clamp_i16(*v, 0, MAX_SVA);
            },
            Component::Value(v) => {
                *v = clamp_i16(*v, 0, MAX_SVA);
            },
            Component::Alpha(v) => {
                *v = clamp_i16(*v, 0, MAX_SVA);
            },
            Component::Lightness(v) => {
                *v = clamp_i16(*v, 0, MAX_SVA);
            },
            Component::Hex(_) => {},
        }
    }
}

/// A color change `(component, operator)`: e.g. `h+10`, `s/2`, `r=2`, or
/// `..XX` to append an alpha byte to the hex form.
#[derive(Debug)]
pub struct Operation(pub Component, pub String);

impl Clone for Operation {
    fn clone(&self) -> (r: Self)
        ensures
            r == *self,
    {
        Operation(self.0.clone(), self.1.clone())
    }
}

pub type Operations = Vec<Operation>;

/// The identity replacement for one change: setting alpha or appending a
/// hex alpha becomes `alpha = 100`; every other change is kept.
pub open spec fn resets_alpha(c: Operation) -> bool {
    (c.0 is Alpha && c.1@ == seq!['=']) || (c.0 is Hex && c.1@ == seq!['.'])
}

/// The string holds exactly the character `c`.
pub fn eq_str_char(s: &String, c: char) -> (r: bool)
    ensures
        r == (s@ == seq![c]),
{
    let v = chars_of(s.as_str());
    if v.len() != 1 {
        return false;
    }
    if v[0] == c {
        assert(v@ =~= seq![c]);
        true
    } else {
        assert(v@[0] != seq![c][0]);
        false
    }
}

/// A one-character operator string.
pub fn op_string(c: char) -> (r: String)
    ensures
        r@ == seq![c],
{
    let mut r = String::new();
    push_char(&mut r, c);
    r
}

/// The change with alpha changes reset: an alpha assignment or a hex
/// alpha suffix becomes `alpha = 100`; any other operation comes back as it
/// is.
fn alpha_reset(c: Operation) -> (r: Operation)
    ensures
        resets_alpha(c) ==> r.0 == Component::Alpha(100) && r.1@ == seq!['='],
        !resets_alpha(c) ==> r == c,
{
    let is_reset = match (&c.0, c.1.as_str()) {
        (Component::Alpha(_), _) => eq_str_char(&c.1, '='),
        (Component::Hex(_), _) => eq_str_char(&c.1, '.'),
        _ => false,
    };
        if is_reset {
            Operation(Component::Alpha(100), op_string('='))
        } else {
            c
        }
}

proof fn lemma_op_char_ne(o: Seq<char>, oc: Option<char>, y: char)
    requires
        oc matches Some(x) ==> o == seq![x],
        oc is None ==> o.len() != 1,
    ensures
        oc != Some(y) ==> o != seq![y],
        oc == Some(y) ==> o == seq![y],
{
    if let Some(x) = oc {
        lemma_single_ne(x, y);
    }
}

/// The component with its value set (a hex component is kept).
fn set_value(c: &Component, v: i16) -> (r: Component)
    ensures
        r == with_value(*c, v),
{
    match c {
        Component::Hue(_) => Component::Hue(v),
        Component::HsvSaturation(_) => Component::HsvSaturation(v),
        Component::HslSaturation(_) => Component::HslSaturation(v),
        Component::Value(_) => Component::Value(v),
        Component::Red(_) => Component::Red(v),
        Component::Green(_) => Component::Green(v),
        Component::Blue(_) => Component::Blue(v),
        Component::Lightness(_) => Component::Lightness(v),
        Component::Alpha(_) => Component::Alpha(v),
        Component::Hex(h) => Component::Hex(h.clone()),
    }
}

impl Operation {
    /// Returns an identity operation that leaves the color unchanged: an
    /// arithmetic change keeps its component and operator with the neutral
    /// amount (`+0`, `-0`, `*1`, `/1`); setting a component becomes adding
    /// 0 to it; a hex change other than an alpha suffix becomes `red + 0`.
    /// Setting alpha or appending a hex alpha becomes `alpha = 100`, the
    /// color without its alpha.
    pub fn identity(c: Self) -> (r: Self)
        ensures
            op_view(r) == identity_one(op_view(c)),
    {
        let oc = op_char(&c.1);
        proof {
            lemma_op_char_ne(c.1@, oc, '+');
            lemma_op_char_ne(c.1@, oc, '-');
            lemma_op_char_ne(c.1@, oc, '*');
            lemma_op_char_ne(c.1@, oc, '/');
            lemma_op_char_ne(c.1@, oc, '=');
            lemma_op_char_ne(c.1@, oc, '.');
        }
        match &c.0 {
            Component::Alpha(_) => {
                if oc == Some('=') {
                    return Operation(Component::Alpha(100), op_string('='));
                }
            },
            Component::Hex(_) => {
                if oc == Some('.') {
                    return Operation(Component::Alpha(100), op_string('='));
                }
                return Operation(Component::Red(0), op_string('+'));
            },
            _ => {},
        }
        if oc == Some('+') {
            Operation(set_value(&c.0, 0), op_string('+'))
        } else if oc == Some('-') {
            Operation(set_value(&c.0, 0), op_string('-'))
        } else if oc == Some('*') {
            Operation(set_value(&c.0, 1), op_string('*'))
        } else if oc == Some('/') {
            Operation(set_value(&c.0, 1), op_string('/'))
        } else {
            Operation(set_value(&c.0, 0), op_string('+'))
        }
    }
}


/// The conversions between RGB, HSV and HSL that a color needs when one of
/// its components changes. They are computed in floating point, which this
/// library does not hold; whoever builds colors supplies them.
pub trait ColorSpace {
    /// Hue, saturation and value of the HSV form, and lightness of the HSL
    /// form, of an RGB color.
    fn hsvl_from_rgb(&self, red: i16, green: i16, blue: i16) -> (i16, i16, i16, i16);

    /// RGB channels of an HSV color.
    fn rgb_from_hsv(&self, hue: i16, saturation: i16, value: i16) -> (i16, i16, i16);

    /// HSL lightness of an HSV color.
    fn lightness_from_hsv(&self, hue: i16, saturation: i16, value: i16) -> i16;

    /// HSV saturation and value of an HSL color.
    fn sv_from_hsl(&self, hue: i16, saturation: i16, lightness: i16) -> (i16, i16);

    /// The HSL saturation that corresponds to an HSV saturation and value.
    fn saturation_from_sv(&self, saturation: i16, value: i16) -> i16;
}

/// A color: alpha (0-100), RGB channels, hue, saturation, lightness, value,
/// and its hex string.
#[derive(Debug)]
pub struct Color {
    pub alpha: i16,
    pub red: i16,
    pub green: i16,
    pub blue: i16,
    pub hue: i16,
    pub saturation: i16,
    pub lightness: i16,
    pub value: i16,
    pub hex: String,
}

impl Clone for Color {
    fn clone(&self) -> (r: Self)
        ensures
            r == *self,
    {
        Color {
            alpha: self.alpha,
            red: self.red,
            green: self.green,
            blue: self.blue,
            hue: self.hue,
            saturation: self.saturation,
            lightness: self.lightness,
            value: self.value,
            hex: self.hex.clone(),
        }
    }
}

/// `ceil(n / d)` for `d > 0`.
pub open spec fn ceil_div(n: int, d: int) -> int {
    (n + d - 1) / d
}

/// The alpha channel as a byte: `ceil(alpha / 100 * 255)`, saturated to `i16`.
pub open spec fn alpha_byte(a: i16) -> i16 {
    clamp(ceil_div(a * 255, 100), i16::MIN as int, i16::MAX as int) as i16
}

/// The string is two equal characters.
pub open spec fn is_xx(s: Seq<char>) -> bool {
    s.len() == 2 && s[0] == s[1]
}

/// The hex string of an RGB color with alpha: `#RRGGBB` (or `#RGB` when each
/// channel is a doubled digit) without alpha at 100, and `#RRGGBBAA` (or
/// `#RGBA`) otherwise.
pub open spec fn hex_of(r: i16, g: i16, b: i16, a: i16) -> Seq<char> {
    let rs = i16_hex2(r);
    let gs = i16_hex2(g);
    let bs = i16_hex2(b);
    let xx = is_xx(rs) && is_xx(gs) && is_xx(bs);
    if a == 100 {
        if xx {
            seq!['#', rs[0], gs[0], bs[0]]
        } else {
            seq!['#'] + rs + gs + bs
        }
    } else {
        let aa = i16_hex2(alpha_byte(a));
        if xx && is_xx(aa) {
            seq!['#', rs[0], gs[0], bs[0], aa[0]]
        } else {
            seq!['#'] + rs + gs + bs + aa
        }
    }
}

impl Color {
    /// The hex string follows the RGB channels and alpha.
    pub open spec fn wf(&self) -> bool {
        self.hex@ == hex_of(self.red, self.green, self.blue, self.alpha)
    }

    /// The same color with a fresh hex string.
    pub open spec fn rehexed(self, h: String) -> Color {
        Color { hex: h, ..self }
    }
}

fn is_xx_exec(s: &Vec<char>) -> (r: bool)
    ensures
        r == is_xx(s@),
{
    s.len() == 2 && s[0] == s[1]
}

fn alpha_byte_exec(a: i16) -> (r: i16)
    ensures
        r == alpha_byte(a),
{
    let n: i32 = a as i32 * 255 + 99;
    let q: i32 = if n >= 0 {
        n / 100
    } else {
        0 - ((0 - n + 99) / 100)
    };
    assert(q == n / 100);
    if q < -32768 {
        -32768
    } else if q > 32767 {
        32767
    } else {
        q as i16
    }
}

/// Doubles every character: `abc` becomes `aabbcc`.
pub open spec fn doubled(s: Seq<char>) -> Seq<char>
    decreases s.len(),
{
    if s.len() == 0 {
        s
    } else {
        doubled(s.drop_last()) + seq![s.last(), s.last()]
    }
}

proof fn lemma_doubled(s: Seq<char>)
    ensures
        doubled(s).len() == 2 * s.len(),
        forall|i: int|
            0 <= i < s.len() ==> doubled(s)[2 * i] == s[i] && doubled(s)[2 * i + 1] == s[i],
    decreases s.len(),
{
    if s.len() > 0 {
        lemma_doubled(s.drop_last());
        let d = doubled(s);
        let p = doubled(s.drop_last());
        let l = s.last();
        assert(d == p + seq![l, l]);
        assert forall|i: int| 0 <= i < s.len() implies d[2 * i] == s[i] && d[2 * i + 1] == s[i] by {
            if i < s.len() - 1 {
                assert(d[2 * i] == p[2 * i]);
                assert(d[2 * i + 1] == p[2 * i + 1]);
                assert(s.drop_last()[i] == s[i]);
            } else {
                assert(d[2 * i] == seq![l, l][0]);
                assert(d[2 * i + 1] == seq![l, l][1]);
            }
        }
    }
}

proof fn lemma_byte_len_ascii(s: Seq<char>)
    requires
        all_ascii(s),
    ensures
        byte_len(s) == s.len(),
    decreases s.len(),
{
    if s.len() > 0 {
        assert(is_ascii_char(s[s.len() - 1]));
        assert(all_ascii(s.drop_last())) by {
            assert forall|i: int| 0 <= i < s.drop_last().len() implies is_ascii_char(
                #[trigger] s.drop_last()[i],
            ) by {
                assert(s.drop_last()[i] == s[i]);
            }
        }
        lemma_byte_len_ascii(s.drop_last());
    }
}

/// ASCII upper-case of each character.
pub open spec fn ascii_upper(h: Seq<char>) -> Seq<char> {
    h.map_values(|c: char| crate::text::ascii_upper_char(c))
}

/// `Color::norm_hex` on ASCII text: ASCII upper-case, and `#RGB`/`#RGBA`
/// expanded to `#RRGGBB`/`#RRGGBBAA`.
pub open spec fn ascii_norm_hex(h: Seq<char>) -> Seq<char> {
    let u = ascii_upper(h);
    if u.len() == 4 || u.len() == 5 {
        seq!['#'] + doubled(u.skip(1))
    } else {
        u
    }
}

proof fn lemma_upper_ascii(h: Seq<char>)
    requires
        all_ascii(h),
    ensures
        all_ascii(ascii_upper(h)),
        forall|i: int| 0 <= i < h.len() ==> !('a' <= #[trigger] ascii_upper(h)[i] <= 'z'),
{
    let u = ascii_upper(h);
    assert forall|i: int| 0 <= i < h.len() implies is_ascii_char(#[trigger] u[i]) && !('a' <= u[i] <= 'z') by {
        assert(is_ascii_char(h[i]));
        assert(u[i] == crate::text::ascii_upper_char(h[i]));
    }
}

/// Normalising a hex text twice gives what normalising it once gives, and
/// the result has no lower-case letter (for ASCII text).
pub proof fn law_norm_hex_idempotent(h: Seq<char>)
    requires
        all_ascii(h),
    ensures
        all_ascii(ascii_norm_hex(h)),
        ascii_norm_hex(ascii_norm_hex(h)) == ascii_norm_hex(h),
        forall|i: int| 0 <= i < ascii_norm_hex(h).len() ==> !('a' <= #[trigger] ascii_norm_hex(h)[i] <= 'z'),
{
    lemma_upper_ascii(h);
    let u = ascii_upper(h);
    let n = ascii_norm_hex(h);
    if u.len() == 4 || u.len() == 5 {
        lemma_doubled(u.skip(1));
        let d = doubled(u.skip(1));
        assert forall|k: int| 0 <= k < d.len() implies d[k] == u.skip(1)[k / 2] by {
            let j = k / 2;
            if k == 2 * j {
                assert(d[2 * j] == u.skip(1)[j]);
            } else {
                assert(k == 2 * j + 1);
                assert(d[2 * j + 1] == u.skip(1)[j]);
            }
        }
        assert forall|i: int| 0 <= i < n.len() implies is_ascii_char(#[trigger] n[i]) && !('a' <= n[i] <= 'z') by {
            if i > 0 {
                assert(n[i] == d[i - 1]);
                assert(u.skip(1)[(i - 1) / 2] == u[(i - 1) / 2 + 1]);
            }
        }
    } else {
        assert forall|i: int| 0 <= i < n.len() implies is_ascii_char(#[trigger] n[i]) && !('a' <= n[i] <= 'z') by {
            assert(n[i] == u[i]);
        }
    }
    let u2 = ascii_upper(n);
    assert(u2 =~= n) by {
        assert forall|i: int| 0 <= i < n.len() implies u2[i] == n[i] by {
            assert(!('a' <= n[i] <= 'z'));
        }
    }
    assert(n.len() != 4 && n.len() != 5);
}

/// A valid hex text gives an alpha below 100 exactly when it has an alpha
/// pair (eight digits after `#` once normalised) and that pair is not `FF`.
pub proof fn law_alpha_below_full(h: Seq<char>)
    requires
        valid_hex_spec(h),
    ensures
        hex_channels(h).3 != 100 <==> ({
            let n = norm_hex_spec(h);
            n.len() == 9 && hex_pair(n[7], n[8]) != 255
        }),
{
    let u = unicode_upper(h);
    let n = norm_hex_spec(h);
    if n.len() == 9 {
        if byte_len(u) == 4 || byte_len(u) == 5 {
            lemma_doubled(u.skip(1));
            assert(n[7] == doubled(u.skip(1))[6]);
            assert(n[8] == doubled(u.skip(1))[7]);
            assert(doubled(u.skip(1))[6int] == u.skip(1)[3]);
            assert(doubled(u.skip(1))[7int] == u.skip(1)[3]);
            assert(u.skip(1)[3] == u[4]);
            assert(is_hex_digit(u[4]));
        } else {
            assert(is_hex_digit(u[7]));
            assert(is_hex_digit(u[8]));
        }
        assert(is_hex_digit(n[7]) && is_hex_digit(n[8]));
        let p = hex_pair(n[7], n[8]);
        assert(0 <= hex_value(n[7]) <= 15 && 0 <= hex_value(n[8]) <= 15);
        assert(0 <= p <= 255);
        assert(p * 100 / 255 == 100 <==> p == 255) by (nonlinear_arith)
            requires
                0 <= p <= 255,
        ;
    }
}

/// `Color::norm_hex` on the given characters: upper-case, and `#RGB`/`#RGBA`
/// expanded to `#RRGGBB`/`#RRGGBBAA` (decided on the UTF-8 length).
pub open spec fn norm_hex_spec(h: Seq<char>) -> Seq<char> {
    let u = unicode_upper(h);
    if byte_len(u) == 4 || byte_len(u) == 5 {
        seq!['#'] + doubled(u.skip(1))
    } else {
        u
    }
}

/// `Color::is_valid_hex` on the given characters.
pub open spec fn valid_hex_spec(h: Seq<char>) -> bool {
    let u = unicode_upper(h);
    &&& starts_with(u, seq!['#'])
    &&& forall|i: int| 1 <= i < u.len() ==> is_hex_digit(#[trigger] u[i])
    &&& (byte_len(u) == 4 || byte_len(u) == 5 || byte_len(u) == 7 || byte_len(u) == 9)
}

pub open spec fn hex_pair(a: char, b: char) -> int {
    16 * hex_value(a) + hex_value(b)
}

/// RGB channels and alpha (0-100) read from a valid hex string.
pub open spec fn hex_channels(h: Seq<char>) -> (i16, i16, i16, i16) {
    let n = norm_hex_spec(h);
    (
        hex_pair(n[1], n[2]) as i16,
        hex_pair(n[3], n[4]) as i16,
        hex_pair(n[5], n[6]) as i16,
        if n.len() == 9 {
            (hex_pair(n[7], n[8]) * 100 / 255) as i16
        } else {
            100
        },
    )
}

proof fn lemma_valid_hex_shape(h: Seq<char>)
    requires
        valid_hex_spec(h),
    ensures
        norm_hex_spec(h).len() == 7 || norm_hex_spec(h).len() == 9,
        forall|i: int| 1 <= i < norm_hex_spec(h).len() ==> is_hex_digit(#[trigger] norm_hex_spec(h)[i]),
        norm_hex_spec(h)[0] == '#',
{
    let u = unicode_upper(h);
    assert(u.take(1)[0] == '#');
    assert(all_ascii(u)) by {
        assert forall|i: int| 0 <= i < u.len() implies is_ascii_char(#[trigger] u[i]) by {
            if i > 0 {
                assert(is_hex_digit(u[i]));
            } else {
                assert(u[0] == u.take(1)[0]);
            }
        }
    }
    lemma_byte_len_ascii(u);
    if u.len() == 4 || u.len() == 5 {
        let t = u.skip(1);
        lemma_doubled(t);
        let n = seq!['#'] + doubled(t);
        assert forall|i: int| 1 <= i < n.len() implies is_hex_digit(#[trigger] n[i]) by {
            let j = (i - 1) / 2;
            assert(n[i] == doubled(t)[i - 1]);
            if (i - 1) % 2 == 0 {
                assert(doubled(t)[2 * j] == t[j]);
            } else {
                assert(doubled(t)[2 * j + 1] == t[j]);
            }
            assert(t[j] == u[j + 1]);
        }
    } else {
        assert(u[0] == u.take(1)[0]);
    }
}

fn hex_pair_exec(a: char, b: char) -> (r: i16)
    requires
        is_hex_digit(a),
        is_hex_digit(b),
    ensures
        r == hex_pair(a, b),
        0 <= r <= 255,
{
    (16 * hex_digit_value(a) as i16) + hex_digit_value(b) as i16
}

impl Default for Color {
    fn default() -> (r: Self)
        ensures
            r.alpha == 100 && r.red == 0 && r.green == 0 && r.blue == 0 && r.hue == 0
                && r.saturation == 0 && r.lightness == 0 && r.value == 0,
            r.hex@ == seq!['#', '0', '0', '0'],
    {
        let mut v = Vec::new();
        v.push('#');
        v.push('0');
        v.push('0');
        v.push('0');
        let hex = string_of(&v);
        assert(v@ =~= seq!['#', '0', '0', '0']);
        Color {
            alpha: 100,
            red: 0,
            green: 0,
            blue: 0,
            hue: 0,
            saturation: 0,
            lightness: 0,
            value: 0,
            hex,
        }
    }
}

impl Color {
    /// Checks if a hex string is valid.
    pub fn is_valid_hex(hex: &str) -> (r: bool)
        ensures
            r == valid_hex_spec(hex@),
    {
        let u = chars_of(to_upper(hex).as_str());
        if u.len() == 0 || u[0] != '#' {
            proof {
                if u@.len() > 0 {
                    assert(u@.take(1)[0] == u@[0]);
                }
            }
            return false;
        }
        assert(u@.take(1) =~= seq!['#']);
        let mut i: usize = 1;
        while i < u.len()
            invariant
                1 <= i <= u.len(),
                u@ == unicode_upper(hex@),
                forall|j: int| 1 <= j < i ==> is_hex_digit(#[trigger] u@[j]),
            decreases u.len() - i,
        {
            if !is_ascii_hexdigit(u[i]) {
                assert(u@ == unicode_upper(hex@));
                assert(!is_hex_digit(unicode_upper(hex@)[i as int]));
                return false;
            }
            i += 1;
        }
        let n = byte_length_capped(&u, 10);
        n == 4 || n == 5 || n == 7 || n == 9
    }

    /// Normalizes a hex string to the full form (#RRGGBB or #RRGGBBAA).
    pub fn norm_hex(hex: &str) -> (r: String)
        ensures
            r@ == norm_hex_spec(hex@),
            all_ascii(hex@) ==> r@ == ascii_norm_hex(hex@),
    {
        let u = chars_of(to_upper(hex).as_str());
        proof {
            if all_ascii(hex@) {
                lemma_upper_ascii(hex@);
                lemma_byte_len_ascii(u@);
            }
        }
        let n = byte_length_capped(&u, 10);
        if n == 4 || n == 5 {
            let mut v: Vec<char> = Vec::new();
            v.push('#');
            let mut i: usize = 1;
            let ghost t = u@.skip(1);
            assert(u@.len() >= 1) by {
                if u@.len() == 0 {
                    assert(byte_len(u@) == 0);
                }
            }
            while i < u.len()
                invariant
                    1 <= i <= u.len(),
                    t == u@.skip(1),
                    v@ == seq!['#'] + doubled(t.take(i - 1)),
                decreases u.len() - i,
            {
                assert(t.take(i as int).drop_last() == t.take(i - 1));
                v.push(u[i]);
                v.push(u[i]);
                i += 1;
                assert(v@ =~= seq!['#'] + doubled(t.take(i - 1)));
            }
            assert(t.take(i - 1) == t);
            string_of(&v)
        } else {
            string_of(&u)
        }
    }

    /// Returns true if the color has an alpha component less than 100.
    pub fn has_alpha(&self) -> (r: bool)
        ensures
            r == (self.alpha != 100),
    {
        self.alpha != 100
    }

    /// Returns the alpha component as a two-digit hexadecimal string.
    pub fn get_alpha(&self) -> (r: String)
        ensures
            r@ == hex2(clamp(ceil_div(self.alpha * 255, 100), 0, 255) as nat),
    {
        let n: i32 = self.alpha as i32 * 255 + 99;
        let q: i32 = if n >= 0 {
            n / 100
        } else {
            0 - ((0 - n + 99) / 100)
        };
        assert(q == n / 100);
        let b: u32 = if q < 0 {
            0
        } else if q > 255 {
            255
        } else {
            q as u32
        };
        string_of(&fmt_hex2(b))
    }

    /// Returns the hex string without the alpha component.
    pub fn to_alphaless_hex(&self) -> (r: String)
        ensures
            r@ == alphaless_hex(*self),
    {
        if self.has_alpha() {
            let mut v: Vec<char> = Vec::new();
            v.push('#');
            append_chars(&mut v, &fmt_i16_hex2(self.red));
            append_chars(&mut v, &fmt_i16_hex2(self.green));
            append_chars(&mut v, &fmt_i16_hex2(self.blue));
            assert(v@ =~= seq!['#'] + i16_hex2(self.red) + i16_hex2(self.green) + i16_hex2(self.blue));
            string_of(&v)
        } else {
            Self::norm_hex(self.hex.as_str())
        }
    }

    /// Sets the hex string from the RGB channels and alpha.
    pub fn update_hex(&mut self)
        ensures
            *final(self) == old(self).rehexed(final(self).hex),
            final(self).wf(),
    {
        let r = fmt_i16_hex2(self.red);
        let g = fmt_i16_hex2(self.green);
        let b = fmt_i16_hex2(self.blue);
        let xx = is_xx_exec(&r) && is_xx_exec(&g) && is_xx_exec(&b);
        let mut v: Vec<char> = Vec::new();
        v.push('#');
        if self.alpha == 100 {
            if xx {
                v.push(r[0]);
                v.push(g[0]);
                v.push(b[0]);
            } else {
                append_chars(&mut v, &r);
                append_chars(&mut v, &g);
                append_chars(&mut v, &b);
            }
        } else {
            let a = fmt_i16_hex2(alpha_byte_exec(self.alpha));
            if xx && is_xx_exec(&a) {
                v.push(r[0]);
                v.push(g[0]);
                v.push(b[0]);
                v.push(a[0]);
            } else {
                append_chars(&mut v, &r);
                append_chars(&mut v, &g);
                append_chars(&mut v, &b);
                append_chars(&mut v, &a);
            }
        }
        assert(v@ =~= hex_of(self.red, self.green, self.blue, self.alpha));
        self.hex = string_of(&v);
    }
}

/// `Color::to_alphaless_hex`: `#RRGGBB` from the channels when the color has
/// alpha, else the normalized hex string.
pub open spec fn alphaless_hex(c: Color) -> Seq<char> {
    if c.alpha != 100 {
        seq!['#'] + i16_hex2(c.red) + i16_hex2(c.green) + i16_hex2(c.blue)
    } else {
        norm_hex_spec(c.hex@)
    }
}


/// Rust's `/` on `i16` (truncating toward zero); the one overflowing case,
/// `i16::MIN / -1`, gives `i16::MIN` as the wrapping division does.
pub open spec fn trunc_div(a: i16, b: i16) -> i16 {
    if a == i16::MIN && b == -1 {
        i16::MIN
    } else {
        let q = (if a < 0 {
            -a
        } else {
            a as int
        }) / (if b < 0 {
            -b
        } else {
            b as int
        });
        (if (a < 0) != (b < 0) {
            -q
        } else {
            q
        }) as i16
    }
}

fn trunc_div_exec(a: i16, b: i16) -> (r: i16)
    requires
        b != 0,
    ensures
        r == trunc_div(a, b),
{
    if a == i16::MIN && b == -1 {
        i16::MIN
    } else {
        let aa: i32 = if a < 0 {
            0 - a as i32
        } else {
            a as i32
        };
        let bb: i32 = if b < 0 {
            0 - b as i32
        } else {
            b as i32
        };
        let q: i32 = aa / bb;
        assert(0 <= q <= aa) by (nonlinear_arith)
            requires
                q == aa / bb,
                aa >= 0,
                bb >= 1,
        ;
        if (a < 0) != (b < 0) {
            (0 - q) as i16
        } else {
            assert(aa == 32768 ==> bb >= 2);
            assert(q <= 32767) by (nonlinear_arith)
                requires
                    q == aa / bb,
                    0 <= aa <= 32768,
                    bb >= 1,
                    aa == 32768 ==> bb >= 2,
            ;
            q as i16
        }
    }
}

pub open spec fn is_op(o: Seq<char>, c: char) -> bool {
    o == seq![c]
}

pub open spec fn is_arith_op(o: Seq<char>) -> bool {
    is_op(o, '+') || is_op(o, '-') || is_op(o, '*') || is_op(o, '/')
}

/// Integer arithmetic of the four operators as a release build does it
/// (wrapping on overflow).
pub open spec fn arith(o: Seq<char>, a: i16, b: i16) -> i16 {
    if is_op(o, '+') {
        vstd::wrapping::i16_specs::wrapping_add(a, b)
    } else if is_op(o, '-') {
        vstd::wrapping::i16_specs::wrapping_sub(a, b)
    } else if is_op(o, '*') {
        vstd::wrapping::i16_specs::wrapping_mul(a, b)
    } else {
        trunc_div(a, b)
    }
}

/// The field of a color that a component of the same kind reads.
pub open spec fn field_of(c: Color, k: Component) -> i16 {
    match k {
        Component::Hue(_) => c.hue,
        Component::HsvSaturation(_) => c.saturation,
        Component::HslSaturation(_) => c.saturation,
        Component::Value(_) => c.value,
        Component::Red(_) => c.red,
        Component::Green(_) => c.green,
        Component::Blue(_) => c.blue,
        Component::Lightness(_) => c.lightness,
        Component::Alpha(_) => c.alpha,
        Component::Hex(_) => 0,
    }
}

/// Inputs on which applying the operation panics: arithmetic on a hex
/// component, appending hex to a numeric one, or dividing by zero.
pub open spec fn apply_panics(o: Operation) -> bool {
    ||| (o.0 is Hex && is_arith_op(o.1@))
    ||| (!(o.0 is Hex) && is_op(o.1@, '.'))
    ||| (is_op(o.1@, '/') && comp_value(o.0) == 0)
}

/// What applying an operation to a color produces, as a spec value.
pub enum CompView {
    /// A numeric component (before validation).
    Num(Component),
    /// A hex string the color is to be rebuilt from.
    HexText(Seq<char>),
}

pub open spec fn hex_text(k: Component) -> Seq<char> {
    match k {
        Component::Hex(h) => h@,
        _ => Seq::empty(),
    }
}

/// `Operation::apply`: `None` when the operator is not one of `+ - = * / .`.
pub open spec fn applied(c: Color, o: Operation) -> Option<CompView> {
    if is_op(o.1@, '=') {
        if o.0 is Hex {
            Some(CompView::HexText(hex_text(o.0)))
        } else {
            Some(CompView::Num(o.0))
        }
    } else if is_op(o.1@, '.') {
        Some(CompView::HexText(alphaless_hex(c) + hex_text(o.0)))
    } else if is_arith_op(o.1@) {
        Some(CompView::Num(with_value(o.0, arith(o.1@, field_of(c, o.0), comp_value(o.0)))))
    } else {
        None
    }
}

pub open spec fn same_rgba(a: Color, b: Color) -> bool {
    a.red == b.red && a.green == b.green && a.blue == b.blue && a.alpha == b.alpha
}

/// One change taking color `c` to `d`. What the conversions of the color
/// space compute is left open; everything set directly is pinned.
pub open spec fn step(c: Color, v: CompView, d: Color) -> bool {
    &&& d.wf()
    &&& match v {
        CompView::HexText(h) => valid_hex_spec(h) && hex_channels(h) == (
            d.red,
            d.green,
            d.blue,
            d.alpha,
        ),
        CompView::Num(k) => match validated(k) {
            Component::Hue(h) => d.hue == h && d.saturation == c.saturation && d.value == c.value
                && d.alpha == c.alpha,
            Component::HsvSaturation(x) => d.saturation == x && d.hue == c.hue && d.value
                == c.value && d.alpha == c.alpha,
            Component::Value(x) => d.value == x && d.hue == c.hue && d.saturation == c.saturation
                && d.alpha == c.alpha,
            Component::HslSaturation(_) => d.hue == c.hue && d.lightness == c.lightness && d.alpha
                == c.alpha,
            Component::Lightness(x) => d.lightness == x && d.hue == c.hue && d.alpha == c.alpha,
            Component::Red(x) => d.red == x && d.green == c.green && d.blue == c.blue && d.alpha
                == c.alpha,
            Component::Green(x) => d.green == x && d.red == c.red && d.blue == c.blue && d.alpha
                == c.alpha,
            Component::Blue(x) => d.blue == x && d.red == c.red && d.green == c.green && d.alpha
                == c.alpha,
            Component::Alpha(x) => d.alpha == x && d.red == c.red && d.green == c.green && d.blue
                == c.blue && d.hue == c.hue && d.saturation == c.saturation && d.value == c.value
                && d.lightness == c.lightness,
            Component::Hex(_) => false,
        },
    }
}

/// The change fails on `c`: unknown operator, or an invalid hex string.
pub open spec fn step_fails(c: Color, o: Operation) -> bool {
    match applied(c, o) {
        None => true,
        Some(CompView::HexText(h)) => !valid_hex_spec(h),
        Some(CompView::Num(_)) => false,
    }
}

pub open spec fn step_ok(c: Color, o: Operation, d: Color) -> bool {
    match applied(c, o) {
        Some(v) => step(c, v, d),
        None => false,
    }
}

/// `ms` lists the colors passed through when applying `ops` to `c`.
pub open spec fn chain(c: Color, ops: Seq<Operation>, ms: Seq<Color>) -> bool {
    &&& ms.len() == ops.len() + 1
    &&& ms[0] == c
    &&& forall|i: int| 0 <= i < ops.len() ==> step_ok(ms[i], #[trigger] ops[i], ms[i + 1])
}

/// `d` is reached from `c` by applying `ops` in order.
pub open spec fn reach(c: Color, ops: Seq<Operation>, d: Color) -> bool {
    exists|ms: Seq<Color>| #[trigger] chain(c, ops, ms) && ms.last() == d
}

proof fn lemma_chain_step(c: Color, ops: Seq<Operation>, i: int, ms: Seq<Color>, d: Color)
    requires
        0 <= i < ops.len(),
        chain(c, ops.take(i), ms),
        step_ok(ms.last(), ops[i], d),
    ensures
        chain(c, ops.take(i + 1), ms.push(d)),
{
    let t = ops.take(i + 1);
    let ms2 = ms.push(d);
    assert forall|j: int| 0 <= j < t.len() implies step_ok(ms2[j], #[trigger] t[j], ms2[j + 1]) by {
        if j < i {
            assert(t[j] == ops.take(i)[j]);
        }
    }
}

/// `Color::update` turns HSV saturation into HSL saturation when the list
/// also changes lightness.
pub open spec fn has_lightness(ops: Seq<Operation>) -> bool {
    exists|i: int| 0 <= i < ops.len() && (#[trigger] ops[i]).0 is Lightness
}

pub open spec fn hsl_saturation(o: Operation) -> Operation {
    match o.0 {
        Component::HsvSaturation(s) => Operation(Component::HslSaturation(s), o.1),
        _ => o,
    }
}

pub open spec fn normalized(ops: Seq<Operation>) -> Seq<Operation> {
    if has_lightness(ops) {
        ops.map_values(|o: Operation| hsl_saturation(o))
    } else {
        ops
    }
}

pub open spec fn no_panics(ops: Seq<Operation>) -> bool {
    forall|i: int| 0 <= i < ops.len() ==> !apply_panics(#[trigger] ops[i])
}

impl Operation {
    /// Applies the operation to the given color and returns the resulting
    /// component.
    pub fn apply(self, color: &Color) -> (r: Result<Component, Error>)
        requires
            !apply_panics(self),
        ensures
            match applied(*color, self) {
                None => r == Err::<Component, Error>(Error::Change),
                Some(CompView::Num(k)) => r == Ok::<Component, Error>(k),
                Some(CompView::HexText(h)) => r matches Ok(Component::Hex(x)) && x@ == h,
            },
    {
        let Operation(comp, op) = self;
        let v = chars_of(op.as_str());
        if v.len() != 1 {
            proof {
                if v@.len() != 1 {
                    assert(!is_op(op@, '='));
                    assert(!is_op(op@, '.'));
                    assert(!is_arith_op(op@));
                }
            }
            return Err(Error::Change);
        }
        let o = v[0];
        assert(v@ =~= seq![o]);
        if o == '=' {
            return Ok(comp);
        }
        if o == '.' {
            match comp {
                Component::Hex(val) => {
                    let mut h = chars_of(color.to_alphaless_hex().as_str());
                    let vv = chars_of(val.as_str());
                    append_chars(&mut h, &vv);
                    return Ok(Component::Hex(string_of(&h)));
                },
                _ => {
                    assert(false);
                    return Err(Error::Change);
                },
            }
        }
        if !(o == '+' || o == '-' || o == '*' || o == '/') {
            return Err(Error::Change);
        }
        let field = match comp {
            Component::Hue(_) => color.hue,
            Component::HsvSaturation(_) => color.saturation,
            Component::HslSaturation(_) => color.saturation,
            Component::Value(_) => color.value,
            Component::Red(_) => color.red,
            Component::Green(_) => color.green,
            Component::Blue(_) => color.blue,
            Component::Lightness(_) => color.lightness,
            Component::Alpha(_) => color.alpha,
            Component::Hex(_) => {
                assert(false);
                0
            },
        };
        let x = match comp {
            Component::Hue(x) => x,
            Component::HsvSaturation(x) => x,
            Component::HslSaturation(x) => x,
            Component::Value(x) => x,
            Component::Red(x) => x,
            Component::Green(x) => x,
            Component::Blue(x) => x,
            Component::Lightness(x) => x,
            Component::Alpha(x) => x,
            Component::Hex(_) => 0,
        };
        let n = if o == '+' {
            field.wrapping_add(x)
        } else if o == '-' {
            field.wrapping_sub(x)
        } else if o == '*' {
            field.wrapping_mul(x)
        } else {
            trunc_div_exec(field, x)
        };
        let r = match comp {
            Component::Hue(_) => Component::Hue(n),
            Component::HsvSaturation(_) => Component::HsvSaturation(n),
            Component::HslSaturation(_) => Component::HslSaturation(n),
            Component::Value(_) => Component::Value(n),
            Component::Red(_) => Component::Red(n),
            Component::Green(_) => Component::Green(n),
            Component::Blue(_) => Component::Blue(n),
            Component::Lightness(_) => Component::Lightness(n),
            Component::Alpha(_) => Component::Alpha(n),
            Component::Hex(h) => Component::Hex(h),
        };
        Ok(r)
    }
}

impl Color {
    fn update_hsvl<S: ColorSpace>(&mut self, space: &S)
        ensures
            same_rgba(*final(self), *old(self)),
            final(self).hex == old(self).hex,
            call_ensures(
                S::hsvl_from_rgb,
                (space, old(self).red, old(self).green, old(self).blue),
                (final(self).hue, final(self).saturation, final(self).value, final(self).lightness),
            ),
    {
        let (h, s, v, l) = space.hsvl_from_rgb(self.red, self.green, self.blue);
        self.hue = h;
        self.saturation = s;
        self.value = v;
        self.lightness = l;
    }

    fn update_rgb<S: ColorSpace>(&mut self, space: &S)
        ensures
            final(self).alpha == old(self).alpha,
            final(self).hue == old(self).hue,
            final(self).saturation == old(self).saturation,
            final(self).value == old(self).value,
            final(self).lightness == old(self).lightness,
            final(self).hex == old(self).hex,
            call_ensures(
                S::rgb_from_hsv,
                (space, old(self).hue, old(self).saturation, old(self).value),
                (final(self).red, final(self).green, final(self).blue),
            ),
    {
        let (r, g, b) = space.rgb_from_hsv(self.hue, self.saturation, self.value);
        self.red = r;
        self.green = g;
        self.blue = b;
    }

    fn update_lightness<S: ColorSpace>(&mut self, space: &S)
        ensures
            *final(self) == (Color { lightness: final(self).lightness, ..*old(self) }),
            call_ensures(S::lightness_from_hsv, (space, old(self).hue, old(self).saturation, old(self).value), final(self).lightness),
    {
        self.lightness = space.lightness_from_hsv(self.hue, self.saturation, self.value);
    }

    fn update_value<S: ColorSpace>(&mut self, space: &S)
        ensures
            *final(self) == (Color {
                saturation: final(self).saturation,
                value: final(self).value,
                ..*old(self)
            }),
            call_ensures(
                S::sv_from_hsl,
                (space, old(self).hue, old(self).saturation, old(self).lightness),
                (final(self).saturation, final(self).value),
            ),
    {
        let (s, v) = space.sv_from_hsl(self.hue, self.saturation, self.lightness);
        self.saturation = s;
        self.value = v;
    }

    pub fn update_saturation<S: ColorSpace>(&mut self, space: &S)
        ensures
            *final(self) == (Color { saturation: final(self).saturation, ..*old(self) }),
            call_ensures(S::saturation_from_sv, (space, old(self).saturation, old(self).value), final(self).saturation),
    {
        self.saturation = space.saturation_from_sv(self.saturation, self.value);
    }

    /// Creates a Color from a hex string.
    pub fn from_hex<S: ColorSpace>(hex: &str, space: &S) -> (r: Result<Self, Error>)
        ensures
            r is Ok <==> valid_hex_spec(hex@),
            r matches Ok(c) ==> c.wf() && hex_channels(hex@) == (c.red, c.green, c.blue, c.alpha),
            r matches Err(e) ==> e matches Error::Hex(h) && h@ == hex@,
    {
        if !Self::is_valid_hex(hex) {
            return Err(Error::Hex(hex.to_owned()));
        }
        proof {
            lemma_valid_hex_shape(hex@);
        }
        let n = chars_of(Self::norm_hex(hex).as_str());
        let red = hex_pair_exec(n[1], n[2]);
        let green = hex_pair_exec(n[3], n[4]);
        let blue = hex_pair_exec(n[5], n[6]);
        let alpha: i16 = if n.len() == 9 {
            let a255 = hex_pair_exec(n[7], n[8]);
            a255 * 100 / 255
        } else {
            100
        };
        let mut color = Color { alpha, red, green, blue, ..Default::default() };
        color.update_hsvl(space);
        color.update_hex();
        Ok(color)
    }

    /// Applies a list of operations to the color. When the list changes
    /// lightness, HSV saturation changes are read as HSL saturation.
    pub fn update<S: ColorSpace>(&mut self, changes: Operations, space: &S) -> (r: Result<(), Error>)
        requires
            no_panics(changes@),
        ensures
            r is Ok ==> reach(*old(self), normalized(changes@), *final(self)),
            r is Err ==> exists|i: int|
                0 <= i < changes@.len() && reach(*old(self), normalized(changes@).take(i), *final(self))
                    && step_fails(*final(self), #[trigger] normalized(changes@)[i]),
    {
        let ghost c0 = *self;
        let mut any_lightness = false;
        let mut k: usize = 0;
        while k < changes.len()
            invariant
                k <= changes.len(),
                any_lightness == exists|j: int| 0 <= j < k && (#[trigger] changes@[j]).0 is Lightness,
            decreases changes.len() - k,
        {
            if let Component::Lightness(_) = changes[k].0 {
                any_lightness = true;
            }
            k += 1;
        }
        let mut ops: Vec<Operation> = Vec::new();
        for j in 0..changes.len()
            invariant
                any_lightness == has_lightness(changes@),
                ops@ == normalized(changes@).take(j as int),
        {
            let c = changes[j].clone();
            let c2 = if any_lightness {
                match c.0 {
                    Component::HsvSaturation(s) => Operation(Component::HslSaturation(s), c.1),
                    _ => c,
                }
            } else {
                c
            };
            ops.push(c2);
            assert(ops@ =~= normalized(changes@).take(j + 1));
        }
        assert(ops@ =~= normalized(changes@));
        assert(no_panics(ops@)) by {
            assert forall|i: int| 0 <= i < ops@.len() implies !apply_panics(#[trigger] ops@[i]) by {
                assert(!apply_panics(changes@[i]));
            }
        }
        let n = ops.len();
        let ghost mut ms: Seq<Color> = seq![c0];
        for i in 0..n
            invariant
                n == ops@.len(),
                n == changes@.len(),
                ops@ == normalized(changes@),
                no_panics(ops@),
                chain(c0, ops@.take(i as int), ms),
                ms.last() == *self,
                c0 == *old(self),
        {
            let ghost m = *self;
            let change = ops[i].clone();
            assert(!apply_panics(ops@[i as int]));
            let mut setting = match change.apply(self) {
                Ok(s) => s,
                Err(e) => {
                    assert(step_fails(*self, normalized(changes@)[i as int]));
                    assert(chain(c0, normalized(changes@).take(i as int), ms));
                    assert(reach(c0, normalized(changes@).take(i as int), *self));
                    return Err(e);
                },
            };
            let ghost applied_setting = setting;
            setting.validate_change();
            match setting {
                Component::Hue(h) => {
                    self.hue = h;
                    self.update_lightness(space);
                    self.update_rgb(space);
                    self.update_hex();
                },
                Component::HsvSaturation(s) => {
                    self.saturation = s;
                    self.update_lightness(space);
                    self.update_rgb(space);
                    self.update_hex();
                },
                Component::Value(v) => {
                    self.value = v;
                    self.update_lightness(space);
                    self.update_rgb(space);
                    self.update_hex();
                },
                Component::HslSaturation(s) => {
                    self.saturation = s;
                    self.update_value(space);
                    self.update_rgb(space);
                    self.update_hex();
                },
                Component::Lightness(l) => {
                    self.lightness = l;
                    self.update_saturation(space);
                    self.update_value(space);
                    self.update_rgb(space);
                    self.update_hex();
                },
                Component::Red(x) => {
                    self.red = x;
                    self.update_hsvl(space);
                    self.update_hex();
                },
                Component::Green(x) => {
                    self.green = x;
                    self.update_hsvl(space);
                    self.update_hex();
                },
                Component::Blue(x) => {
                    self.blue = x;
                    self.update_hsvl(space);
                    self.update_hex();
                },
                Component::Alpha(a) => {
                    self.alpha = a;
                    self.update_hex();
                },
                Component::Hex(hex) => {
                    match Self::from_hex(hex.as_str(), space) {
                        Ok(c) => {
                            *self = c;
                        },
                        Err(e) => {
                            assert(applied_setting == setting);
                            assert(step_fails(*self, normalized(changes@)[i as int]));
                            assert(chain(c0, normalized(changes@).take(i as int), ms));
                            assert(reach(c0, normalized(changes@).take(i as int), *self));
                            return Err(e);
                        },
                    }
                },
            }
            proof {
                lemma_chain_step(c0, ops@, i as int, ms, *self);
                ms = ms.push(*self);
            }
        }
        assert(ops@.take(n as int) == ops@);
        assert(chain(c0, normalized(changes@), ms));
        Ok(())
    }
}


/// An operation seen as its component and operator text.
pub open spec fn op_view(o: Operation) -> (Component, Seq<char>) {
    (o.0, o.1@)
}

pub open spec fn ops_view(ops: Seq<Operation>) -> Seq<(Component, Seq<char>)> {
    ops.map_values(|o: Operation| op_view(o))
}

/// The inverse of one change: `+`/`-` and `*`/`/` swap, setting alpha or
/// appending hex alpha becomes `alpha = 100`, anything else is kept.
pub open spec fn inverse_one(v: (Component, Seq<char>)) -> (Component, Seq<char>) {
    if is_op(v.1, '+') {
        (v.0, seq!['-'])
    } else if is_op(v.1, '-') {
        (v.0, seq!['+'])
    } else if is_op(v.1, '/') {
        (v.0, seq!['*'])
    } else if is_op(v.1, '*') {
        (v.0, seq!['/'])
    } else if (v.0 is Alpha && is_op(v.1, '=')) || (v.0 is Hex && is_op(v.1, '.')) {
        (Component::Alpha(100), seq!['='])
    } else {
        v
    }
}

/// A change with its alpha changes reset: setting alpha or appending a hex
/// alpha becomes `alpha = 100`; any other change is kept.
pub open spec fn reset_one(v: (Component, Seq<char>)) -> (Component, Seq<char>) {
    if (v.0 is Alpha && is_op(v.1, '=')) || (v.0 is Hex && is_op(v.1, '.')) {
        (Component::Alpha(100), seq!['='])
    } else {
        v
    }
}

pub open spec fn reset_spec(s: Seq<(Component, Seq<char>)>) -> Seq<(Component, Seq<char>)> {
    s.map_values(|v: (Component, Seq<char>)| reset_one(v))
}

/// The identity form of one change (see `Operation::identity`): the
/// change that leaves a color as it is, but for alpha changes, which reset
/// alpha to 100.
pub open spec fn identity_one(v: (Component, Seq<char>)) -> (Component, Seq<char>) {
    if (v.0 is Alpha && is_op(v.1, '=')) || (v.0 is Hex && is_op(v.1, '.')) {
        (Component::Alpha(100), seq!['='])
    } else if v.0 is Hex {
        (Component::Red(0), seq!['+'])
    } else if is_op(v.1, '-') {
        (with_value(v.0, 0), seq!['-'])
    } else if is_op(v.1, '*') {
        (with_value(v.0, 1), seq!['*'])
    } else if is_op(v.1, '/') {
        (with_value(v.0, 1), seq!['/'])
    } else {
        (with_value(v.0, 0), seq!['+'])
    }
}

/// `Operation::inverse`: each change inverted, in reverse order.
pub open spec fn inverse_spec(s: Seq<(Component, Seq<char>)>) -> Seq<(Component, Seq<char>)> {
    Seq::new(s.len(), |i: int| inverse_one(s[s.len() - 1 - i]))
}

pub open spec fn identity_spec(s: Seq<(Component, Seq<char>)>) -> Seq<(Component, Seq<char>)> {
    s.map_values(|v: (Component, Seq<char>)| identity_one(v))
}

fn op_char(o: &String) -> (r: Option<char>)
    ensures
        r matches Some(c) ==> o@ == seq![c],
        r is None ==> o@.len() != 1,
{
    let v = chars_of(o.as_str());
    if v.len() == 1 {
        assert(v@ =~= seq![v@[0]]);
        Some(v[0])
    } else {
        None
    }
}

fn inverse_op(c: &Operation) -> (r: Operation)
    ensures
        op_view(r) == inverse_one(op_view(*c)),
{
    let comp = c.0.clone();
    let oc = op_char(&c.1);
    proof {
        match oc {
            Some(x) => {
                lemma_single_ne(x, '+');
                lemma_single_ne(x, '-');
                lemma_single_ne(x, '*');
                lemma_single_ne(x, '/');
            },
            None => {},
        }
    }
    if oc == Some('+') {
        Operation(comp, op_string('-'))
    } else if oc == Some('-') {
        Operation(comp, op_string('+'))
    } else if oc == Some('/') {
        Operation(comp, op_string('*'))
    } else if oc == Some('*') {
        Operation(comp, op_string('/'))
    } else {
        alpha_reset(c.clone())
    }
}

proof fn lemma_single_ne(a: char, b: char)
    ensures
        a != b ==> seq![a] != seq![b],
{
    if a != b {
        assert(seq![a][0] != seq![b][0]);
    }
}

proof fn lemma_inverse_one_twice(v: (Component, Seq<char>))
    ensures
        inverse_one(inverse_one(v)) == reset_one(v),
{
    lemma_single_ne('+', '-');
    lemma_single_ne('+', '*');
    lemma_single_ne('+', '/');
    lemma_single_ne('+', '=');
    lemma_single_ne('+', '.');
    lemma_single_ne('-', '*');
    lemma_single_ne('-', '/');
    lemma_single_ne('-', '=');
    lemma_single_ne('-', '.');
    lemma_single_ne('*', '/');
    lemma_single_ne('*', '=');
    lemma_single_ne('*', '.');
    lemma_single_ne('/', '=');
    lemma_single_ne('/', '.');
    lemma_single_ne('=', '.');
}

impl Operation {
    /// Returns the inverse of a list of operations.
    pub fn inverse(changes: &Operations) -> (r: Operations)
        ensures
            ops_view(r@) == inverse_spec(ops_view(changes@)),
    {
        let mut r: Vec<Operation> = Vec::new();
        let n = changes.len();
        let mut i = n;
        while i > 0
            invariant
                i <= n == changes@.len(),
                r@.len() == n - i,
                forall|j: int|
                    0 <= j < n - i ==> op_view(#[trigger] r@[j]) == inverse_one(
                        op_view(changes@[n - 1 - j]),
                    ),
            decreases i,
        {
            i -= 1;
            let o = inverse_op(&changes[i]);
            r.push(o);
        }
        assert(ops_view(r@) =~= inverse_spec(ops_view(changes@)));
        r
    }

    /// Returns the inverses of a list of operation lists.
    pub fn inverse_ops(changes: &[&Operations]) -> (r: Vec<Operations>)
        ensures
            r@.len() == changes@.len(),
            forall|i: int|
                0 <= i < r@.len() ==> ops_view((#[trigger] r@[i])@) == inverse_spec(
                    ops_view(changes@[i]@),
                ),
    {
        let mut r: Vec<Operations> = Vec::new();
        for i in 0..changes.len()
            invariant
                r@.len() == i,
                forall|j: int|
                    0 <= j < i ==> ops_view((#[trigger] r@[j])@) == inverse_spec(
                        ops_view(changes@[j]@),
                    ),
        {
            r.push(Self::inverse(changes[i]));
        }
        r
    }

    /// `identity` applied to each operation of the list.
    pub fn identity_op(changes: &Operations) -> (r: Operations)
        ensures
            ops_view(r@) == identity_spec(ops_view(changes@)),
    {
        let mut r: Vec<Operation> = Vec::new();
        for i in 0..changes.len()
            invariant
                r@.len() == i,
                forall|j: int|
                    0 <= j < i ==> op_view(#[trigger] r@[j]) == identity_one(op_view(changes@[j])),
        {
            let o = Self::identity(changes[i].clone());
            r.push(o);
        }
        assert(ops_view(r@) =~= identity_spec(ops_view(changes@)));
        r
    }

    /// `identity_op` applied to each list.
    pub fn identity_ops(changes: &[&Operations]) -> (r: Vec<Operations>)
        ensures
            r@.len() == changes@.len(),
            forall|i: int|
                0 <= i < r@.len() ==> ops_view((#[trigger] r@[i])@) == identity_spec(
                    ops_view(changes@[i]@),
                ),
    {
        let mut r: Vec<Operations> = Vec::new();
        for i in 0..changes.len()
            invariant
                r@.len() == i,
                forall|j: int|
                    0 <= j < i ==> ops_view((#[trigger] r@[j])@) == identity_spec(
                        ops_view(changes@[j]@),
                    ),
        {
            r.push(Self::identity_op(changes[i]));
        }
        r
    }
}

/// Inverting a list of changes twice gives every change back, except that
/// setting alpha or appending hex alpha becomes `alpha = 100`.
pub proof fn law_inverse_twice(s: Seq<(Component, Seq<char>)>)
    ensures
        inverse_spec(inverse_spec(s)) == reset_spec(s),
{
    assert forall|i: int| 0 <= i < s.len() implies #[trigger] inverse_spec(inverse_spec(s))[i]
        == reset_spec(s)[i] by {
        let v = s[i];
        let t = inverse_spec(s);
        assert(t.len() == s.len());
        assert(t[s.len() - 1 - i] == inverse_one(s[s.len() - 1 - (s.len() - 1 - i)]));
        assert(inverse_spec(t)[i] == inverse_one(t[t.len() - 1 - i]));
        lemma_inverse_one_twice(v);
    }
    assert(inverse_spec(inverse_spec(s)) =~= reset_spec(s));
}

/// The identity form of a change, applied to a color, gives the component it
/// changes the value the color already has (for any change other than one
/// to alpha, which the identity form resets).
pub proof fn law_identity_leaves_color(c: Color, v: (Component, Seq<char>))
    requires
        !((v.0 is Alpha && is_op(v.1, '=')) || (v.0 is Hex && is_op(v.1, '.'))),
    ensures
        ({
            let i = identity_one(v);
            is_arith_op(i.1) && !(i.0 is Hex) && arith(i.1, field_of(c, i.0), comp_value(i.0)) == field_of(c, i.0)
        }),
{
    lemma_single_ne('+', '-');
    lemma_single_ne('+', '*');
    lemma_single_ne('+', '/');
    lemma_single_ne('-', '*');
    lemma_single_ne('-', '/');
    lemma_single_ne('*', '/');
    let i = identity_one(v);
    let a = field_of(c, i.0);
    assert(vstd::wrapping::i16_specs::wrapping_add(a, 0) == a);
    assert(vstd::wrapping::i16_specs::wrapping_sub(a, 0) == a);
    assert(vstd::wrapping::i16_specs::wrapping_mul(a, 1) == a);
    if is_op(i.1, '/') {
        assert(trunc_div(a, 1) == a) by (nonlinear_arith);
    }
}

/// The identity form is idempotent.
pub proof fn law_identity_idempotent(s: Seq<(Component, Seq<char>)>)
    ensures
        identity_spec(identity_spec(s)) == identity_spec(s),
{
    assert forall|i: int| 0 <= i < s.len() implies #[trigger] identity_spec(identity_spec(s))[i]
        == identity_spec(s)[i] by {
        lemma_single_ne('=', '.');
        lemma_single_ne('+', '=');
        lemma_single_ne('-', '=');
        lemma_single_ne('*', '=');
        lemma_single_ne('/', '=');
        lemma_single_ne('+', '.');
        lemma_single_ne('+', '-');
        lemma_single_ne('+', '*');
        lemma_single_ne('+', '/');
        lemma_single_ne('-', '*');
        lemma_single_ne('-', '/');
        lemma_single_ne('*', '/');
    }
    assert(identity_spec(identity_spec(s)) =~= identity_spec(s));
}


/// Number of leading alphabetic characters.
pub open spec fn alpha_run(s: Seq<char>) -> nat
    decreases s.len(),
{
    if s.len() > 0 && unicode_alphabetic(s[0]) {
        1 + alpha_run(s.drop_first())
    } else {
        0
    }
}

proof fn lemma_alpha_run(s: Seq<char>, i: int)
    requires
        0 <= i <= s.len(),
        forall|j: int| 0 <= j < i ==> unicode_alphabetic(#[trigger] s[j]),
        i == s.len() || !unicode_alphabetic(s[i]),
    ensures
        alpha_run(s) == i,
    decreases i,
{
    if i > 0 {
        assert forall|j: int| 0 <= j < i - 1 implies unicode_alphabetic(#[trigger] s.drop_first()[j]) by {
            assert(s.drop_first()[j] == s[j + 1]);
        }
        if i < s.len() {
            assert(s.drop_first()[i - 1] == s[i]);
        }
        lemma_alpha_run(s.drop_first(), i - 1);
    }
}

pub open spec fn is_operator(c: char) -> bool {
    c == '+' || c == '-' || c == '=' || c == '*' || c == '/' || c == '.'
}

/// The component named by its first letter: `h`ue, `s` (HSV saturation),
/// `S` (HSL saturation), `v`alue, `l`ightness, `r`ed, `g`reen, `b`lue, `a`lpha.
pub open spec fn component_of(c: char, v: i16) -> Option<Component> {
    if c == 'h' {
        Some(Component::Hue(v))
    } else if c == 's' {
        Some(Component::HsvSaturation(v))
    } else if c == 'S' {
        Some(Component::HslSaturation(v))
    } else if c == 'v' {
        Some(Component::Value(v))
    } else if c == 'l' {
        Some(Component::Lightness(v))
    } else if c == 'r' {
        Some(Component::Red(v))
    } else if c == 'g' {
        Some(Component::Green(v))
    } else if c == 'b' {
        Some(Component::Blue(v))
    } else if c == 'a' {
        Some(Component::Alpha(v))
    } else {
        None
    }
}

/// How a text parses as an operation.
pub enum OpParse {
    /// `..XX`: append the text to the hex form.
    HexAppend(Seq<char>),
    /// A component with an operator.
    Change(Component, char),
    Fail(Error),
}

/// The text after the component letter and any further letters.
pub open spec fn op_rest(s: Seq<char>) -> Seq<char> {
    let t = trim_seq(s);
    let a = if t.len() > 0 {
        t.skip(1)
    } else {
        t
    };
    a.skip(alpha_run(a) as int)
}

/// `Operation::from_str`: component letter, more letters ignored, an
/// operator, then an `i16` (or, after `.`, any hex text).
pub open spec fn parse_op(s: Seq<char>) -> OpParse {
    let t = trim_seq(s);
    let rest = op_rest(s);
    if rest.len() == 0 || !is_operator(rest[0]) {
        OpParse::Fail(Error::Operator)
    } else if rest[0] == '.' {
        OpParse::HexAppend(rest.skip(1))
    } else {
        match int_text(rest.skip(1), true, i16::MIN as int, i16::MAX as int) {
            None => OpParse::Fail(Error::Change),
            Some(v) => match component_of(t[0], v as i16) {
                None => OpParse::Fail(Error::Component),
                Some(k) => OpParse::Change(k, rest[0]),
            },
        }
    }
}

impl Operation {
    /// Parses `h+10`, `s/2`, `r=2`, `a.80` and the like.
    pub fn from_str(s: &str) -> (r: Result<Self, Error>)
        ensures
            match parse_op(s@) {
                OpParse::HexAppend(h) => r matches Ok(o) && o.0 matches Component::Hex(x) && x@ == h
                    && o.1@ == seq!['.'],
                OpParse::Change(k, c) => r matches Ok(o) && o.0 == k && o.1@ == seq![c],
                OpParse::Fail(e) => r == Err::<Self, Error>(e),
            },
    {
        let sv = chars_of(s);
        let t = trim(&sv);
        let a = if t.len() > 0 {
            skip_chars(&t, 1)
        } else {
            t.clone()
        };
        assert(a@ == (if t@.len() > 0 {
            t@.skip(1)
        } else {
            t@
        }));
        let mut i: usize = 0;
        while i < a.len() && is_alphabetic(a[i])
            invariant
                i <= a.len(),
                forall|j: int| 0 <= j < i ==> unicode_alphabetic(#[trigger] a@[j]),
            decreases a.len() - i,
        {
            i += 1;
        }
        proof {
            lemma_alpha_run(a@, i as int);
        }
        let rest = skip_chars(&a, i);
        assert(rest@ == op_rest(s@));
        if rest.len() == 0 {
            return Err(Error::Operator);
        }
        let op = rest[0];
        if !(op == '+' || op == '-' || op == '=' || op == '*' || op == '/' || op == '.') {
            return Err(Error::Operator);
        }
        let val = skip_chars(&rest, 1);
        if op == '.' {
            return Ok(Operation(Component::Hex(string_of(&val)), op_string('.')));
        }
        let v = match parse_i16(&val) {
            Some(v) => v,
            None => {
                return Err(Error::Change);
            },
        };
        let comp = match t[0] {
            'h' => Component::Hue(v),
            's' => Component::HsvSaturation(v),
            'S' => Component::HslSaturation(v),
            'v' => Component::Value(v),
            'l' => Component::Lightness(v),
            'r' => Component::Red(v),
            'g' => Component::Green(v),
            'b' => Component::Blue(v),
            'a' => Component::Alpha(v),
            _ => {
                return Err(Error::Component);
            },
        };
        Ok(Operation(comp, op_string(op)))
    }
}

/// Tells whether reading `s` as a color stays clear of the panic that
/// `color_text_ok` describes.
pub fn color_text_ok_exec(s: &str) -> (r: bool)
    ensures
        r == color_text_ok(s@),
{
    let sv = chars_of(s);
    let tv = trim(&sv);
    let lowered = to_lower(string_of(&tv).as_str());
    let t = chars_of(lowered.as_str());
    assert(t@ == color_text(s@));
    let hash = t.len() > 0 && t[0] == '#';
    proof {
        if t@.len() > 0 {
            assert(t@.take(1)[0] == t@[0]);
            if t@[0] == '#' {
                assert(t@.take(1) =~= seq!['#']);
            }
        }
    }
    assert(hash == starts_with(t@, seq!['#']));
    let closes = t.len() > 0 && t[t.len() - 1] == ')';
    proof {
        if t@.len() > 0 {
            assert(t@.skip(t@.len() - 1) =~= seq![t@[t@.len() - 1]]);
            if t@[t@.len() - 1] != ')' {
                assert(t@.skip(t@.len() - 1)[0] != seq![')'][0]);
            }
        }
    }
    assert(closes == ends_with(t@, seq![')']));
    if hash || !closes {
        return true;
    }
    let seps = seq3('(', ',', ')');
    let mut p = split_any(&t, &seps);
    proof {
        lemma_split_by_nonempty(t@, seps@);
    }
    p.pop();
    if p.len() < 4 {
        return true;
    }
    assert((p@[0])@ == color_pieces(t@)[0]);
    !(byte_length_capped(&p[0], 4) > 3 && !byte_boundary(&p[0], 3))
}

/// A color string in one of its forms.
pub enum ColorForm {
    Hex(Seq<char>),
    Hsl(i16, i16, i16, i16),
    Hsv(i16, i16, i16, i16),
    Rgb(i16, i16, i16, i16),
}

/// A functional form split at `(`, `,` and `)`, without the empty piece
/// after the closing parenthesis.
pub open spec fn color_pieces(t: Seq<char>) -> Seq<Seq<char>> {
    split_by(t, seq!['(', ',', ')']).drop_last()
}

pub open spec fn color_text(s: Seq<char>) -> Seq<char> {
    unicode_lower(trim_seq(s))
}

pub open spec fn piece_value(p: Seq<char>) -> Option<int> {
    int_text(trim_seq(p), true, i16::MIN as int, i16::MAX as int)
}

/// Parsing the color form truncates the form's name to 3 bytes, which
/// panics when byte 3 is inside a character; this holds when it does not.
pub open spec fn color_text_ok(s: Seq<char>) -> bool {
    let t = color_text(s);
    let p = color_pieces(t);
    !(!starts_with(t, seq!['#']) && ends_with(t, seq![')']) && p.len() >= 4 && byte_len(p[0]) > 3
        && !has_byte_boundary(p[0], 3))
}

/// The form a color string is written in, or the error it gives.
pub open spec fn color_form(s: Seq<char>) -> Result<ColorForm, Error> {
    let t = color_text(s);
    let p = color_pieces(t);
    if starts_with(t, seq!['#']) {
        Ok(ColorForm::Hex(t))
    } else if !ends_with(t, seq![')']) || p.len() < 4 {
        Err(Error::InvalidColorString)
    } else if exists|i: int| 1 <= i < p.len() && (#[trigger] piece_value(p[i])) is None {
        Err(Error::InvalidColorString)
    } else {
        let v1 = piece_value(p[1])->0 as i16;
        let v2 = piece_value(p[2])->0 as i16;
        let v3 = piece_value(p[3])->0 as i16;
        let a = if p.len() >= 5 {
            piece_value(p[4])->0 as i16
        } else {
            100
        };
        let kind = take_bytes(p[0], 3);
        if kind == seq!['r', 'g', 'b'] {
            Ok(ColorForm::Rgb(v1, v2, v3, a))
        } else if kind == seq!['h', 's', 'l'] {
            Ok(ColorForm::Hsl(v1, v2, v3, a))
        } else if kind == seq!['h', 's', 'v'] {
            Ok(ColorForm::Hsv(v1, v2, v3, a))
        } else {
            Err(Error::InvalidColorString)
        }
    }
}

/// What a successfully parsed color holds: the components its text sets,
/// and a hex string that follows its channels.
pub open spec fn parsed_color(s: Seq<char>, c: Color) -> bool {
    &&& c.wf()
    &&& match color_form(s) {
        Ok(ColorForm::Hex(t)) => valid_hex_spec(t) && hex_channels(t) == (
            c.red,
            c.green,
            c.blue,
            c.alpha,
        ),
        Ok(ColorForm::Rgb(r, g, b, a)) => c.red == r && c.green == g && c.blue == b && c.alpha
            == a,
        Ok(ColorForm::Hsl(h, _, l, a)) => c.hue == h && c.lightness == l && c.alpha == a,
        Ok(ColorForm::Hsv(h, sat, v, a)) => c.hue == h && c.saturation == sat && c.value == v
            && c.alpha == a,
        Err(_) => false,
    }
}

/// The text is not a color.
pub open spec fn color_parse_fails(s: Seq<char>) -> bool {
    match color_form(s) {
        Ok(ColorForm::Hex(t)) => !valid_hex_spec(t),
        Ok(_) => false,
        Err(_) => true,
    }
}

fn seq3(a: char, b: char, c: char) -> (r: Vec<char>)
    ensures
        r@ == seq![a, b, c],
{
    let mut r = Vec::new();
    r.push(a);
    r.push(b);
    r.push(c);
    assert(r@ =~= seq![a, b, c]);
    r
}

impl Color {
    /// Parses a color: a hex string or `rgb(..)`, `hsl(..)`, `hsv(..)` with
    /// an optional fourth value for alpha.
    pub fn from_str<S: ColorSpace>(s: &str, space: &S) -> (r: Result<Self, Error>)
        requires
            color_text_ok(s@),
        ensures
            r matches Ok(c) ==> parsed_color(s@, c),
            r is Err <==> color_parse_fails(s@),
            r matches Err(e) ==> match color_form(s@) {
                Ok(ColorForm::Hex(t)) => e matches Error::Hex(h) && h@ == t,
                Err(e2) => e == e2,
                _ => false,
            },
    {
        let sv = chars_of(s);
        let tv = trim(&sv);
        let lowered = to_lower(string_of(&tv).as_str());
        let t = chars_of(lowered.as_str());
        assert(t@ == color_text(s@));
        if t.len() > 0 && t[0] == '#' {
            assert(t@.take(1) =~= seq!['#']);
            return Self::from_hex(lowered.as_str(), space);
        }
        proof {
            if t@.len() > 0 {
                assert(t@.take(1)[0] == t@[0]);
            }
        }
        let closes = t.len() > 0 && t[t.len() - 1] == ')';
        proof {
            if t@.len() > 0 {
                assert(t@.skip(t@.len() - 1) =~= seq![t@[t@.len() - 1]]);
                if t@[t@.len() - 1] != ')' {
                    assert(t@.skip(t@.len() - 1)[0] != seq![')'][0]);
                }
            }
        }
        assert(closes == ends_with(t@, seq![')']));
        if !closes {
            return Err(Error::InvalidColorString);
        }
        let seps = seq3('(', ',', ')');
        let mut p = split_any(&t, &seps);
        proof {
            lemma_split_by_nonempty(t@, seps@);
        }
        p.pop();
        if p.len() < 4 {
            return Err(Error::InvalidColorString);
        }
        assert(forall|i: int| 0 <= i < p@.len() ==> (#[trigger] p@[i])@ == color_pieces(t@)[i]);
        let kind = if byte_length_capped(&p[0], 4) > 3 {
            assert(has_byte_boundary(color_pieces(t@)[0], 3));
            take_bytes_exec(&p[0], 3)
        } else {
            take_bytes_exec(&p[0], 3)
        };
        let mut vals: Vec<i16> = Vec::new();
        let mut i: usize = 1;
        while i < p.len()
            invariant
                1 <= i <= p@.len(),
                t@ == color_text(s@),
                ends_with(t@, seq![')']),
                !starts_with(t@, seq!['#']),
                p@.len() == color_pieces(t@).len(),
                forall|j: int| 0 <= j < p@.len() ==> (#[trigger] p@[j])@ == color_pieces(t@)[j],
                vals@.len() == i - 1,
                forall|k: int|
                    0 <= k < vals@.len() ==> piece_value(color_pieces(t@)[k + 1]) == Some(
                        #[trigger] vals@[k] as int,
                    ),
            decreases p.len() - i,
        {
            let pt = trim(&p[i]);
            match parse_i16(&pt) {
                Some(v) => vals.push(v),
                None => {
                    assert(piece_value(color_pieces(t@)[i as int]) is None);
                    return Err(Error::InvalidColorString);
                },
            }
            i += 1;
        }
        assert(!exists|i: int|
            1 <= i < color_pieces(t@).len() && (#[trigger] piece_value(color_pieces(t@)[i])) is None) by {
            assert forall|i: int| 1 <= i < color_pieces(t@).len() implies (#[trigger] piece_value(
                color_pieces(t@)[i],
            )) is Some by {
                assert(piece_value(color_pieces(t@)[i]) == Some(vals@[i - 1] as int));
            }
        }
        let alpha: i16 = if vals.len() >= 4 {
            vals[3]
        } else {
            100
        };
        assert(kind@ == take_bytes(color_pieces(t@)[0], 3));
        assert(vals@.len() == color_pieces(t@).len() - 1);
        assert(piece_value(color_pieces(t@)[1]) == Some(vals@[0] as int));
        assert(piece_value(color_pieces(t@)[2]) == Some(vals@[1] as int));
        assert(piece_value(color_pieces(t@)[3]) == Some(vals@[2] as int));
        assert(color_pieces(t@).len() >= 5 ==> piece_value(color_pieces(t@)[4]) == Some(
            vals@[3] as int,
        ));
        let is_rgb = chars_eq(&kind, &seq3('r', 'g', 'b'));
        let is_hsl = chars_eq(&kind, &seq3('h', 's', 'l'));
        let is_hsv = chars_eq(&kind, &seq3('h', 's', 'v'));
        if is_rgb {
            let mut color = Color {
                red: vals[0],
                green: vals[1],
                blue: vals[2],
                alpha,
                ..Default::default()
            };
            color.update_hsvl(space);
            color.update_hex();
            assert(color_form(s@) == Ok::<ColorForm, Error>(ColorForm::Rgb(vals@[0], vals@[1], vals@[2], alpha)));
            Ok(color)
        } else if is_hsl {
            let mut color = Color {
                hue: vals[0],
                saturation: vals[1],
                lightness: vals[2],
                alpha,
                ..Default::default()
            };
            color.update_value(space);
            color.update_rgb(space);
            color.update_hex();
            Ok(color)
        } else if is_hsv {
            let mut color = Color {
                hue: vals[0],
                saturation: vals[1],
                value: vals[2],
                alpha,
                ..Default::default()
            };
            color.update_lightness(space);
            color.update_rgb(space);
            color.update_hex();
            Ok(color)
        } else {
            Err(Error::InvalidColorString)
        }
    }
}


/// `ms` lists the colors passed through when applying each list in turn.
pub open spec fn lists_chain(c: Color, lists: Seq<Seq<Operation>>, ms: Seq<Color>) -> bool {
    &&& ms.len() == lists.len() + 1
    &&& ms[0] == c
    &&& forall|i: int|
        0 <= i < lists.len() ==> reach(ms[i], normalized(#[trigger] lists[i]), ms[i + 1])
}

pub open spec fn lists_reach(c: Color, lists: Seq<Seq<Operation>>, d: Color) -> bool {
    exists|ms: Seq<Color>| #[trigger] lists_chain(c, lists, ms) && ms.last() == d
}

pub open spec fn lists_view(lists: Seq<Operations>) -> Seq<Seq<Operation>> {
    lists.map_values(|l: Operations| l@)
}

/// What `Color::from_change` is owed: the text parses as a color and every
/// change applies.
pub open spec fn changed_color(s: Seq<char>, ops: Seq<Operation>, d: Color) -> bool {
    exists|c: Color| #[trigger] parsed_color(s, c) && reach(c, normalized(ops), d)
}

pub open spec fn in_range_spec(x: i16, a: i16, b: i16) -> bool {
    let d = vstd::wrapping::i16_specs::wrapping_sub(x, a);
    (if d == i16::MIN {
        d as int
    } else if d < 0 {
        -d
    } else {
        d as int
    }) <= b
}

/// Equality of colors: HSV or RGB within one unit, and the same alpha.
pub open spec fn color_eq(a: Color, b: Color) -> bool {
    ((in_range_spec(a.hue, b.hue, 1) && in_range_spec(a.saturation, b.saturation, 1)
        && in_range_spec(a.value, b.value, 1)) || (in_range_spec(a.red, b.red, 1) && in_range_spec(
        a.green,
        b.green,
        1,
    ) && in_range_spec(a.blue, b.blue, 1))) && a.alpha == b.alpha
}

/// `|x - a| <= b`, computed in `i16` with wrapping as a release build does.
pub fn in_range(x: i16, a: i16, b: i16) -> (r: bool)
    ensures
        r == in_range_spec(x, a, b),
{
    let d = x.wrapping_sub(a);
    let m = if d == i16::MIN {
        d
    } else if d < 0 {
        0 - d
    } else {
        d
    };
    m <= b
}

/// What `color_name::css::Color::similar` returns: the name of the CSS color
/// closest to the given RGB bytes.
pub uninterp spec fn css_similar(r: u8, g: u8, b: u8) -> Seq<char>;

/// `color_name::css::Color::similar`: the name of the closest CSS color. The
/// crate's table and distance decide which; only the name is carried here.
#[verifier::external_body]
fn similar_color_name(r: u8, g: u8, b: u8) -> (res: String)
    ensures
        res@ == css_similar(r, g, b),
{
    color_name::css::Color::similar([r, g, b])
}

impl Color {
    /// `color.` and the lower-case name of the closest CSS color.
    pub open spec fn get_name_spec(&self) -> Seq<char> {
        seq!['c', 'o', 'l', 'o', 'r', '.'] + unicode_lower(
            css_similar(self.red as u8, self.green as u8, self.blue as u8),
        )
    }

    /// Applies a list of operation lists to the color, stopping at the first
    /// that fails.
    pub fn update_ops<S: ColorSpace>(&mut self, changes: &[Operations], space: &S) -> (r: Result<
        (),
        Error,
    >)
        requires
            forall|i: int| 0 <= i < changes@.len() ==> no_panics((#[trigger] changes@[i])@),
        ensures
            r is Ok ==> lists_reach(*old(self), lists_view(changes@), *final(self)),
            r is Err ==> exists|i: int, m: Color|
                0 <= i < changes@.len() && lists_reach(*old(self), lists_view(changes@).take(i), m)
                    && #[trigger] update_fails(m, changes@[i]@, *final(self)),
    {
        let ghost c0 = *self;
        let ghost mut ms: Seq<Color> = seq![c0];
        for i in 0..changes.len()
            invariant
                forall|j: int| 0 <= j < changes@.len() ==> no_panics((#[trigger] changes@[j])@),
                lists_chain(c0, lists_view(changes@).take(i as int), ms),
                ms.last() == *self,
                c0 == *old(self),
        {
            let ghost m = *self;
            let change = changes[i].clone();
            assert(change@ =~= changes@[i as int]@);
            match self.update(change, space) {
                Ok(()) => {},
                Err(e) => {
                    assert(lists_reach(c0, lists_view(changes@).take(i as int), m));
                    assert(update_fails(m, changes@[i as int]@, *self));
                    return Err(e);
                },
            }
            proof {
                let t = lists_view(changes@).take(i + 1);
                let ms2 = ms.push(*self);
                assert forall|j: int| 0 <= j < t.len() implies reach(
                    ms2[j],
                    normalized(#[trigger] t[j]),
                    ms2[j + 1],
                ) by {
                    if j < i {
                        assert(t[j] == lists_view(changes@).take(i as int)[j]);
                    }
                }
                assert(lists_chain(c0, t, ms2));
                ms = ms2;
            }
        }
        assert(lists_view(changes@).take(changes@.len() as int) == lists_view(changes@));
        Ok(())
    }

    /// Creates a Color from a color string and applies a list of operations
    /// to it.
    pub fn from_change<S: ColorSpace>(col_str: &str, ops: &[Operation], space: &S) -> (r: Result<
        Self,
        Error,
    >)
        requires
            color_text_ok(col_str@),
            no_panics(ops@),
        ensures
            color_parse_fails(col_str@) ==> r is Err,
            color_parse_fails(col_str@) ==> (r matches Err(e) && match color_form(col_str@) {
                Ok(ColorForm::Hex(t)) => e matches Error::Hex(h) && h@ == t,
                Err(e2) => e == e2,
                _ => false,
            }),
            r matches Ok(d) ==> changed_color(col_str@, ops@, d),
            r is Err && !color_parse_fails(col_str@) ==> exists|c: Color, d: Color|
                #![trigger parsed_color(col_str@, c), update_fails(c, ops@, d)]
                parsed_color(col_str@, c) && update_fails(c, ops@, d),
    {
        let mut color = match Self::from_str(col_str, space) {
            Ok(c) => c,
            Err(e) => {
                return Err(e);
            },
        };
        let ghost c = color;
        let mut v: Vec<Operation> = Vec::new();
        for i in 0..ops.len()
            invariant
                v@ == ops@.take(i as int),
        {
            v.push(ops[i].clone());
            assert(v@ =~= ops@.take(i + 1));
        }
        assert(v@ =~= ops@);
        match color.update(v, space) {
            Ok(()) => Ok(color),
            Err(e) => {
                assert(update_fails(c, ops@, color));
                Err(e)
            },
        }
    }

    /// Returns a human-readable name for the color: `color.` and the name of
    /// the closest CSS color in lower case.
    pub fn get_name(&self) -> (r: String)
        ensures
            r@ == self.get_name_spec(),
    {
        let name = similar_color_name(self.red as u8, self.green as u8, self.blue as u8);
        let lowered = chars_of(to_lower(name.as_str()).as_str());
        let mut v: Vec<char> = Vec::new();
        v.push('c');
        v.push('o');
        v.push('l');
        v.push('o');
        v.push('r');
        v.push('.');
        append_chars(&mut v, &lowered);
        assert(v@ =~= seq!['c', 'o', 'l', 'o', 'r', '.'] + lowered@);
        string_of(&v)
    }

    /// Equal if HSV or RGB are within 1 unit and alpha is the same.
    pub fn eq(&self, other: &Self) -> (r: bool)
        ensures
            r == color_eq(*self, *other),
    {
        let max_distance: i16 = 1;
        ((in_range(self.hue, other.hue, max_distance) && in_range(
            self.saturation,
            other.saturation,
            max_distance,
        ) && in_range(self.value, other.value, max_distance)) || (in_range(
            self.red,
            other.red,
            max_distance,
        ) && in_range(self.green, other.green, max_distance) && in_range(
            self.blue,
            other.blue,
            max_distance,
        ))) && self.alpha == other.alpha
    }

    /// The color's text: its hex string.
    pub fn to_string(&self) -> (r: String)
        ensures
            r@ == self.hex@,
    {
        self.hex.clone()
    }
}

/// `Color::update` on `c` with `ops` fails, leaving `d`.
pub open spec fn update_fails(c: Color, ops: Seq<Operation>, d: Color) -> bool {
    exists|i: int|
        0 <= i < ops.len() && reach(c, normalized(ops).take(i), d) && step_fails(
            d,
            #[trigger] normalized(ops)[i],
        )
}


/// A change of one RGB channel by `+` or `-`.
pub open spec fn rgb_change(o: Operation) -> bool {
    (o.0 is Red || o.0 is Green || o.0 is Blue) && (is_op(o.1@, '+') || is_op(o.1@, '-'))
}

/// Channel `k` of a color: 0 red, 1 green, 2 blue.
pub open spec fn channel(c: Color, k: int) -> int {
    if k == 0 {
        c.red as int
    } else if k == 1 {
        c.green as int
    } else {
        c.blue as int
    }
}

/// What an RGB change adds to channel `k`.
pub open spec fn channel_delta(o: Operation, k: int) -> int {
    let hit = (k == 0 && o.0 is Red) || (k == 1 && o.0 is Green) || (k == 2 && o.0 is Blue);
    if !hit {
        0
    } else if is_op(o.1@, '+') {
        comp_value(o.0) as int
    } else {
        -(comp_value(o.0) as int)
    }
}

/// Channel `k` of `c` after the first `n` changes, summed without clamping.
pub open spec fn channel_after(c: Color, ops: Seq<Operation>, k: int, n: int) -> int
    decreases n,
{
    if n <= 0 {
        channel(c, k)
    } else {
        channel_after(c, ops, k, n - 1) + channel_delta(ops[n - 1], k)
    }
}

/// No channel leaves `0..=255` while the changes are applied one by one.
pub open spec fn channels_in_range(c: Color, ops: Seq<Operation>) -> bool {
    forall|k: int, n: int| 0 <= k < 3 && 0 <= n <= ops.len() ==> 0 <= #[trigger] channel_after(c, ops, k, n) <= 255
}

proof fn lemma_rgb_ops(ops: Seq<Operation>)
    requires
        forall|i: int| 0 <= i < ops.len() ==> rgb_change(#[trigger] ops[i]),
    ensures
        normalized(ops) == ops,
        forall|x: Color, i: int| 0 <= i < ops.len() ==> !#[trigger] step_fails(x, ops[i]),
{
    lemma_single_ne('+', '=');
    lemma_single_ne('-', '=');
    lemma_single_ne('+', '.');
    lemma_single_ne('-', '.');
    if has_lightness(ops) {
        let i = choose|i: int| 0 <= i < ops.len() && (#[trigger] ops[i]).0 is Lightness;
        assert(rgb_change(ops[i]));
    }
}

proof fn lemma_rgb_chain(c: Color, ops: Seq<Operation>, ms: Seq<Color>, n: int)
    requires
        chain(c, ops, ms),
        forall|i: int| 0 <= i < ops.len() ==> rgb_change(#[trigger] ops[i]),
        channels_in_range(c, ops),
        0 <= n <= ops.len(),
    ensures
        forall|k: int| 0 <= k < 3 ==> channel(ms[n], k) == #[trigger] channel_after(c, ops, k, n),
        ms[n].alpha == c.alpha,
    decreases n,
{
    if n > 0 {
        lemma_rgb_chain(c, ops, ms, n - 1);
        lemma_single_ne('+', '=');
        lemma_single_ne('-', '=');
        lemma_single_ne('+', '.');
        lemma_single_ne('-', '.');
        lemma_single_ne('+', '-');
        let o = ops[n - 1];
        let a = ms[n - 1];
        let b = ms[n];
        assert(rgb_change(o));
        assert(step_ok(a, o, b));
        assert(0 <= channel_after(c, ops, 0, n) <= 255);
        assert(0 <= channel_after(c, ops, 1, n) <= 255);
        assert(0 <= channel_after(c, ops, 2, n) <= 255);
        assert(channel(a, 0) == channel_after(c, ops, 0, n - 1));
        assert(channel(a, 1) == channel_after(c, ops, 1, n - 1));
        assert(channel(a, 2) == channel_after(c, ops, 2, n - 1));
        assert forall|k: int| 0 <= k < 3 implies channel(b, k) == #[trigger] channel_after(c, ops, k, n) by {
            assert(channel_after(c, ops, k, n) == channel_after(c, ops, k, n - 1) + channel_delta(o, k));
        }
    }
}

proof fn lemma_chain_wf(c: Color, ops: Seq<Operation>, d: Color)
    requires
        c.wf(),
        reach(c, ops, d),
    ensures
        d.wf(),
{
    let ms = choose|ms: Seq<Color>| #[trigger] chain(c, ops, ms) && ms.last() == d;
    if ops.len() > 0 {
        let n = ops.len() - 1;
        assert(step_ok(ms[n], ops[n], ms[n + 1]));
    }
}

proof fn lemma_channels_back(c: Color, ops: Seq<Operation>, d: Color, inv: Seq<Operation>, k: int, j: int)
    requires
        ops_view(inv) == inverse_spec(ops_view(ops)),
        forall|i: int| 0 <= i < ops.len() ==> rgb_change(#[trigger] ops[i]),
        channel(d, k) == channel_after(c, ops, k, ops.len() as int),
        0 <= j <= ops.len(),
    ensures
        channel_after(d, inv, k, j) == channel_after(c, ops, k, ops.len() - j),
    decreases j,
{
    if j > 0 {
        lemma_channels_back(c, ops, d, inv, k, j - 1);
        lemma_single_ne('+', '-');
        let n = ops.len() as int;
        assert(ops_view(inv).len() == inv.len());
        assert(ops_view(inv)[j - 1] == op_view(inv[j - 1]));
        assert(inverse_spec(ops_view(ops))[j - 1] == inverse_one(ops_view(ops)[n - 1 - (j - 1)]));
        assert(ops_view(ops)[n - j] == op_view(ops[n - j]));
        assert(rgb_change(ops[n - j]));
        assert(channel_delta(inv[j - 1], k) == -channel_delta(ops[n - j], k));
        assert(channel_after(c, ops, k, n - (j - 1)) == channel_after(c, ops, k, n - j) + channel_delta(ops[n - j], k));
    }
}

/// Changing RGB channels by `+` and `-` and then applying the inverse
/// changes (`Operation::inverse`) gives the color back, hex string and all,
/// where no channel leaves `0..=255` on the way; neither pass can fail.
pub proof fn law_rgb_inverse_restores(c: Color, ops: Seq<Operation>, inv: Seq<Operation>, d: Color, e: Color)
    requires
        c.wf(),
        forall|i: int| 0 <= i < ops.len() ==> rgb_change(#[trigger] ops[i]),
        channels_in_range(c, ops),
        ops_view(inv) == inverse_spec(ops_view(ops)),
        reach(c, normalized(ops), d),
        reach(d, normalized(inv), e),
    ensures
        forall|x: Color| !update_fails(c, ops, x),
        forall|x: Color| !update_fails(d, inv, x),
        e.red == c.red,
        e.green == c.green,
        e.blue == c.blue,
        e.alpha == c.alpha,
        e.hex@ == c.hex@,
{
    let n = ops.len() as int;
    assert(ops_view(inv).len() == n);
    assert forall|j: int| 0 <= j < inv.len() implies rgb_change(#[trigger] inv[j]) by {
        lemma_single_ne('+', '-');
        assert(ops_view(inv)[j] == op_view(inv[j]));
        assert(inverse_spec(ops_view(ops))[j] == inverse_one(ops_view(ops)[n - 1 - j]));
        assert(ops_view(ops)[n - 1 - j] == op_view(ops[n - 1 - j]));
        assert(rgb_change(ops[n - 1 - j]));
    }
    lemma_rgb_ops(ops);
    lemma_rgb_ops(inv);
    let ms = choose|ms: Seq<Color>| #[trigger] chain(c, ops, ms) && ms.last() == d;
    lemma_rgb_chain(c, ops, ms, n);
    assert(ms[n] == d);
    assert forall|k: int, j: int| 0 <= k < 3 && 0 <= j <= inv.len() implies 0 <= #[trigger] channel_after(d, inv, k, j) <= 255 by {
        assert(channel(d, k) == channel_after(c, ops, k, n));
        lemma_channels_back(c, ops, d, inv, k, j);
        assert(0 <= channel_after(c, ops, k, n - j) <= 255);
    }
    let ns = choose|ns: Seq<Color>| #[trigger] chain(d, inv, ns) && ns.last() == e;
    lemma_rgb_chain(d, inv, ns, n);
    assert(ns[n] == e);
    assert forall|k: int| 0 <= k < 3 implies channel(e, k) == channel(c, k) by {
        assert(channel(d, k) == channel_after(c, ops, k, n));
        lemma_channels_back(c, ops, d, inv, k, n);
        assert(channel(e, k) == channel_after(d, inv, k, n));
        assert(channel_after(c, ops, k, 0) == channel(c, k));
    }
    assert(channel(e, 0) == channel(c, 0));
    assert(channel(e, 1) == channel(c, 1));
    assert(channel(e, 2) == channel(c, 2));
    lemma_chain_wf(c, ops, d);
    lemma_chain_wf(d, inv, e);
}


/// The absolute value of an integer.
pub open spec fn abs_i(x: int) -> int {
    if x < 0 {
        -x
    } else {
        x
    }
}

proof fn lemma_trunc_div(a: i16, b: i16)
    requires
        b != 0,
    ensures
        ({
            let want = if (a >= 0) == (b >= 0) {
                abs_i(a as int) / abs_i(b as int)
            } else {
                -(abs_i(a as int) / abs_i(b as int))
            };
            i16::MIN <= want <= i16::MAX ==> trunc_div(a, b) as int == want
        }),
{
    let q = abs_i(a as int) / abs_i(b as int);
    assert(0 <= q <= abs_i(a as int)) by (nonlinear_arith)
        requires
            abs_i(b as int) >= 1,
            abs_i(a as int) >= 0,
            q == abs_i(a as int) / abs_i(b as int),
    ;
}

/// The numeric component an arithmetic change gives, where the result
/// fits in `i16`: `+` adds the change's value to the color's, `-`
/// subtracts it, `*` multiplies by it, `/` divides by it (toward zero).
pub proof fn law_arithmetic_changes(c: Color, o: Operation)
    requires
        !(o.0 is Hex),
        is_arith_op(o.1@),
        !(is_op(o.1@, '/') && comp_value(o.0) == 0),
    ensures
        ({
            let x = field_of(c, o.0) as int;
            let v = comp_value(o.0) as int;
            let want = if is_op(o.1@, '+') {
                x + v
            } else if is_op(o.1@, '-') {
                x - v
            } else if is_op(o.1@, '*') {
                x * v
            } else {
                if (x >= 0) == (v >= 0) {
                    crate::color::abs_i(x) / crate::color::abs_i(v)
                } else {
                    -(crate::color::abs_i(x) / crate::color::abs_i(v))
                }
            };
            i16::MIN <= want <= i16::MAX ==> applied(c, o) == Some(CompView::Num(with_value(o.0, want as i16)))
        }),
{
    lemma_single_ne('+', '=');
    lemma_single_ne('-', '=');
    lemma_single_ne('*', '=');
    lemma_single_ne('/', '=');
    lemma_single_ne('+', '.');
    lemma_single_ne('-', '.');
    lemma_single_ne('*', '.');
    lemma_single_ne('/', '.');
    lemma_single_ne('+', '-');
    lemma_single_ne('+', '*');
    lemma_single_ne('+', '/');
    lemma_single_ne('-', '*');
    lemma_single_ne('-', '/');
    lemma_single_ne('*', '/');
    let a = field_of(c, o.0);
    let b = comp_value(o.0);
    if is_op(o.1@, '/') {
        lemma_trunc_div(a, b);
    }
}

} // verus!

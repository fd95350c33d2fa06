//! Design tokens for the dark and light themes, and their CSS form.
use vstd::prelude::*;

verus! {

/// Which theme the user asked for.
#[derive(Debug, Clone, Copy, PartialEq, Eq, Structural)]
pub enum ThemeMode {
    Dark,
    Light,
    System,
}

pub open spec fn mode_name(m: ThemeMode) -> Seq<char> {
    match m {
        ThemeMode::Dark => "dark"@,
        ThemeMode::Light => "light"@,
        ThemeMode::System => "system"@,
    }
}

impl ThemeMode {
    /// The mode's name, as stored in settings.
    pub fn as_str(&self) -> (r: &'static str)
        ensures
            r@ == mode_name(*self),
    {
        match self {
            ThemeMode::Dark => "dark",
            ThemeMode::Light => "light",
            ThemeMode::System => "system",
        }
    }
}

/// A complete set of design tokens. Every UI surface references them by
/// their CSS variable name (see [`Theme::to_css_vars`]), so swapping the
/// theme re-skins the whole app.
#[derive(Debug, Clone)]
pub struct Theme {
    pub mode: ThemeMode,
    // Surfaces
    pub bg: String,
    pub bg_2: String,
    pub bg_elevated: String,
    pub bg_overlay: String,
    pub bg_input: String,
    // Lines
    pub border: String,
    pub border_strong: String,
    // Text
    pub text: String,
    pub text_dim: String,
    pub text_faint: String,
    // Accent
    pub accent: String,
    pub accent_bright: String,
    pub accent_soft: String,
    pub accent_strong: String,
    // Semantic
    pub danger: String,
    pub danger_soft: String,
    pub pin: String,
    // Canvas
    pub grid_dot: String,
    pub edge: String,
    pub edge_strong: String,
    // Effects
    pub shadow_sm: String,
    pub shadow_lg: String,
    pub glass_blur: String,
}

/// The token values of a theme, in declaration order.
pub open spec fn tokens(t: Theme) -> Seq<Seq<char>> {
    seq![
        t.bg@,
        t.bg_2@,
        t.bg_elevated@,
        t.bg_overlay@,
        t.bg_input@,
        t.border@,
        t.border_strong@,
        t.text@,
        t.text_dim@,
        t.text_faint@,
        t.accent@,
        t.accent_bright@,
        t.accent_soft@,
        t.accent_strong@,
        t.danger@,
        t.danger_soft@,
        t.pin@,
        t.grid_dot@,
        t.edge@,
        t.edge_strong@,
        t.shadow_sm@,
        t.shadow_lg@,
        t.glass_blur@
    ]
}

/// The dark theme's token values, in declaration order.
pub open spec fn dark_tokens() -> Seq<Seq<char>> {
    seq![
        "#0a0e1a"@,
        "#0e1322"@,
        "rgba(22, 30, 52, 0.78)"@,
        "rgba(16, 22, 40, 0.97)"@,
        "rgba(120, 160, 230, 0.07)"@,
        "rgba(120, 160, 230, 0.13)"@,
        "rgba(120, 160, 230, 0.30)"@,
        "#e3ecfb"@,
        "rgba(200, 216, 245, 0.64)"@,
        "rgba(165, 188, 232, 0.40)"@,
        "#6b9be0"@,
        "#93c1ff"@,
        "rgba(110, 155, 224, 0.15)"@,
        "#3b82e0"@,
        "#ff7d7d"@,
        "rgba(255, 105, 105, 0.14)"@,
        "#ffc16b"@,
        "rgba(120, 160, 230, 0.15)"@,
        "rgba(120, 160, 230, 0.50)"@,
        "rgba(147, 193, 255, 0.92)"@,
        "0 2px 14px rgba(0, 0, 0, 0.35)"@,
        "0 16px 48px rgba(0, 0, 0, 0.55), 0 0 0 0.5px rgba(120, 160, 230, 0.10)"@,
        "14px"@
    ]
}

/// The light theme's token values, in declaration order.
pub open spec fn light_tokens() -> Seq<Seq<char>> {
    seq![
        "#f4f6fb"@,
        "#e6ecf7"@,
        "rgba(255, 255, 255, 0.90)"@,
        "rgba(255, 255, 255, 0.98)"@,
        "rgba(45, 95, 165, 0.06)"@,
        "rgba(45, 95, 165, 0.15)"@,
        "rgba(45, 95, 165, 0.32)"@,
        "#14233f"@,
        "rgba(30, 55, 100, 0.68)"@,
        "rgba(30, 55, 100, 0.42)"@,
        "#3672bf"@,
        "#245fb0"@,
        "rgba(45, 110, 200, 0.10)"@,
        "#2f7be8"@,
        "#d63d40"@,
        "rgba(214, 61, 64, 0.10)"@,
        "#cf8a2b"@,
        "rgba(45, 95, 165, 0.16)"@,
        "rgba(45, 95, 165, 0.42)"@,
        "rgba(36, 95, 176, 0.85)"@,
        "0 2px 14px rgba(40, 70, 120, 0.12)"@,
        "0 16px 48px rgba(40, 70, 120, 0.20), 0 0 0 0.5px rgba(45, 95, 165, 0.08)"@,
        "16px"@
    ]
}

/// The CSS variable declarations for a theme's tokens:
/// `--bg: ...;--bg-2: ...;` and so on, without separating spaces.
pub open spec fn css_vars_v(k: Seq<Seq<char>>) -> Seq<char> {
    "--bg: "@ + k[0] + ";"@ +
        "--bg-2: "@ + k[1] + ";"@ +
        "--bg-elevated: "@ + k[2] + ";"@ +
        "--bg-overlay: "@ + k[3] + ";"@ +
        "--bg-input: "@ + k[4] + ";"@ +
        "--border: "@ + k[5] + ";"@ +
        "--border-strong: "@ + k[6] + ";"@ +
        "--text: "@ + k[7] + ";"@ +
        "--text-dim: "@ + k[8] + ";"@ +
        "--text-faint: "@ + k[9] + ";"@ +
        "--accent: "@ + k[10] + ";"@ +
        "--accent-bright: "@ + k[11] + ";"@ +
        "--accent-soft: "@ + k[12] + ";"@ +
        "--accent-strong: "@ + k[13] + ";"@ +
        "--danger: "@ + k[14] + ";"@ +
        "--danger-soft: "@ + k[15] + ";"@ +
        "--pin: "@ + k[16] + ";"@ +
        "--grid-dot: "@ + k[17] + ";"@ +
        "--edge: "@ + k[18] + ";"@ +
        "--edge-strong: "@ + k[19] + ";"@ +
        "--shadow-sm: "@ + k[20] + ";"@ +
        "--shadow-lg: "@ + k[21] + ";"@ +
        "--glass-blur: "@ + k[22] + ";"@
}

/// The declaration `name: value;` of one CSS custom property, given its
/// name with the colon and space that follow it.
pub open spec fn declaration(name: Seq<char>, value: Seq<char>) -> Seq<char> {
    name + value + ";"@
}

/// The declarations of a list of custom properties, in order.
pub open spec fn declarations(vars: Seq<(Seq<char>, Seq<char>)>) -> Seq<char>
    decreases vars.len(),
{
    if vars.len() == 0 {
        Seq::empty()
    } else {
        declarations(vars.drop_last()) + vars.last().0 + vars.last().1 + ";"@
    }
}

/// Each custom property of a theme with the field it carries: the
/// property's name is the field's, with `--` in front and `-` for `_`
/// (here followed by the colon and space of its declaration).
pub open spec fn theme_vars(t: Theme) -> Seq<(Seq<char>, Seq<char>)> {
    seq![
        ("--bg: "@, t.bg@),
        ("--bg-2: "@, t.bg_2@),
        ("--bg-elevated: "@, t.bg_elevated@),
        ("--bg-overlay: "@, t.bg_overlay@),
        ("--bg-input: "@, t.bg_input@),
        ("--border: "@, t.border@),
        ("--border-strong: "@, t.border_strong@),
        ("--text: "@, t.text@),
        ("--text-dim: "@, t.text_dim@),
        ("--text-faint: "@, t.text_faint@),
        ("--accent: "@, t.accent@),
        ("--accent-bright: "@, t.accent_bright@),
        ("--accent-soft: "@, t.accent_soft@),
        ("--accent-strong: "@, t.accent_strong@),
        ("--danger: "@, t.danger@),
        ("--danger-soft: "@, t.danger_soft@),
        ("--pin: "@, t.pin@),
        ("--grid-dot: "@, t.grid_dot@),
        ("--edge: "@, t.edge@),
        ("--edge-strong: "@, t.edge_strong@),
        ("--shadow-sm: "@, t.shadow_sm@),
        ("--shadow-lg: "@, t.shadow_lg@),
        ("--glass-blur: "@, t.glass_blur@)
    ]
}

proof fn lemma_declarations_contain(vars: Seq<(Seq<char>, Seq<char>)>, j: int)
    requires
        0 <= j < vars.len(),
    ensures
        has_run(declarations(vars), declaration(vars[j].0, vars[j].1)),
    decreases vars.len(),
{
    let front = declarations(vars.drop_last());
    let d = declaration(vars.last().0, vars.last().1);
    assert(declarations(vars) =~= front + d);
    if j == vars.len() - 1 {
        assert((front + d).subrange(front.len() as int, (front.len() + d.len()) as int) =~= d);
    } else {
        lemma_declarations_contain(vars.drop_last(), j);
        assert(vars.drop_last()[j] == vars[j]);
        let x = declaration(vars[j].0, vars[j].1);
        let i = choose|i: int| 0 <= i && i + x.len() <= front.len() && #[trigger] front.subrange(i, i + x.len()) == x;
        assert((front + d).subrange(i, i + x.len()) =~= front.subrange(i, i + x.len()));
    }
}

/// Whether `n` occurs in `h` as a run of consecutive characters.
pub open spec fn has_run(h: Seq<char>, n: Seq<char>) -> bool {
    exists|i: int| 0 <= i && i + n.len() <= h.len() && #[trigger] h.subrange(i, i + n.len()) == n
}

proof fn lemma_css_is_declarations(t: Theme)
    ensures
        css_vars_v(tokens(t)) == declarations(theme_vars(t)),
{
    let v = theme_vars(t);
    let k = tokens(t);
    assert(v.take(0) =~= Seq::<(Seq<char>, Seq<char>)>::empty());
    assert(declarations(v.take(0)) == Seq::<char>::empty());
    assert(Seq::<char>::empty() + "--bg: "@ == "--bg: "@);
    assert(v.take(1).drop_last() =~= v.take(0));
    assert(v.take(1).last() == v[0]);
    assert(v[0].1 == k[0]);
    let p1 = "--bg: "@ + k[0] + ";"@;
    assert(p1 == declarations(v.take(1)));
    assert(v.take(2).drop_last() =~= v.take(1));
    assert(v.take(2).last() == v[1]);
    assert(v[1].1 == k[1]);
    let p2 = p1 + "--bg-2: "@ + k[1] + ";"@;
    assert(p2 == declarations(v.take(2)));
    assert(v.take(3).drop_last() =~= v.take(2));
    assert(v.take(3).last() == v[2]);
    assert(v[2].1 == k[2]);
    let p3 = p2 + "--bg-elevated: "@ + k[2] + ";"@;
    assert(p3 == declarations(v.take(3)));
    assert(v.take(4).drop_last() =~= v.take(3));
    assert(v.take(4).last() == v[3]);
    assert(v[3].1 == k[3]);
    let p4 = p3 + "--bg-overlay: "@ + k[3] + ";"@;
    assert(p4 == declarations(v.take(4)));
    assert(v.take(5).drop_last() =~= v.take(4));
    assert(v.take(5).last() == v[4]);
    assert(v[4].1 == k[4]);
    let p5 = p4 + "--bg-input: "@ + k[4] + ";"@;
    assert(p5 == declarations(v.take(5)));
    assert(v.take(6).drop_last() =~= v.take(5));
    assert(v.take(6).last() == v[5]);
    assert(v[5].1 == k[5]);
    let p6 = p5 + "--border: "@ + k[5] + ";"@;
    assert(p6 == declarations(v.take(6)));
    assert(v.take(7).drop_last() =~= v.take(6));
    assert(v.take(7).last() == v[6]);
    assert(v[6].1 == k[6]);
    let p7 = p6 + "--border-strong: "@ + k[6] + ";"@;
    assert(p7 == declarations(v.take(7)));
    assert(v.take(8).drop_last() =~= v.take(7));
    assert(v.take(8).last() == v[7]);
    assert(v[7].1 == k[7]);
    let p8 = p7 + "--text: "@ + k[7] + ";"@;
    assert(p8 == declarations(v.take(8)));
    assert(v.take(9).drop_last() =~= v.take(8));
    assert(v.take(9).last() == v[8]);
    assert(v[8].1 == k[8]);
    let p9 = p8 + "--text-dim: "@ + k[8] + ";"@;
    assert(p9 == declarations(v.take(9)));
    assert(v.take(10).drop_last() =~= v.take(9));
    assert(v.take(10).last() == v[9]);
    assert(v[9].1 == k[9]);
    let p10 = p9 + "--text-faint: "@ + k[9] + ";"@;
    assert(p10 == declarations(v.take(10)));
    assert(v.take(11).drop_last() =~= v.take(10));
    assert(v.take(11).last() == v[10]);
    assert(v[10].1 == k[10]);
    let p11 = p10 + "--accent: "@ + k[10] + ";"@;
    assert(p11 == declarations(v.take(11)));
    assert(v.take(12).drop_last() =~= v.take(11));
    assert(v.take(12).last() == v[11]);
    assert(v[11].1 == k[11]);
    let p12 = p11 + "--accent-bright: "@ + k[11] + ";"@;
    assert(p12 == declarations(v.take(12)));
    assert(v.take(13).drop_last() =~= v.take(12));
    assert(v.take(13).last() == v[12]);
    assert(v[12].1 == k[12]);
    let p13 = p12 + "--accent-soft: "@ + k[12] + ";"@;
    assert(p13 == declarations(v.take(13)));
    assert(v.take(14).drop_last() =~= v.take(13));
    assert(v.take(14).last() == v[13]);
    assert(v[13].1 == k[13]);
    let p14 = p13 + "--accent-strong: "@ + k[13] + ";"@;
    assert(p14 == declarations(v.take(14)));
    assert(v.take(15).drop_last() =~= v.take(14));
    assert(v.take(15).last() == v[14]);
    assert(v[14].1 == k[14]);
    let p15 = p14 + "--danger: "@ + k[14] + ";"@;
    assert(p15 == declarations(v.take(15)));
    assert(v.take(16).drop_last() =~= v.take(15));
    assert(v.take(16).last() == v[15]);
    assert(v[15].1 == k[15]);
    let p16 = p15 + "--danger-soft: "@ + k[15] + ";"@;
    assert(p16 == declarations(v.take(16)));
    assert(v.take(17).drop_last() =~= v.take(16));
    assert(v.take(17).last() == v[16]);
    assert(v[16].1 == k[16]);
    let p17 = p16 + "--pin: "@ + k[16] + ";"@;
    assert(p17 == declarations(v.take(17)));
    assert(v.take(18).drop_last() =~= v.take(17));
    assert(v.take(18).last() == v[17]);
    assert(v[17].1 == k[17]);
    let p18 = p17 + "--grid-dot: "@ + k[17] + ";"@;
    assert(p18 == declarations(v.take(18)));
    assert(v.take(19).drop_last() =~= v.take(18));
    assert(v.take(19).last() == v[18]);
    assert(v[18].1 == k[18]);
    let p19 = p18 + "--edge: "@ + k[18] + ";"@;
    assert(p19 == declarations(v.take(19)));
    assert(v.take(20).drop_last() =~= v.take(19));
    assert(v.take(20).last() == v[19]);
    assert(v[19].1 == k[19]);
    let p20 = p19 + "--edge-strong: "@ + k[19] + ";"@;
    assert(p20 == declarations(v.take(20)));
    assert(v.take(21).drop_last() =~= v.take(20));
    assert(v.take(21).last() == v[20]);
    assert(v[20].1 == k[20]);
    let p21 = p20 + "--shadow-sm: "@ + k[20] + ";"@;
    assert(p21 == declarations(v.take(21)));
    assert(v.take(22).drop_last() =~= v.take(21));
    assert(v.take(22).last() == v[21]);
    assert(v[21].1 == k[21]);
    let p22 = p21 + "--shadow-lg: "@ + k[21] + ";"@;
    assert(p22 == declarations(v.take(22)));
    assert(v.take(23).drop_last() =~= v.take(22));
    assert(v.take(23).last() == v[22]);
    assert(v[22].1 == k[22]);
    let p23 = p22 + "--glass-blur: "@ + k[22] + ";"@;
    assert(p23 == declarations(v.take(23)));
    assert(v.take(23) =~= v);
    assert(css_vars_v(k) == p23);
}

/// A theme's custom properties are declared once each, in field order,
/// each carrying the value of the field it is named after (`--text` the
/// primary text colour, `--text-dim` the dimmed one, and so on); so the
/// declaration of every field's property, with that field's value, occurs
/// in the output.
pub proof fn lemma_css_vars_carry_fields(t: Theme)
    ensures
        css_vars_v(tokens(t)) == declarations(theme_vars(t)),
        forall|j: int| 0 <= j < theme_vars(t).len() ==> has_run(
            css_vars_v(tokens(t)),
            #[trigger] declaration(theme_vars(t)[j].0, theme_vars(t)[j].1),
        ),
        has_run(css_vars_v(tokens(t)), "--text: "@ + t.text@ + ";"@),
        has_run(css_vars_v(tokens(t)), "--text-dim: "@ + t.text_dim@ + ";"@),
{
    lemma_css_is_declarations(t);
    let v = theme_vars(t);
    assert forall|j: int| 0 <= j < v.len() implies has_run(css_vars_v(tokens(t)), #[trigger] declaration(v[j].0, v[j].1)) by {
        lemma_declarations_contain(v, j);
    }
    assert(v[7] == ("--text: "@, t.text@));
    assert(v[8] == ("--text-dim: "@, t.text_dim@));
    assert(has_run(css_vars_v(tokens(t)), declaration(v[7].0, v[7].1)));
    assert(has_run(css_vars_v(tokens(t)), declaration(v[8].0, v[8].1)));
}

impl Default for Theme {
    fn default() -> (t: Theme)
        ensures
            t.mode == ThemeMode::Dark,
            tokens(t) == dark_tokens(),
    {
        Theme::dark()
    }
}

impl Theme {
    pub fn dark() -> (t: Theme)
        ensures
            t.mode == ThemeMode::Dark,
            tokens(t) == dark_tokens(),
    {
        let t = Theme {
            mode: ThemeMode::Dark,
            bg: "#0a0e1a".to_owned(),
            bg_2: "#0e1322".to_owned(),
            bg_elevated: "rgba(22, 30, 52, 0.78)".to_owned(),
            bg_overlay: "rgba(16, 22, 40, 0.97)".to_owned(),
            bg_input: "rgba(120, 160, 230, 0.07)".to_owned(),
            border: "rgba(120, 160, 230, 0.13)".to_owned(),
            border_strong: "rgba(120, 160, 230, 0.30)".to_owned(),
            text: "#e3ecfb".to_owned(),
            text_dim: "rgba(200, 216, 245, 0.64)".to_owned(),
            text_faint: "rgba(165, 188, 232, 0.40)".to_owned(),
            accent: "#6b9be0".to_owned(),
            accent_bright: "#93c1ff".to_owned(),
            accent_soft: "rgba(110, 155, 224, 0.15)".to_owned(),
            accent_strong: "#3b82e0".to_owned(),
            danger: "#ff7d7d".to_owned(),
            danger_soft: "rgba(255, 105, 105, 0.14)".to_owned(),
            pin: "#ffc16b".to_owned(),
            grid_dot: "rgba(120, 160, 230, 0.15)".to_owned(),
            edge: "rgba(120, 160, 230, 0.50)".to_owned(),
            edge_strong: "rgba(147, 193, 255, 0.92)".to_owned(),
            shadow_sm: "0 2px 14px rgba(0, 0, 0, 0.35)".to_owned(),
            shadow_lg: "0 16px 48px rgba(0, 0, 0, 0.55), 0 0 0 0.5px rgba(120, 160, 230, 0.10)".to_owned(),
            glass_blur: "14px".to_owned(),
        };
        assert(tokens(t) =~= dark_tokens());
        t
    }

    pub fn light() -> (t: Theme)
        ensures
            t.mode == ThemeMode::Light,
            tokens(t) == light_tokens(),
    {
        let t = Theme {
            mode: ThemeMode::Light,
            bg: "#f4f6fb".to_owned(),
            bg_2: "#e6ecf7".to_owned(),
            bg_elevated: "rgba(255, 255, 255, 0.90)".to_owned(),
            bg_overlay: "rgba(255, 255, 255, 0.98)".to_owned(),
            bg_input: "rgba(45, 95, 165, 0.06)".to_owned(),
            border: "rgba(45, 95, 165, 0.15)".to_owned(),
            border_strong: "rgba(45, 95, 165, 0.32)".to_owned(),
            text: "#14233f".to_owned(),
            text_dim: "rgba(30, 55, 100, 0.68)".to_owned(),
            text_faint: "rgba(30, 55, 100, 0.42)".to_owned(),
            accent: "#3672bf".to_owned(),
            accent_bright: "#245fb0".to_owned(),
            accent_soft: "rgba(45, 110, 200, 0.10)".to_owned(),
            accent_strong: "#2f7be8".to_owned(),
            danger: "#d63d40".to_owned(),
            danger_soft: "rgba(214, 61, 64, 0.10)".to_owned(),
            pin: "#cf8a2b".to_owned(),
            grid_dot: "rgba(45, 95, 165, 0.16)".to_owned(),
            edge: "rgba(45, 95, 165, 0.42)".to_owned(),
            edge_strong: "rgba(36, 95, 176, 0.85)".to_owned(),
            shadow_sm: "0 2px 14px rgba(40, 70, 120, 0.12)".to_owned(),
            shadow_lg: "0 16px 48px rgba(40, 70, 120, 0.20), 0 0 0 0.5px rgba(45, 95, 165, 0.08)".to_owned(),
            glass_blur: "16px".to_owned(),
        };
        assert(tokens(t) =~= light_tokens());
        t
    }

    /// The light theme for light mode; the dark theme otherwise.
    pub fn from_mode(mode: ThemeMode) -> (t: Theme)
        ensures
            t.mode == if mode == ThemeMode::Light {
                ThemeMode::Light
            } else {
                ThemeMode::Dark
            },
            tokens(t) == if mode == ThemeMode::Light {
                light_tokens()
            } else {
                dark_tokens()
            },
    {
        match mode {
            ThemeMode::Light => Theme::light(),
            _ => Theme::dark(),
        }
    }

    /// The token declarations, e.g. `--bg: #0a0e1a;--text: ...;`.
    pub fn to_css_vars(&self) -> (r: String)
        ensures
            r@ == css_vars_v(tokens(*self)),
    {
        let mut out = String::new();
        out.push_str("--bg: ");
        out.push_str(self.bg.as_str());
        out.push_str(";");
        out.push_str("--bg-2: ");
        out.push_str(self.bg_2.as_str());
        out.push_str(";");
        out.push_str("--bg-elevated: ");
        out.push_str(self.bg_elevated.as_str());
        out.push_str(";");
        out.push_str("--bg-overlay: ");
        out.push_str(self.bg_overlay.as_str());
        out.push_str(";");
        out.push_str("--bg-input: ");
        out.push_str(self.bg_input.as_str());
        out.push_str(";");
        out.push_str("--border: ");
        out.push_str(self.border.as_str());
        out.push_str(";");
        out.push_str("--border-strong: ");
        out.push_str(self.border_strong.as_str());
        out.push_str(";");
        out.push_str("--text: ");
        out.push_str(self.text.as_str());
        out.push_str(";");
        out.push_str("--text-dim: ");
        out.push_str(self.text_dim.as_str());
        out.push_str(";");
        out.push_str("--text-faint: ");
        out.push_str(self.text_faint.as_str());
        out.push_str(";");
        out.push_str("--accent: ");
        out.push_str(self.accent.as_str());
        out.push_str(";");
        out.push_str("--accent-bright: ");
        out.push_str(self.accent_bright.as_str());
        out.push_str(";");
        out.push_str("--accent-soft: ");
        out.push_str(self.accent_soft.as_str());
        out.push_str(";");
        out.push_str("--accent-strong: ");
        out.push_str(self.accent_strong.as_str());
        out.push_str(";");
        out.push_str("--danger: ");
        out.push_str(self.danger.as_str());
        out.push_str(";");
        out.push_str("--danger-soft: ");
        out.push_str(self.danger_soft.as_str());
        out.push_str(";");
        out.push_str("--pin: ");
        out.push_str(self.pin.as_str());
        out.push_str(";");
        out.push_str("--grid-dot: ");
        out.push_str(self.grid_dot.as_str());
        out.push_str(";");
        out.push_str("--edge: ");
        out.push_str(self.edge.as_str());
        out.push_str(";");
        out.push_str("--edge-strong: ");
        out.push_str(self.edge_strong.as_str());
        out.push_str(";");
        out.push_str("--shadow-sm: ");
        out.push_str(self.shadow_sm.as_str());
        out.push_str(";");
        out.push_str("--shadow-lg: ");
        out.push_str(self.shadow_lg.as_str());
        out.push_str(";");
        out.push_str("--glass-blur: ");
        out.push_str(self.glass_blur.as_str());
        out.push_str(";");
        assert(out@ =~= css_vars_v(tokens(*self)));
        out
    }

    /// A full `:root { ... }` block ready to drop into a `<style>` element.
    pub fn css_root_block(&self) -> (r: String)
        ensures
            r@ == ":root { "@ + css_vars_v(tokens(*self)) + " }"@,
    {
        let mut out = String::new();
        out.push_str(":root { ");
        out.push_str(self.to_css_vars().as_str());
        out.push_str(" }");
        out
    }
}

/// Theme-agnostic global polish: fonts, scrollbars, selection, and the
/// cross-fade when the theme changes. References the tokens above.
pub const BASE_CSS: &'static str = r#"
html, body {
    background: var(--bg);
    color: var(--text);
    -webkit-font-smoothing: antialiased;
    -moz-osx-font-smoothing: grayscale;
    font-family: -apple-system, BlinkMacSystemFont, "Inter", "Segoe UI", Roboto, sans-serif;
    -webkit-user-select: none;
    user-select: none;
    cursor: default;
}
body, .pnb-themed { transition: background-color 240ms ease, color 240ms ease; }
::selection { background: var(--accent-soft); color: var(--accent-bright); }
* { scrollbar-width: thin; scrollbar-color: var(--border-strong) transparent; }
*::-webkit-scrollbar { width: 9px; height: 9px; }
*::-webkit-scrollbar-track { background: transparent; }
*::-webkit-scrollbar-thumb {
    background: var(--border-strong);
    border-radius: 6px;
    border: 2px solid transparent;
    background-clip: content-box;
}
*::-webkit-scrollbar-thumb:hover { background: var(--accent); background-clip: content-box; }
input, textarea, [contenteditable], .ProseMirror, .pnb-selectable {
    -webkit-user-select: text;
    user-select: text;
}
"#;

} // verus!

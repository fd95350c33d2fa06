use penumbra::canvas::NullCanvasRenderer;
use penumbra::embed::{fnv1a, NullEmbedder, SimpleEmbedder};
use penumbra::error::PenumbraError;
use penumbra::notes::{LinkKind, Tag};
use penumbra::storage::{dedupe_stem, dedupe_stem_lowercase, plan_stem, sanitize_title_to_stem, StemPlan};
use penumbra::sync::{urlencoding, GitSyncProvider, GoogleDriveSyncProvider};
use penumbra::text::{decimal_string, lines, split_char, starts_with, to_lowercase, trim};
use penumbra::theme::{Theme, ThemeMode, BASE_CSS};

#[test]
fn theme_mode_names() {
    assert_eq!(ThemeMode::Dark.as_str(), "dark");
    assert_eq!(ThemeMode::Light.as_str(), "light");
    assert_eq!(ThemeMode::System.as_str(), "system");
}

#[test]
fn default_theme_is_dark() {
    let t = Theme::default();
    assert_eq!(t.mode, ThemeMode::Dark);
    assert_eq!(t.bg, "#0a0e1a");
    assert_eq!(Theme::from_mode(ThemeMode::Light).mode, ThemeMode::Light);
    assert_eq!(Theme::from_mode(ThemeMode::Dark).bg, Theme::dark().bg);
}

#[test]
fn css_vars_start_with_background() {
    let t = Theme::dark();
    let vars = t.to_css_vars();
    assert!(vars.starts_with("--bg: #0a0e1a;--bg-2: #0e1322;"));
    assert!(vars.ends_with(&format!("--glass-blur: {};", t.glass_blur)));
    assert_eq!(t.css_root_block(), format!(":root {{ {} }}", vars));
    assert!(BASE_CSS.contains("var(--bg)"));
}

#[test]
fn light_and_dark_differ() {
    assert_ne!(Theme::light().bg, Theme::dark().bg);
}

#[test]
fn stem_replaces_path_separators() {
    assert_eq!(sanitize_title_to_stem("a/b"), "a-b");
}

#[test]
fn stem_collapses_whitespace_and_trims() {
    assert_eq!(sanitize_title_to_stem("  My   Note"), "My Note");
    // trailing spaces are replaced by the sanitizer before trimming
    assert_eq!(sanitize_title_to_stem("  My   Note  "), "My Note-");
}

#[test]
fn stem_drops_leading_dots_and_trailing_dots() {
    assert_eq!(sanitize_title_to_stem("..hidden"), "hidden");
    assert_eq!(sanitize_title_to_stem("..hidden.."), "hidden-");
}

#[test]
fn stem_of_empty_title_is_untitled() {
    assert_eq!(sanitize_title_to_stem(""), "Untitled");
    assert_eq!(sanitize_title_to_stem("..."), "-");
    assert_eq!(sanitize_title_to_stem("   "), "-");
}

#[test]
fn stem_is_capped() {
    let long = "x".repeat(150);
    assert_eq!(sanitize_title_to_stem(&long).chars().count(), 100);
}

#[test]
fn dedupe_keeps_free_stem() {
    let taken = vec!["Other".to_string()];
    assert_eq!(dedupe_stem("Note".to_string(), &taken), "Note");
}

#[test]
fn dedupe_appends_numbers() {
    let taken = vec!["Note".to_string(), "Note 2".to_string()];
    assert_eq!(dedupe_stem("Note".to_string(), &taken), "Note 3");
}

#[test]
fn url_encoding_of_reserved_bytes() {
    assert_eq!(urlencoding("abc-_.~XYZ09"), "abc-_.~XYZ09");
    assert_eq!(urlencoding("a b/c"), "a%20b%2Fc");
    assert_eq!(urlencoding("é"), "%C3%A9");
    assert_eq!(urlencoding(""), "");
}

#[test]
fn stub_providers_refuse_to_connect() {
    let mut g = GoogleDriveSyncProvider::new("client");
    assert!(matches!(g.connect(), Err(PenumbraError::Sync(_))));
    assert!(g.disconnect().is_ok());
    let mut git = GitSyncProvider::new("/repo", "https://example.com/r.git");
    match git.connect() {
        Err(PenumbraError::Sync(m)) => assert_eq!(m, "GitSyncProvider is not yet implemented"),
        _ => panic!("connect should fail"),
    }
    assert!(git.disconnect().is_ok());
}

#[test]
fn fnv1a_known_values() {
    assert_eq!(fnv1a(b""), 0xcbf2_9ce4_8422_2325);
    assert_eq!(fnv1a(b"a"), 0xaf63_dc4c_8601_ec8c);
}

#[test]
fn simple_embedder_dimensions() {
    assert_eq!(SimpleEmbedder::new(0).dimensions(), 1);
    assert_eq!(SimpleEmbedder::new(16).dimensions(), 16);
    assert_eq!(SimpleEmbedder::new_384().dimensions(), 384);
    assert_eq!(NullEmbedder::new(8).dimensions(), 8);
}

#[test]
fn trigram_counts_add_up() {
    let e = SimpleEmbedder::new(7);
    let counts = e.trigram_buckets("Hello");
    assert_eq!(counts.len(), 7);
    assert_eq!(counts.iter().sum::<u64>(), 3);
    let short = e.trigram_buckets("ab");
    assert_eq!(short.iter().sum::<u64>(), 0);
}

#[test]
fn trigram_counts_ignore_case() {
    let e = SimpleEmbedder::new(5);
    assert_eq!(e.trigram_buckets("ABCD"), e.trigram_buckets("abcd"));
}

#[test]
fn trigram_bucket_follows_hash() {
    let e = SimpleEmbedder::new(1000);
    let counts = e.trigram_buckets("abc");
    let bucket = (fnv1a(b"abc") % 1000) as usize;
    assert_eq!(counts[bucket], 1);
}

#[test]
fn tags_and_link_kinds() {
    let t = Tag::new("work".to_string());
    assert_eq!(t.name, "work");
    assert_eq!(t.color, None);
    let c = Tag::with_color("home".to_string(), "#fff".to_string());
    assert_eq!(c.color, Some("#fff".to_string()));
    assert_eq!(c.to_string(), "home");
    let f: Tag = Tag::from("x".to_string());
    assert_eq!(f.name, "x");
    assert_ne!(LinkKind::Explicit, LinkKind::Implicit);
}

#[test]
fn null_canvas_accepts_theme() {
    let mut r = NullCanvasRenderer::new();
    r.set_theme("--bg: #000;");
}

#[test]
fn text_helpers() {
    assert_eq!(trim("  a b \n"), "a b");
    assert_eq!(decimal_string(0), "0");
    assert_eq!(decimal_string(1203), "1203");
    assert_eq!(lines("a\nb\r\nc"), vec!["a".to_string(), "b".to_string(), "c".to_string()]);
    assert_eq!(split_char("a,,b", ','), vec!["a".to_string(), String::new(), "b".to_string()]);
    assert!(starts_with("prefix", "pre"));
    assert!(!starts_with("pre", "prefix"));
    assert_eq!(to_lowercase("ÀbC"), "àbc");
}

#[test]
fn error_variants_carry_messages() {
    let e = PenumbraError::NoteNotFound("n1".to_string());
    assert!(matches!(e, PenumbraError::NoteNotFound(ref m) if m == "n1"));
}

fn strings(v: &[&str]) -> Vec<String> {
    v.iter().map(|s| s.to_string()).collect()
}

#[test]
fn lowercase_dedupe_skips_taken_names_of_any_case() {
    let taken = strings(&["notes", "notes 2"]);
    assert_eq!(dedupe_stem_lowercase(&"Notes".to_string(), &taken), Some("Notes 3".to_string()));
    assert_eq!(dedupe_stem_lowercase(&"Other".to_string(), &taken), Some("Other".to_string()));
    assert_eq!(dedupe_stem_lowercase(&"X".to_string(), &Vec::new()), Some("X".to_string()));
}

#[test]
fn plan_keeps_a_stem_equal_but_for_case() {
    match plan_stem("Ideas".to_string(), Some("ideas".to_string()), &strings(&["ideas"])) {
        Some(StemPlan::Keep(stem)) => assert_eq!(stem, "ideas"),
        _ => panic!("expected to keep the stem"),
    }
}

#[test]
fn plan_renames_to_a_free_candidate() {
    match plan_stem("Ideas".to_string(), Some("Old".to_string()), &strings(&["ideas"])) {
        Some(StemPlan::Write { old, new }) => {
            assert_eq!(old, Some("Old".to_string()));
            assert_eq!(new, "Ideas 2");
        }
        _ => panic!("expected a rename"),
    }
    match plan_stem("Fresh".to_string(), None, &Vec::new()) {
        Some(StemPlan::Write { old, new }) => {
            assert_eq!(old, None);
            assert_eq!(new, "Fresh");
        }
        _ => panic!("expected a first write"),
    }
}

#[test]
fn a_capped_stem_does_not_end_in_a_space() {
    let title = format!("{} b", "a".repeat(99));
    assert_eq!(sanitize_title_to_stem(&title), "a".repeat(99));
}

#[test]
fn stem_replaces_refused_and_control_characters() {
    assert_eq!(sanitize_title_to_stem("a\u{7}b:c*d|e\u{85}f"), "a-b-c-d-e-f");
    let stem = sanitize_title_to_stem("x/y\\z?<>\"");
    assert!(stem.chars().all(|c| !"/\\:*?\"<>|".contains(c) && !c.is_control()));
}

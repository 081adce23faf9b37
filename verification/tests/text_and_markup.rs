use atlas::auth::error::AuthError;
use atlas::auth::hex::hex_encode;
use atlas::auth::validation::{validate_email, validate_password};
use atlas::graph::index::{index_sources, SourceFile};
use atlas::graph::extract::imports::{candidates, resolve};
use atlas::graph::extract::markdown::{heading_of, links_in, resolve_relative, slugify, unique_slug};

fn chars(s: &str) -> Vec<char> {
    s.chars().collect()
}

fn text(v: &[char]) -> String {
    v.iter().collect()
}

#[test]
fn hex_is_two_lowercase_digits_per_byte() {
    assert_eq!(hex_encode(&[0x00, 0x0f, 0xa0, 0xff]), "000fa0ff");
    assert_eq!(hex_encode(&[]), "");
}

#[test]
fn the_content_hash_is_blake3() {
    let harvest = index_sources(&[SourceFile {
        relative_path: "empty.txt".to_string(),
        extension: "txt".to_string(),
        content: String::new(),
    }]);
    assert_eq!(
        harvest.manifest[0].content_hash,
        "af1349b9f5f9a1a6a0404dea36dcc9499bcb25c9adc112b7cc9a93cae41f3262"
    );
}

#[test]
fn credentials_are_checked_before_anything_is_stored() {
    assert!(validate_email("a@b.c").is_ok());
    assert!(matches!(validate_email("   "), Err(AuthError::InvalidEmail)));
    assert!(matches!(validate_email("nobody"), Err(AuthError::InvalidEmail)));
    assert!(validate_password("12345678").is_ok());
    assert!(matches!(validate_password("1234567"), Err(AuthError::PasswordTooShort)));
}

#[test]
fn headings_carry_their_level_and_text() {
    let (level, title) = heading_of(&chars("## Setup  ")).unwrap();
    assert_eq!(level, 2);
    assert_eq!(text(&title), "Setup");
    assert!(heading_of(&chars("#hashtag")).is_none());
    assert!(heading_of(&chars("####### seven")).is_none());
}

#[test]
fn slugs_are_lowercase_words_joined_by_hyphens() {
    assert_eq!(text(&slugify(&chars("Hello, World!"))), "hello-world");
    let mut used: Vec<Vec<char>> = Vec::new();
    assert_eq!(text(&unique_slug(&chars("notes"), &mut used)), "notes");
    assert_eq!(text(&unique_slug(&chars("notes"), &mut used)), "notes-2");
    assert_eq!(text(&unique_slug(&chars("notes"), &mut used)), "notes-3");
}

#[test]
fn links_are_read_from_a_line_and_resolved_against_the_file() {
    let found: Vec<String> = links_in(&chars("see [a](x.md) and [b](../y.md#part)"))
        .iter()
        .map(|l| text(l))
        .collect();
    assert_eq!(found, vec!["x.md".to_owned(), "../y.md#part".to_owned()]);
    assert_eq!(
        resolve_relative(&chars("docs/guide/a.md"), &chars("../b.md")).map(|p| text(&p)),
        Some("docs/b.md".to_owned())
    );
}

#[test]
fn imports_resolve_relative_paths_and_skip_packages() {
    assert_eq!(resolve("src/a.ts", "./b").as_deref(), Some("src/b"));
    assert_eq!(resolve("src/a.ts", "react"), None);
    let c = candidates("src/b");
    assert_eq!(c[0], "src/b");
    assert!(c.contains(&"src/b.ts".to_owned()));
    assert!(c.contains(&"src/b/mod.rs".to_owned()));
}

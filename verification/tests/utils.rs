use dendrite_core::utils::{generate_id, normalize_path_to_id, now, slugify_heading};

#[test]
fn test_slugify_heading() {
    assert_eq!(slugify_heading("My Header"), "my-header");
    assert_eq!(slugify_heading("Hello World"), "hello-world");
    assert_eq!(slugify_heading("你好 World"), "你好-world");
    assert_eq!(slugify_heading("Hello (World)!"), "hello-world");
    assert_eq!(slugify_heading("A  B  C"), "a--b--c");
    assert_eq!(slugify_heading("🎉 Party"), "party");
    assert_eq!(slugify_heading("-Hello-"), "hello");
    assert_eq!(slugify_heading("!!!"), "");
    assert_eq!(slugify_heading("  Hello  "), "hello");
    assert_eq!(slugify_heading("你好"), "你好");
}

#[test]
fn slugify_keeps_underscores_and_digits() {
    assert_eq!(slugify_heading("Step_2 Done"), "step_2-done");
}

#[test]
fn normalize_path_to_id_strips_the_md_extension() {
    assert_eq!(normalize_path_to_id("foo/bar.md"), "foo/bar");
    assert_eq!(normalize_path_to_id("note.md"), "note");
    assert_eq!(normalize_path_to_id("note.md.md"), "note.md");
    assert_eq!(normalize_path_to_id("note"), "note");
}

#[test]
fn generate_id_is_23_url_safe_chars() {
    let id = generate_id();
    assert_eq!(id.chars().count(), 23);
    assert!(id.chars().all(|c| c.is_ascii_alphanumeric() || c == '_' || c == '-'));
    assert_ne!(generate_id(), generate_id());
}

#[test]
fn now_is_after_2020() {
    assert!(now().unwrap() > 1_577_836_800_000);
}

#[test]
fn slugifying_an_ascii_anchor_again_keeps_it() {
    for text in ["My Cool Header", "Hello (World)!", "A  B", "-Hello-", "!!!", "Mixed_CASE-text 42"] {
        let once = slugify_heading(text);
        assert!(once.is_ascii());
        assert_eq!(slugify_heading(&once), once);
    }
    assert_eq!(slugify_heading("Mixed_CASE-text 42"), "mixed_case-text-42");
}

use sitegen::registry::SlugRegistry;
use sitegen::slug::slugify;

#[test]
fn slugify_basic() {
    assert_eq!(slugify("Hello, World!"), "hello-world");
}

#[test]
fn slugify_collapses_runs() {
    assert_eq!(slugify("--a--b--"), "a-b");
    assert_eq!(slugify("a   b"), "a-b");
    assert_eq!(slugify("A_B-C"), "a-b-c");
}

#[test]
fn slugify_empty_results() {
    assert_eq!(slugify(""), "");
    assert_eq!(slugify("!!!"), "");
    assert_eq!(slugify("   "), "");
}

#[test]
fn slugify_keeps_digits() {
    assert_eq!(slugify("Chapter 12: The End"), "chapter-12-the-end");
}

#[test]
fn slugify_idempotent_samples() {
    for s in [
        "Hello, World!",
        "  spaced  out  ",
        "MiXeD CaSe 42",
        "---",
        "a",
        "Ünicode stays dashed",
    ] {
        let once = slugify(s);
        let twice = slugify(&once);
        assert_eq!(twice, once);
    }
}

#[test]
fn slugify_output_shape() {
    let r = slugify("  **Wild** ++input++ 77  ");
    assert!(!r.starts_with('-') && !r.ends_with('-'));
    assert!(!r.contains("--"));
    assert!(r.chars().all(|c| c.is_ascii_lowercase() || c.is_ascii_digit() || c == '-'));
}

#[test]
fn reserve_first_assignment_is_final() {
    let mut reg = SlugRegistry::new();
    let first = reg.reserve("doc1", "alpha");
    assert_eq!(first, "alpha");
    let again = reg.reserve("doc1", "completely-different");
    assert_eq!(again, "alpha");
    let third = reg.reserve("doc1", "alpha");
    assert_eq!(third, "alpha");
}

#[test]
fn reserve_collision_suffixes() {
    let mut reg = SlugRegistry::new();
    let a = reg.reserve("doc-a", "intro");
    let b = reg.reserve("doc-b", "intro");
    let c = reg.reserve("doc-c", "intro");
    assert_eq!(a, "intro");
    assert_eq!(b, "intro-2");
    assert_eq!(c, "intro-3");
    assert_ne!(a, b);
    assert_ne!(b, c);
}

#[test]
fn reserve_finds_slug_later() {
    let mut reg = SlugRegistry::new();
    reg.reserve("doc1", "alpha");
    let found = reg.find_slug("doc1");
    assert_eq!(found.as_deref(), Some("alpha"));
    assert!(reg.find_slug("doc2").is_none());
    assert!(reg.slug_in_use("alpha"));
    assert!(!reg.slug_in_use("beta"));
}

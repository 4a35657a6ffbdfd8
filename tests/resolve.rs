use rpam_motd::{
    compare_names, file_step, is_mask_target, locate_file, locate_snippets, output_order,
    parse_args, Entry, FileStep, Probe, SnippetMap, MASK_TARGET,
};
use std::cmp::Ordering;

fn strings(v: &[&str]) -> Vec<String> {
    v.iter().map(|s| s.to_string()).collect()
}

fn entry<'a>(name: &str, probe: Probe<&'a str>) -> Entry<&'a str> {
    Entry { name: name.to_string(), probe }
}

fn merged_pairs<'a>(dirs: Vec<Vec<Entry<&'a str>>>) -> Vec<(String, &'a str)> {
    locate_snippets(dirs)
        .into_entries()
        .into_iter()
        .map(|s| (s.name, s.source))
        .collect()
}

#[test]
fn file_mask_vetoes_lower_candidates() {
    let probes = vec![Probe::Masked, Probe::Opened("B"), Probe::Opened("C")];
    assert_eq!(locate_file(probes), None);
}

#[test]
fn file_falls_back_past_missing() {
    let probes = vec![Probe::Unavailable, Probe::Opened("B")];
    assert_eq!(locate_file(probes), Some("B"));
}

#[test]
fn file_first_opened_wins() {
    let probes = vec![Probe::Opened("A"), Probe::Masked, Probe::Opened("C")];
    assert_eq!(locate_file(probes), Some("A"));
}

#[test]
fn file_mask_after_missing_vetoes() {
    let probes = vec![Probe::Unavailable, Probe::Masked, Probe::Opened("C")];
    assert_eq!(locate_file(probes), None);
}

#[test]
fn file_none_when_all_missing_or_empty() {
    assert_eq!(locate_file(vec![Probe::<&str>::Unavailable, Probe::Unavailable]), None);
    assert_eq!(locate_file(Vec::<Probe<&str>>::new()), None);
}

#[test]
fn file_step_decisions() {
    assert!(matches!(file_step(Probe::<u8>::Masked), FileStep::Done(None)));
    assert!(matches!(file_step(Probe::Opened(7u8)), FileStep::Done(Some(7))));
    assert!(matches!(file_step(Probe::<u8>::Unavailable), FileStep::Continue));
}

#[test]
fn mask_target_is_exact_text() {
    assert!(is_mask_target("/dev/null"));
    assert!(is_mask_target(MASK_TARGET));
    assert!(!is_mask_target("/dev/null/"));
    assert!(!is_mask_target("/dev//null"));
    assert!(!is_mask_target("dev/null"));
    assert!(!is_mask_target("/DEV/NULL"));
    assert!(!is_mask_target(""));
}

#[test]
fn directory_override_highest_wins() {
    let dirs = vec![
        vec![entry("banner", Probe::Opened("high"))],
        vec![],
        vec![entry("banner", Probe::Opened("low"))],
    ];
    assert_eq!(merged_pairs(dirs), vec![("banner".to_string(), "high")]);
}

#[test]
fn mask_over_override() {
    let dirs = vec![
        vec![entry("banner", Probe::Masked)],
        vec![entry("banner", Probe::Opened("x"))],
        vec![],
    ];
    assert_eq!(merged_pairs(dirs), Vec::<(String, &str)>::new());
}

#[test]
fn mask_in_lower_directory_does_not_hide_higher() {
    let dirs = vec![
        vec![entry("banner", Probe::Opened("top"))],
        vec![entry("banner", Probe::Masked)],
    ];
    assert_eq!(merged_pairs(dirs), vec![("banner".to_string(), "top")]);
}

#[test]
fn unavailable_entry_does_not_override() {
    let dirs = vec![
        vec![entry("banner", Probe::Unavailable)],
        vec![entry("banner", Probe::Opened("low"))],
    ];
    assert_eq!(merged_pairs(dirs), vec![("banner".to_string(), "low")]);
}

#[test]
fn snippets_come_out_in_name_order() {
    let dirs = vec![
        vec![entry("b", Probe::Opened("B"))],
        vec![entry("c", Probe::Opened("C")), entry("a", Probe::Opened("A"))],
    ];
    assert_eq!(
        merged_pairs(dirs),
        vec![("a".to_string(), "A"), ("b".to_string(), "B"), ("c".to_string(), "C")]
    );
    let other = vec![
        vec![entry("a", Probe::Opened("A"))],
        vec![entry("b", Probe::Opened("B")), entry("c", Probe::Opened("C"))],
    ];
    assert_eq!(
        merged_pairs(other),
        vec![("a".to_string(), "A"), ("b".to_string(), "B"), ("c".to_string(), "C")]
    );
}

#[test]
fn snippet_names_order_by_characters() {
    let dirs = vec![vec![
        entry("é", Probe::Opened("e-acute")),
        entry("z", Probe::Opened("z")),
        entry("Z", Probe::Opened("upper")),
        entry("ab", Probe::Opened("ab")),
        entry("a", Probe::Opened("a")),
    ]];
    let names: Vec<String> = merged_pairs(dirs).into_iter().map(|(n, _)| n).collect();
    assert_eq!(names, strings(&["Z", "a", "ab", "z", "é"]));
}

#[test]
fn no_directories_give_no_snippets() {
    assert_eq!(merged_pairs(vec![]), Vec::<(String, &str)>::new());
}

#[test]
fn apply_reports_displaced_source() {
    let mut m: SnippetMap<u32> = SnippetMap::new();
    assert_eq!(m.apply("x".to_string(), Probe::Opened(1)), None);
    assert_eq!(m.apply("x".to_string(), Probe::Opened(2)), Some(1));
    assert_eq!(m.apply("x".to_string(), Probe::Unavailable), None);
    assert_eq!(m.len(), 1);
    assert_eq!(m.apply("x".to_string(), Probe::Masked), Some(2));
    assert_eq!(m.len(), 0);
    assert_eq!(m.apply("x".to_string(), Probe::Masked), None);
}

#[test]
fn compare_names_orders() {
    assert_eq!(compare_names("a", "b"), Ordering::Less);
    assert_eq!(compare_names("b", "a"), Ordering::Greater);
    assert_eq!(compare_names("ab", "ab"), Ordering::Equal);
    assert_eq!(compare_names("ab", "abc"), Ordering::Less);
    assert_eq!(compare_names("", "a"), Ordering::Less);
    assert_eq!(compare_names("B", "a"), Ordering::Less);
}

#[test]
fn default_configuration() {
    let (files, dirs) = parse_args(vec![]);
    assert_eq!(files, strings(&["/etc/motd", "/run/motd", "/usr/lib/motd"]));
    assert_eq!(dirs, strings(&["/etc/motd.d/", "/run/motd.d/", "/usr/lib/motd.d/"]));
}

#[test]
fn malformed_and_unknown_tokens_ignored() {
    let (files, dirs) = parse_args(strings(&["garbage", "motd=/a", "foo=bar", "motd_dir=/d"]));
    assert_eq!(files, strings(&["/a"]));
    assert_eq!(dirs, strings(&["/d"]));
    let (files, dirs) = parse_args(strings(&["garbage", "foo=bar"]));
    assert!(files.is_empty());
    assert!(dirs.is_empty());
}

#[test]
fn tokens_keep_their_order() {
    let (files, dirs) = parse_args(strings(&[
        "motd_dir=/d2",
        "motd=/f1",
        "motd_dir=/d1",
        "motd=/f2",
    ]));
    assert_eq!(files, strings(&["/f1", "/f2"]));
    assert_eq!(dirs, strings(&["/d2", "/d1"]));
}

#[test]
fn token_splits_at_first_equals() {
    let (files, dirs) = parse_args(strings(&["motd=/a=b", "motd=", "=x", "MOTD=/c", "motd_dir"]));
    assert_eq!(files, strings(&["/a=b", ""]));
    assert!(dirs.is_empty());
}

#[test]
fn output_primary_then_snippets() {
    let snippets = locate_snippets(vec![vec![
        entry("b", Probe::Opened("bee")),
        entry("a", Probe::Opened("ay")),
    ]]);
    assert_eq!(output_order(Some("main"), snippets), vec!["main", "ay", "bee"]);
    let snippets = locate_snippets(vec![vec![entry("a", Probe::Opened("ay"))]]);
    assert_eq!(output_order(None, snippets), vec!["ay"]);
}

#[test]
fn output_keeps_content_unchanged() {
    let body = "line one\nline two\n\u{0}binary\n".to_string();
    let snippets = locate_snippets(vec![vec![Entry {
        name: "n".to_string(),
        probe: Probe::Opened(body.clone().into_bytes()),
    }]]);
    let out = output_order(Some(b"head".to_vec()), snippets);
    assert_eq!(out, vec![b"head".to_vec(), body.into_bytes()]);
}

use deemenu::index::{build_index, insert_name, is_listed_entry, scan_dirs};

fn s(x: &str) -> String {
    x.to_string()
}

#[test]
fn index_is_sorted_and_unique() {
    let entries = vec![
        (s("vim"), false),
        (s("ls"), false),
        (s("Zed"), false),
        (s("vim"), false),
        (s("a"), false),
        (s("éclair"), false),
        (s("ab"), false),
    ];
    let r = build_index(entries);
    assert_eq!(r, vec![s("Zed"), s("a"), s("ab"), s("ls"), s("vim"), s("éclair")]);
    let mut sorted = r.clone();
    sorted.sort();
    sorted.dedup();
    assert_eq!(r, sorted);
}

#[test]
fn index_skips_hidden_and_directories() {
    let entries = vec![
        (s(".hidden"), false),
        (s("subdir"), true),
        (s("tool"), false),
        (s("link-to-script"), false),
    ];
    assert_eq!(build_index(entries), vec![s("link-to-script"), s("tool")]);
}

#[test]
fn index_of_nothing_is_empty() {
    assert!(build_index(Vec::new()).is_empty());
}

#[test]
fn index_ignores_listing_order() {
    let a = vec![(s("b"), false), (s("a"), false), (s("c"), false), (s("a"), false)];
    let b = vec![(s("c"), false), (s("a"), false), (s("b"), false)];
    assert_eq!(build_index(a), build_index(b));
}

#[test]
fn insert_keeps_order() {
    let mut v = vec![s("b"), s("d")];
    insert_name(&mut v, s("c"));
    insert_name(&mut v, s("a"));
    insert_name(&mut v, s("e"));
    insert_name(&mut v, s("c"));
    assert_eq!(v, vec![s("a"), s("b"), s("c"), s("d"), s("e")]);
}

#[test]
fn listed_entry_rules() {
    assert!(is_listed_entry("firefox", false));
    assert!(!is_listed_entry("firefox", true));
    assert!(!is_listed_entry(".profile", false));
    assert!(!is_listed_entry("", true));
    assert!(is_listed_entry("", false));
}

#[test]
fn fallbacks_appended_when_missing() {
    let r = scan_dirs(vec![s("/home/u/bin"), s("/bin")]);
    assert_eq!(
        r,
        vec![
            s("/home/u/bin"),
            s("/bin"),
            s("/usr/bin"),
            s("/usr/local/bin"),
            s("/snap/bin"),
            s("/var/lib/flatpak/exports/bin"),
            s("/sbin"),
            s("/usr/sbin"),
        ]
    );
}

#[test]
fn fallbacks_alone_for_empty_path() {
    let r = scan_dirs(Vec::new());
    assert_eq!(r.len(), 7);
    assert_eq!(r[0], "/usr/bin");
    assert_eq!(r[6], "/usr/sbin");
}

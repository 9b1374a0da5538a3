use oma_core::auth::store::parse_text;
use oma_core::auth::store::regular_files;
use oma_core::auth::AuthConfig;
use oma_core::auth::AuthConfigEntry;
use oma_core::auth::AuthConfigError;
use oma_core::auth::DirItem;
use oma_core::auth::FileRead;
use std::io::Error;
use std::io::ErrorKind;

fn entry(line: &str) -> AuthConfigEntry {
    match AuthConfigEntry::from_str(line) {
        Ok(e) => e,
        Err(e) => panic!("{}", e.message()),
    }
}

fn missing(line: &str) -> &'static str {
    match AuthConfigEntry::from_str(line) {
        Err(AuthConfigError::MissingEntry(field)) => field,
        Err(e) => panic!("{}", e.message()),
        Ok(_) => panic!("an entry was read"),
    }
}

fn file(path: &str, text: &str) -> FileRead {
    FileRead { path: path.to_string(), content: Ok(text.to_string()) }
}

fn triple(e: &AuthConfigEntry) -> (&str, &str, &str) {
    (e.host.as_str(), e.user.as_str(), e.password.as_str())
}

#[test]
fn parses_a_plain_entry() {
    let e = entry("machine example.org login alice password secret");
    assert_eq!(triple(&e), ("example.org", "alice", "secret"));
}

#[test]
fn field_order_is_free() {
    let e = entry("login alice password secret machine example.org");
    assert_eq!(triple(&e), ("example.org", "alice", "secret"));
    let e = entry("password secret machine example.org login alice");
    assert_eq!(triple(&e), ("example.org", "alice", "secret"));
}

#[test]
fn missing_password_is_reported() {
    assert_eq!(missing("machine example.org login alice"), "password");
}

#[test]
fn missing_login_is_reported() {
    assert_eq!(missing("machine example.org password secret"), "login");
}

#[test]
fn missing_machine_is_reported_first() {
    assert_eq!(missing(""), "machine");
    assert_eq!(missing("   \t "), "machine");
    assert_eq!(missing("hello world"), "machine");
    assert_eq!(missing("login alice"), "machine");
}

#[test]
fn key_without_value_is_reported() {
    assert_eq!(missing("machine"), "machine");
    assert_eq!(missing("machine example.org login"), "login");
    assert_eq!(missing("machine example.org login alice password"), "password");
    assert_eq!(missing("login alice password secret machine"), "machine");
}

#[test]
fn comment_word_is_set_aside() {
    let e = entry("machine example.org #foo login alice password secret");
    assert_eq!(triple(&e), ("example.org", "alice", "secret"));
    let e = entry("#foo machine example.org login alice password secret #bar");
    assert_eq!(triple(&e), ("example.org", "alice", "secret"));
    assert_eq!(missing("machine example.org login alice password #secret"), "password");
}

#[test]
fn hash_inside_a_word_is_not_special() {
    let e = entry("machine example.org login al#ice password se#cret#");
    assert_eq!(triple(&e), ("example.org", "al#ice", "se#cret#"));
}

#[test]
fn last_occurrence_of_a_key_wins() {
    let e = entry("machine a.com machine b.com login u password p");
    assert_eq!(e.host, "b.com");
    assert_eq!(triple(&e), ("b.com", "u", "p"));
    let e = entry("login x machine a.com login y password p password q");
    assert_eq!(triple(&e), ("a.com", "y", "q"));
}

#[test]
fn every_position_is_looked_at_for_a_key() {
    let e = entry("machine login password x");
    assert_eq!(triple(&e), ("login", "password", "x"));
}

#[test]
fn unknown_words_are_passed_over() {
    let e = entry("scheme https machine example.org via proxy login alice password secret");
    assert_eq!(triple(&e), ("example.org", "alice", "secret"));
}

#[test]
fn all_ascii_white_space_separates() {
    let e = entry("\tmachine\x0Cexample.org\r login  alice\tpassword secret\r");
    assert_eq!(triple(&e), ("example.org", "alice", "secret"));
}

#[test]
fn other_white_space_does_not_separate() {
    let e = entry("machine a\u{a0}b login \u{3000}alice password s\u{b}t");
    assert_eq!(triple(&e), ("a\u{a0}b", "\u{3000}alice", "s\u{b}t"));
}

#[test]
fn values_are_kept_verbatim() {
    let e = entry("machine h\u{f6}st.example login \u{7528}\u{6237} password p\"a\\ss");
    assert_eq!(triple(&e), ("h\u{f6}st.example", "\u{7528}\u{6237}", "p\"a\\ss"));
}

#[test]
fn comment_line_gives_no_entry() {
    let found = parse_text("# machine example.org login a password b").ok().unwrap();
    assert_eq!(found.len(), 0);
    let found = parse_text("  \t# machine example.org login a password b\n#\n").ok().unwrap();
    assert_eq!(found.len(), 0);
}

#[test]
fn text_gives_its_entries_in_line_order() {
    let text = "machine a.org login a password 1\n# note\nmachine b.org login b password 2\r\nmachine c.org login c password 3";
    let found = parse_text(text).ok().unwrap();
    assert_eq!(found.len(), 3);
    assert_eq!(triple(&found[0]), ("a.org", "a", "1"));
    assert_eq!(triple(&found[1]), ("b.org", "b", "2"));
    assert_eq!(triple(&found[2]), ("c.org", "c", "3"));
}

#[test]
fn empty_text_gives_no_entry() {
    assert_eq!(parse_text("").ok().unwrap().len(), 0);
}

#[test]
fn final_line_feed_adds_no_line() {
    let found = parse_text("machine a.org login a password 1\n").ok().unwrap();
    assert_eq!(found.len(), 1);
}

#[test]
fn blank_line_is_a_line_without_entry() {
    let r = parse_text("machine a.org login a password 1\n\nmachine b.org login b password 2\n");
    assert!(matches!(r, Err(AuthConfigError::MissingEntry("machine"))));
    let r = parse_text("\n");
    assert!(matches!(r, Err(AuthConfigError::MissingEntry("machine"))));
}

#[test]
fn first_bad_line_decides_the_failure() {
    let r = parse_text("machine a.org login a\nmachine b.org password 2\n");
    assert!(matches!(r, Err(AuthConfigError::MissingEntry("password"))));
}

#[test]
fn find_resolves_each_host() {
    let files = vec![
        file("/etc/apt/auth.conf.d/a.conf", "machine a.example login alice password one\n"),
        file("/etc/apt/auth.conf.d/b.conf", "machine b.example login bob password two\n"),
    ];
    let store = AuthConfig::from_files(files).ok().unwrap();
    assert_eq!(store.inner.len(), 2);
    assert_eq!(triple(store.find("a.example").unwrap()), ("a.example", "alice", "one"));
    assert_eq!(triple(store.find("b.example").unwrap()), ("b.example", "bob", "two"));
    assert!(store.find("c.example").is_none());
}

#[test]
fn find_compares_case_and_all() {
    let store = AuthConfig::from_files(vec![file("a", "machine a.example login alice password one")])
        .ok()
        .unwrap();
    assert!(store.find("A.example").is_none());
    assert!(store.find("a.example ").is_none());
    assert!(store.find("a.exampl").is_none());
    assert!(store.find("").is_none());
    assert!(store.find("a.example").is_some());
}

#[test]
fn find_returns_the_entry_met_first() {
    let files = vec![
        file("a", "machine x.example login first password 1\nmachine x.example login second password 2\n"),
        file("b", "machine x.example login third password 3\n"),
    ];
    let store = AuthConfig::from_files(files).ok().unwrap();
    assert_eq!(store.inner.len(), 3);
    assert_eq!(triple(store.find("x.example").unwrap()), ("x.example", "first", "1"));
    let files = vec![
        file("b", "machine x.example login third password 3\n"),
        file("a", "machine x.example login first password 1\n"),
    ];
    let store = AuthConfig::from_files(files).ok().unwrap();
    assert_eq!(triple(store.find("x.example").unwrap()), ("x.example", "third", "3"));
}

#[test]
fn one_bad_line_fails_the_whole_build() {
    let items = vec![
        DirItem::File(file("/d/good.conf", "machine a.example login alice password one\n")),
        DirItem::File(file("/d/bad.conf", "machine b.example login bob\n")),
    ];
    let r = AuthConfig::from_path("/d", Ok(items));
    assert!(matches!(r, Err(AuthConfigError::MissingEntry("password"))));
    let items = vec![
        DirItem::File(file("/d/bad.conf", "nothing here\n")),
        DirItem::File(file("/d/good.conf", "machine a.example login alice password one\n")),
    ];
    let r = AuthConfig::from_path("/d", Ok(items));
    assert!(matches!(r, Err(AuthConfigError::MissingEntry("machine"))));
}

#[test]
fn unreadable_directory_is_reported_with_its_path() {
    let r = AuthConfig::from_path("/no/such/dir", Err(Error::new(ErrorKind::NotFound, "gone")));
    match r {
        Err(AuthConfigError::ReadDir { path, err }) => {
            assert_eq!(path, "/no/such/dir");
            assert_eq!(err.kind(), ErrorKind::NotFound);
        }
        _ => panic!("expected ReadDir"),
    }
}

#[test]
fn failed_step_is_reported_before_any_file() {
    let items = vec![
        DirItem::File(file("/d/bad.conf", "machine b.example login bob\n")),
        DirItem::File(FileRead {
            path: "/d/locked.conf".to_string(),
            content: Err(Error::new(ErrorKind::PermissionDenied, "locked")),
        }),
        DirItem::Failed(Error::new(ErrorKind::Interrupted, "first")),
        DirItem::Failed(Error::new(ErrorKind::Other, "second")),
    ];
    match AuthConfig::from_path("/d", Ok(items)) {
        Err(AuthConfigError::DirEntry(err)) => assert_eq!(err.kind(), ErrorKind::Interrupted),
        _ => panic!("expected DirEntry"),
    }
}

#[test]
fn unreadable_file_is_reported_with_its_path() {
    let items = vec![
        DirItem::File(file("/d/a.conf", "machine a.example login alice password one\n")),
        DirItem::File(FileRead {
            path: "/d/locked.conf".to_string(),
            content: Err(Error::new(ErrorKind::PermissionDenied, "locked")),
        }),
        DirItem::File(file("/d/bad.conf", "machine b.example login bob\n")),
    ];
    match AuthConfig::from_path("/d", Ok(items)) {
        Err(AuthConfigError::OpenFile { path, err }) => {
            assert_eq!(path, "/d/locked.conf");
            assert_eq!(err.kind(), ErrorKind::PermissionDenied);
        }
        _ => panic!("expected OpenFile"),
    }
}

#[test]
fn bad_line_before_an_unreadable_file_decides() {
    let items = vec![
        DirItem::File(file("/d/bad.conf", "machine b.example login bob\n")),
        DirItem::File(FileRead {
            path: "/d/locked.conf".to_string(),
            content: Err(Error::new(ErrorKind::PermissionDenied, "locked")),
        }),
    ];
    let r = AuthConfig::from_path("/d", Ok(items));
    assert!(matches!(r, Err(AuthConfigError::MissingEntry("password"))));
}

#[test]
fn what_is_no_regular_file_is_passed_over() {
    let items = vec![
        DirItem::Other,
        DirItem::File(file("/d/a.conf", "machine a.example login alice password one\n")),
        DirItem::Other,
        DirItem::File(file("/d/b.conf", "# nothing\n")),
        DirItem::File(file("/d/c.conf", "machine c.example login carol password three\n")),
    ];
    let files = regular_files("/d", Ok(items)).ok().unwrap();
    let paths: Vec<&str> = files.iter().map(|f| f.path.as_str()).collect();
    assert_eq!(paths, vec!["/d/a.conf", "/d/b.conf", "/d/c.conf"]);
    let store = AuthConfig::from_files(files).ok().unwrap();
    assert_eq!(store.inner.len(), 2);
    assert_eq!(triple(&store.inner[0]), ("a.example", "alice", "one"));
    assert_eq!(triple(&store.inner[1]), ("c.example", "carol", "three"));
}

#[test]
fn empty_directory_gives_an_empty_store() {
    let store = AuthConfig::from_path("/d", Ok(vec![])).ok().unwrap();
    assert_eq!(store.inner.len(), 0);
    assert!(store.find("a.example").is_none());
}

#[test]
fn system_directory_lies_under_the_root() {
    assert_eq!(AuthConfig::system_dir("/"), "/etc/apt/auth.conf.d");
    assert_eq!(AuthConfig::system_dir("/mnt/root"), "/mnt/root/etc/apt/auth.conf.d");
    assert_eq!(AuthConfig::system_dir("/mnt/root/"), "/mnt/root/etc/apt/auth.conf.d");
    assert_eq!(AuthConfig::system_dir(""), "etc/apt/auth.conf.d");
    assert_eq!(AuthConfig::system_dir("chroot"), "chroot/etc/apt/auth.conf.d");
}

#[test]
fn system_reports_its_directory() {
    let r = AuthConfig::system("/srv/jail", Err(Error::new(ErrorKind::NotFound, "gone")));
    match r {
        Err(AuthConfigError::ReadDir { path, err }) => {
            assert_eq!(path, "/srv/jail/etc/apt/auth.conf.d");
            assert_eq!(err.kind(), ErrorKind::NotFound);
        }
        _ => panic!("expected ReadDir"),
    }
    let items = vec![DirItem::File(file("f", "machine a.example login alice password one"))];
    let store = AuthConfig::system("/", Ok(items)).ok().unwrap();
    assert_eq!(triple(store.find("a.example").unwrap()), ("a.example", "alice", "one"));
}

#[test]
fn failures_describe_themselves() {
    let e = AuthConfigError::ReadDir { path: "/d".to_string(), err: Error::new(ErrorKind::NotFound, "x") };
    assert_eq!(e.message(), "Failed to read dir: /d");
    let e = AuthConfigError::DirEntry(Error::new(ErrorKind::Other, "x"));
    assert_eq!(e.message(), "Failed to read dir entry");
    let e = AuthConfigError::OpenFile { path: "/d/f".to_string(), err: Error::new(ErrorKind::Other, "x") };
    assert_eq!(e.message(), "Failed to open file: /d/f");
    let e = AuthConfigError::MissingEntry("login");
    assert_eq!(e.message(), "Auth config file missing entry: login");
}

#[test]
fn entry_parses_from_a_string() {
    let e: AuthConfigEntry = "machine example.org login alice password secret".parse().ok().unwrap();
    assert_eq!(triple(&e), ("example.org", "alice", "secret"));
    let r = "machine example.org".parse::<AuthConfigEntry>();
    assert!(matches!(r, Err(AuthConfigError::MissingEntry("login"))));
    let r = <AuthConfigEntry as std::str::FromStr>::from_str("login alice password secret");
    assert!(matches!(r, Err(AuthConfigError::MissingEntry("machine"))));
}

use indexmap::IndexMap;
use oma_core::mirror::before;
use oma_core::mirror::name_lt;
use oma_core::mirror::page_size;
use oma_core::mirror::sort_mirrors;
use oma_core::mirror::Mirror;

fn mirror() -> Mirror {
    Mirror { desc: "baka".into(), url: "bala".into() }
}

fn names<'a>(mirrors: &[(&'a str, &Mirror)]) -> Vec<&'a str> {
    mirrors.iter().map(|x| x.0).collect::<Vec<_>>()
}

#[test]
fn test_sort() {
    let enabled: IndexMap<Box<str>, Box<str>> = IndexMap::new();
    let m1 = Mirror { desc: "baka".into(), url: "bala".into() };

    let m2 = Mirror { desc: "baka".into(), url: "bala".into() };

    let m3 = Mirror { desc: "baka".into(), url: "bala".into() };

    let mut mirrors = vec![("b", &m1), ("a", &m2)];

    sort_mirrors(&mut mirrors, &enabled);

    assert_eq!(mirrors.iter().map(|x| x.0).collect::<Vec<_>>(), vec!["a", "b"]);

    let mut enabled: IndexMap<Box<str>, Box<str>> = IndexMap::new();
    enabled.insert("c".into(), "baka".into());
    let mut mirrors = vec![("b", &m1), ("a", &m2), ("c", &m3)];

    sort_mirrors(&mut mirrors, &enabled);

    assert_eq!(mirrors.iter().map(|x| x.0).collect::<Vec<_>>(), vec!["c", "a", "b"]);
}

#[test]
fn sort_keeps_each_mirror_with_its_name() {
    let a = Mirror { desc: "first".into(), url: "https://a.example/".into() };
    let b = Mirror { desc: "second".into(), url: "https://b.example/".into() };
    let c = Mirror { desc: "third".into(), url: "https://c.example/".into() };
    let d = Mirror { desc: "fourth".into(), url: "https://d.example/".into() };
    let mut enabled: IndexMap<Box<str>, Box<str>> = IndexMap::new();
    enabled.insert("central".into(), "x".into());
    enabled.insert("delta".into(), "y".into());
    let mut mirrors = vec![("zeta", &a), ("central", &b), ("alpha", &c), ("delta", &d)];
    sort_mirrors(&mut mirrors, &enabled);
    assert_eq!(names(&mirrors), vec!["central", "delta", "alpha", "zeta"]);
    let descs: Vec<&str> = mirrors.iter().map(|x| x.1.desc.as_str()).collect();
    assert_eq!(descs, vec!["second", "fourth", "third", "first"]);
}

#[test]
fn sort_of_nothing_and_of_one() {
    let enabled: IndexMap<Box<str>, Box<str>> = IndexMap::new();
    let m = mirror();
    let mut mirrors: Vec<(&str, &Mirror)> = vec![];
    sort_mirrors(&mut mirrors, &enabled);
    assert_eq!(mirrors.len(), 0);
    let mut mirrors = vec![("only", &m)];
    sort_mirrors(&mut mirrors, &enabled);
    assert_eq!(names(&mirrors), vec!["only"]);
}

#[test]
fn sort_keeps_names_that_occur_twice() {
    let enabled: IndexMap<Box<str>, Box<str>> = IndexMap::new();
    let m = mirror();
    let mut mirrors = vec![("b", &m), ("a", &m), ("b", &m), ("a", &m), ("", &m)];
    sort_mirrors(&mut mirrors, &enabled);
    assert_eq!(names(&mirrors), vec!["", "a", "a", "b", "b"]);
}

#[test]
fn sort_goes_by_bytes() {
    let enabled: IndexMap<Box<str>, Box<str>> = IndexMap::new();
    let m = mirror();
    let mut mirrors = vec![("b", &m), ("\u{e9}", &m), ("ab", &m), ("B", &m), ("a", &m), ("\u{4e2d}", &m), ("Z", &m)];
    sort_mirrors(&mut mirrors, &enabled);
    let mut expected = vec!["b", "\u{e9}", "ab", "B", "a", "\u{4e2d}", "Z"];
    expected.sort_unstable();
    assert_eq!(names(&mirrors), expected);
    assert_eq!(names(&mirrors), vec!["B", "Z", "a", "ab", "b", "\u{e9}", "\u{4e2d}"]);
}

#[test]
fn names_compare_as_strings_do() {
    let words = ["", "a", "ab", "b", "B", "abc", "\u{e9}", "\u{4e2d}", "\u{1f600}", "a\u{0}", "~"];
    for a in words {
        for b in words {
            assert_eq!(name_lt(a, b), a < b);
        }
    }
}

#[test]
fn enabled_mirrors_come_first() {
    let mut enabled: IndexMap<Box<str>, Box<str>> = IndexMap::new();
    enabled.insert("z".into(), "on".into());
    assert!(before(&enabled, "z", "a"));
    assert!(!before(&enabled, "a", "z"));
    assert!(before(&enabled, "a", "b"));
    assert!(!before(&enabled, "b", "a"));
    assert!(!before(&enabled, "a", "a"));
    assert!(!before(&enabled, "z", "z"));
    enabled.insert("y".into(), "on".into());
    assert!(before(&enabled, "y", "z"));
    assert!(!before(&enabled, "z", "y"));
}

#[test]
fn page_leaves_six_rows_free() {
    assert_eq!(page_size(1), 1);
    assert_eq!(page_size(6), 1);
    assert_eq!(page_size(7), 1);
    assert_eq!(page_size(8), 2);
    assert_eq!(page_size(24), 18);
    assert_eq!(page_size(25), 19);
    assert_eq!(page_size(26), 20);
    assert_eq!(page_size(27), 20);
    assert_eq!(page_size(u16::MAX), 20);
}

#[test]
fn label_shows_description_and_name() {
    let m = Mirror { desc: "Main repository".into(), url: "https://repo.example/".into() };
    assert_eq!(m.label("central"), "Main repository (central)");
    assert_eq!(mirror().label(""), "baka ()");
}

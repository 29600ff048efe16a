use ruskcov::filter::{Filter, FilterSide};

fn strings(list: &[&str]) -> Vec<String> {
    list.iter().map(|s| s.to_string()).collect()
}

#[test]
fn keeping_wins_over_excluding() {
    let filter = Filter::new(&strings(&["^/home/me/src"]), &strings(&["/vendor/"])).unwrap();
    assert!(filter.allows("/home/me/src/vendor/a"));
}

#[test]
fn excluded_unless_kept() {
    let filter = Filter::new(&strings(&["^/home/me/src"]), &strings(&["/vendor/"])).unwrap();
    assert!(!filter.allows("/opt/vendor/a"));
    assert!(filter.allows("/home/me/src/lib"));
    assert!(filter.allows("/usr/include"));
}

#[test]
fn everything_takes_part_by_default() {
    let filter = Filter::new(&vec![], &vec![]).unwrap();
    assert!(filter.allows("/anything/at/all"));
    assert!(filter.allows(""));
}

#[test]
fn only_excluding() {
    let filter = Filter::new(&vec![], &strings(&["^/usr/", "\\.cargo"])).unwrap();
    assert!(!filter.allows("/usr/include/c++"));
    assert!(!filter.allows("/home/me/.cargo/registry"));
    assert!(filter.allows("/home/me/src"));
}

#[test]
fn only_keeping_shuts_nothing_out() {
    let filter = Filter::new(&strings(&["^/home"]), &vec![]).unwrap();
    assert!(filter.allows("/home/me"));
    assert!(filter.allows("/usr/lib"));
}

#[test]
fn allows_is_keep_or_not_exclude() {
    let keep = strings(&["src", "^/work"]);
    let exclude = strings(&["test", "/gen/"]);
    let filter = Filter::new(&keep, &exclude).unwrap();
    let keep_set = regex::RegexSet::new(&keep).unwrap();
    let exclude_set = regex::RegexSet::new(&exclude).unwrap();
    for dir in ["/work/gen/x", "/a/src/test", "/a/test", "/gen/", "/a/gen/b", "/plain", "/work", ""] {
        assert_eq!(
            filter.allows(dir),
            keep_set.is_match(dir) || !exclude_set.is_match(dir),
            "{}",
            dir
        );
    }
}

#[test]
fn a_bad_expression_is_an_error() {
    let err = Filter::new(&strings(&["("]), &vec![]).unwrap_err();
    assert_eq!(err.side, FilterSide::Keep);
    assert!(!err.message.is_empty());
    let err = Filter::new(&strings(&["ok"]), &strings(&["a", "[z-a]"])).unwrap_err();
    assert_eq!(err.side, FilterSide::Exclude);
    // the keeping set is looked at first
    let err = Filter::new(&strings(&["*"]), &strings(&["("])).unwrap_err();
    assert_eq!(err.side, FilterSide::Keep);
}

#[test]
fn a_copy_filters_alike() {
    let filter = Filter::new(&strings(&["^/home/me/src"]), &strings(&["/vendor/"])).unwrap();
    let copy = filter.clone();
    for dir in ["/home/me/src/vendor/a", "/opt/vendor/a", "/x"] {
        assert_eq!(filter.allows(dir), copy.allows(dir));
    }
}

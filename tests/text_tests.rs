use incremental_upload::command::command_split;
use incremental_upload::filter::{FilterError, RuleFilter};
use incremental_upload::paths::{get_basename, get_dirname};
use incremental_upload::text::replace_all;
use incremental_upload::vars::{replace_variables, VariableReplace};

fn pairs(v: &[(&str, &str)]) -> Vec<(String, String)> {
    v.iter().map(|(a, b)| (a.to_string(), b.to_string())).collect()
}

#[test]
fn replace_all_is_left_to_right() {
    assert_eq!(replace_all("aaa", "aa", "b"), "ba");
    assert_eq!(replace_all("x$a$ay", "$a", "1"), "x11y");
    assert_eq!(replace_all("abc", "", "z"), "abc");
}

#[test]
fn variables_resolve_through_each_other() {
    let vars = pairs(&[("outer", "[$inner]"), ("inner", "v")]);
    assert_eq!(replace_variables("cp $outer $missing", &vars), "cp [v] $missing");
}

#[test]
fn self_reference_stops() {
    let vars = pairs(&[("a", "$a")]);
    assert_eq!(replace_variables("x $a y", &vars), "x $a y");
    let cycle = pairs(&[("a", "$b"), ("b", "$a")]);
    assert_eq!(replace_variables("$a", &cycle), "$a");
}

#[test]
fn variable_replace_add_overwrites() {
    let mut v = VariableReplace::new();
    v.add("path", "one");
    v.add("source", "/src");
    v.add("path", "two");
    assert_eq!(v.variables.len(), 2);
    assert_eq!(v.apply("$source/$path"), "/src/two");
}

#[test]
fn command_split_honours_quotes() {
    assert_eq!(command_split("cp \"a b\" c"), vec!["cp", "a b", "c"]);
    assert_eq!(command_split("echo \"x\""), vec!["echo", "x"]);
    assert_eq!(command_split("a  b"), vec!["a", "", "b"]);
    assert_eq!(command_split("run \"never closed"), vec!["run"]);
    assert_eq!(command_split("\""), vec![""]);
}

#[test]
fn dirname_and_basename() {
    assert_eq!(get_dirname("a/b/c.txt"), Some("a/b"));
    assert_eq!(get_dirname("c.txt"), None);
    assert_eq!(get_basename("a/b/c.txt"), "c.txt");
    assert_eq!(get_basename("c.txt"), "c.txt");
}

#[test]
fn rule_filter_modes() {
    let f = RuleFilter::new(&vec!["^src/".to_string(), "!\\.tmp$".to_string()]).ok().unwrap();
    assert!(f.test_all("src/a.rs", false));
    assert!(!f.test_all("src/a.tmp", false));
    assert!(f.test_any("src/a.tmp", false));
    assert!(f.test_any("docs/x.md", false));
    assert!(!f.test_any("docs/x.tmp", false));
    let empty = RuleFilter::new(&vec![]).ok().unwrap();
    assert!(empty.test_all("x", true));
    assert!(!empty.test_any("x", false));
    match RuleFilter::new(&vec!["ok".to_string(), "!(".to_string()]) {
        Err(FilterError::InvalidPattern(p)) => assert_eq!(p, "!("),
        Ok(_) => panic!("pattern should not compile"),
    }
}

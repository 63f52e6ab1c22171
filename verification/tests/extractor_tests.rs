use hotspot_report::builder::{build, ParseError};
use hotspot_report::extractor::{child_with_key, extract_active, holds, ExtractError};
use hotspot_report::report::{online_mac_addresses, parse, ReportError};
use hotspot_report::tokenizer::Line;
use hotspot_report::tree::Tree;

fn entry(column: usize, key: &str, value: &str) -> Line {
    Line { column, key: key.to_string(), value: value.to_string() }
}

fn tree_of(lines: Vec<Line>) -> Tree {
    build(&lines).unwrap()
}

fn query(tree: &Tree) -> Result<Vec<String>, ExtractError> {
    extract_active(tree, "host", "mac", "active", "yes")
}

fn sorted(mut v: Vec<String>) -> Vec<String> {
    v.sort();
    v
}

#[test]
fn active_group_is_included() {
    let tree = tree_of(vec![
        entry(17, "host", ""),
        entry(21, "active", "yes"),
        entry(21, "mac", "AA:BB:CC:DD:EE:FF"),
    ]);
    assert_eq!(query(&tree), Ok(vec!["AA:BB:CC:DD:EE:FF".to_string()]));
}

#[test]
fn inactive_group_is_excluded() {
    let tree = tree_of(vec![
        entry(17, "host", ""),
        entry(21, "active", "no"),
        entry(21, "mac", "AA:BB:CC:DD:EE:FF"),
    ]);
    assert_eq!(query(&tree), Ok(Vec::new()));
}

#[test]
fn flag_is_compared_exactly() {
    let tree = tree_of(vec![
        entry(17, "host", ""),
        entry(21, "mac", "1"),
        entry(21, "active", "Yes"),
        entry(17, "host", ""),
        entry(21, "mac", "2"),
        entry(21, "active", "yes "),
    ]);
    assert_eq!(query(&tree), Ok(Vec::new()));
}

#[test]
fn missing_mac_is_an_error() {
    let tree = tree_of(vec![entry(17, "host", ""), entry(21, "active", "yes")]);
    assert_eq!(query(&tree), Err(ExtractError::MissingField("mac".to_string())));
}

#[test]
fn missing_mac_is_an_error_on_an_inactive_group_too() {
    let tree = tree_of(vec![entry(17, "host", ""), entry(21, "active", "no")]);
    assert_eq!(query(&tree), Err(ExtractError::MissingField("mac".to_string())));
}

#[test]
fn missing_flag_is_an_error() {
    let tree = tree_of(vec![entry(17, "host", ""), entry(21, "mac", "1")]);
    assert_eq!(query(&tree), Err(ExtractError::MissingField("active".to_string())));
}

#[test]
fn group_without_children_lacks_the_identifier_first() {
    let tree = tree_of(vec![entry(17, "host", "")]);
    assert_eq!(query(&tree), Err(ExtractError::MissingField("mac".to_string())));
}

#[test]
fn first_incomplete_group_decides() {
    let tree = tree_of(vec![
        entry(17, "host", ""),
        entry(21, "mac", "1"),
        entry(21, "active", "yes"),
        entry(17, "host", ""),
        entry(21, "mac", "2"),
        entry(17, "host", ""),
        entry(21, "active", "yes"),
    ]);
    assert_eq!(query(&tree), Err(ExtractError::MissingField("active".to_string())));
}

#[test]
fn other_records_are_passed_over() {
    let tree = tree_of(vec![
        entry(17, "station", ""),
        entry(21, "active", "yes"),
        entry(17, "host", ""),
        entry(21, "mac", "1"),
        entry(21, "active", "yes"),
        entry(17, "mac", "9"),
    ]);
    assert_eq!(query(&tree), Ok(vec!["1".to_string()]));
}

#[test]
fn only_direct_children_count() {
    let tree = tree_of(vec![
        entry(17, "host", ""),
        entry(21, "info", ""),
        entry(25, "mac", "1"),
        entry(25, "active", "yes"),
    ]);
    assert_eq!(query(&tree), Err(ExtractError::MissingField("mac".to_string())));
    let nested = tree_of(vec![
        entry(17, "list", ""),
        entry(21, "host", ""),
        entry(25, "mac", "1"),
        entry(25, "active", "yes"),
    ]);
    assert_eq!(query(&nested), Ok(Vec::new()));
}

#[test]
fn first_field_of_a_name_is_taken() {
    let tree = tree_of(vec![
        entry(17, "host", ""),
        entry(21, "mac", "1"),
        entry(21, "mac", "2"),
        entry(21, "active", "yes"),
        entry(21, "active", "no"),
    ]);
    assert_eq!(query(&tree), Ok(vec!["1".to_string()]));
    assert_eq!(child_with_key(&tree, 1, &"mac".to_string()), Some(2));
    assert_eq!(child_with_key(&tree, 1, &"active".to_string()), Some(4));
    assert_eq!(child_with_key(&tree, 1, &"name".to_string()), None);
    assert_eq!(child_with_key(&tree, 2, &"mac".to_string()), None);
}

#[test]
fn duplicates_collapse() {
    let tree = tree_of(vec![
        entry(17, "host", ""),
        entry(21, "mac", "1"),
        entry(21, "active", "yes"),
        entry(17, "host", ""),
        entry(21, "mac", "2"),
        entry(21, "active", "yes"),
        entry(17, "host", ""),
        entry(21, "mac", "1"),
        entry(21, "active", "yes"),
    ]);
    assert_eq!(sorted(query(&tree).unwrap()), vec!["1".to_string(), "2".to_string()]);
}

#[test]
fn empty_tree_gives_the_empty_set() {
    assert_eq!(query(&Tree::new()), Ok(Vec::new()));
}

#[test]
fn names_of_the_query_are_parameters() {
    let tree = tree_of(vec![
        entry(17, "iface", ""),
        entry(21, "id", "7"),
        entry(21, "link", "up"),
        entry(17, "iface", ""),
        entry(21, "id", "8"),
        entry(21, "link", "down"),
    ]);
    assert_eq!(extract_active(&tree, "iface", "id", "link", "up"), Ok(vec!["7".to_string()]));
    assert_eq!(extract_active(&tree, "iface", "id", "link", "down"), Ok(vec!["8".to_string()]));
    assert_eq!(
        extract_active(&tree, "iface", "name", "link", "up"),
        Err(ExtractError::MissingField("name".to_string()))
    );
}

#[test]
fn holds_finds_equal_strings() {
    let items = vec!["a".to_string(), "b".to_string()];
    assert!(holds(&items, &"b".to_string()));
    assert!(!holds(&items, &"c".to_string()));
    assert!(!holds(&Vec::new(), &"a".to_string()));
}

const REPORT: &str = "             host: \n                  mac: 11:22:33:44:55:66\n               active: yes\n             host: \n                  mac: 77:88:99:AA:BB:CC\n               active: no\n";

#[test]
fn end_to_end() {
    assert_eq!(online_mac_addresses(REPORT), Ok(vec!["11:22:33:44:55:66".to_string()]));
}

#[test]
fn end_to_end_tree() {
    let tree = parse(REPORT).unwrap();
    assert_eq!(tree.len(), 7);
    assert_eq!(tree.nodes[0].children, vec![1, 4]);
    assert_eq!(tree.nodes[1].children, vec![2, 3]);
    assert_eq!(tree.nodes[4].children, vec![5, 6]);
    assert_eq!(tree.nodes[5].key, "mac");
    assert_eq!(tree.nodes[5].value, "77:88:99:AA:BB:CC");
    assert_eq!(tree.nodes[6].key, "active");
    assert_eq!(tree.nodes[6].value, "no");
}

#[test]
fn end_to_end_with_noise_and_comma_keys() {
    let raw = "\nbanner line\n             host: \n                  mac: 1\n                 name, alias: x\n               active: yes\n";
    assert_eq!(online_mac_addresses(raw), Ok(vec!["1".to_string()]));
    let tree = parse(raw).unwrap();
    assert_eq!(tree.nodes[3].key, "name, alias");
    assert_eq!(tree.nodes[3].parent, Some(1));
}

#[test]
fn unindented_example_is_refused() {
    let raw = "host:\n    mac: 11:22:33:44:55:66\n    active: yes\n";
    assert_eq!(online_mac_addresses(raw), Err(ReportError::Parse(ParseError::MisalignedIndent)));
}

#[test]
fn end_to_end_errors() {
    let skipped = "             host: \n                      mac: 1\n";
    assert_eq!(online_mac_addresses(skipped), Err(ReportError::Parse(ParseError::SkippedLevel)));
    let orphan = "     host: \n";
    assert_eq!(online_mac_addresses(orphan), Err(ReportError::Parse(ParseError::OrphanNode)));
    let missing = "             host: \n               active: yes\n";
    assert_eq!(
        online_mac_addresses(missing),
        Err(ReportError::Extract(ExtractError::MissingField("mac".to_string())))
    );
    assert_eq!(online_mac_addresses(""), Ok(Vec::new()));
}

#[test]
fn messages() {
    assert_eq!(ReportError::Parse(ParseError::MisalignedIndent).message(), "Not divisible by 4");
    assert_eq!(
        ReportError::Parse(ParseError::SkippedLevel).message(),
        "Cannot move forward for more than one step"
    );
    assert_eq!(ReportError::Parse(ParseError::OrphanNode).message(), "Cannot move back past the root");
    assert_eq!(
        ReportError::Extract(ExtractError::MissingField("mac".to_string())).message(),
        "mac is not set"
    );
}

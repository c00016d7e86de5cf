use depviz::active::{get_children, parse_pid};

#[test]
fn crates_of_a_process_listing() {
    let listing = "101 rustc --edition=2018 --crate-name serde_json src/lib.rs\n\
                   102 rustc --crate-name   itoa --crate-name other\n\
                   103 sh -c true\n\
                   104 rustc --crate-name\n\
                   105 rustc --crate-name serde_json x\r\n";
    let crates = get_children(listing);
    assert_eq!(crates.len(), 2);
    assert!(crates.contains("serde-json"));
    assert!(crates.contains("itoa"));
}

#[test]
fn empty_listing_names_nothing() {
    assert_eq!(get_children("").len(), 0);
    assert_eq!(get_children("\n\n").len(), 0);
}

#[test]
fn process_id() {
    assert_eq!(parse_pid("  4242\n"), Some(4242));
    assert_eq!(parse_pid("+7"), Some(7));
    assert_eq!(parse_pid("0"), Some(0));
    assert_eq!(parse_pid("18446744073709551615"), "18446744073709551615".parse::<usize>().ok());
}

#[test]
fn no_process_id() {
    assert_eq!(parse_pid(""), None);
    assert_eq!(parse_pid("   "), None);
    assert_eq!(parse_pid("+"), None);
    assert_eq!(parse_pid("-3"), None);
    assert_eq!(parse_pid("12 13"), None);
    assert_eq!(parse_pid("12a"), None);
    assert_eq!(parse_pid("99999999999999999999999999999"), None);
}

use depviz::name_set::NameSet;
use depviz::tracker::{artifact_event, diagnostic_event, message_event, BuildEvent, BuildEventSets};

fn started(name: &str) -> BuildEvent {
    BuildEvent::Started(name.to_string())
}

fn finished(name: &str) -> BuildEvent {
    BuildEvent::Finished(name.to_string())
}

#[test]
fn started_started_finished() {
    let mut sets = BuildEventSets::new();
    sets.apply(started("a"));
    sets.apply(started("b"));
    sets.apply(finished("a"));
    assert_eq!(sets.active.len(), 1);
    assert!(sets.active.contains("b"));
    assert!(!sets.active.contains("a"));
    assert_eq!(sets.completed.len(), 1);
    assert!(sets.completed.contains("a"));
}

#[test]
fn finished_twice_counts_once() {
    let mut sets = BuildEventSets::new();
    sets.apply(finished("a"));
    sets.apply(finished("a"));
    assert_eq!(sets.completed.len(), 1);
    assert_eq!(sets.active.len(), 0);
}

#[test]
fn started_twice_counts_once() {
    let mut sets = BuildEventSets::new();
    sets.update(Some(started("a")));
    sets.update(Some(started("a")));
    sets.update(None);
    assert_eq!(sets.active.len(), 1);
    assert_eq!(sets.completed.len(), 0);
}

#[test]
fn name_set_insert_remove() {
    let mut set = NameSet::new();
    assert!(set.insert("x".to_string()));
    assert!(!set.insert("x".to_string()));
    assert!(set.insert("y".to_string()));
    assert_eq!(set.len(), 2);
    assert!(set.remove("x"));
    assert!(!set.remove("x"));
    assert!(!set.contains("x"));
    assert!(set.contains("y"));
    assert_eq!(set.len(), 1);
}

#[test]
fn diagnostic_line_with_prefix_starts_a_component() {
    assert_eq!(
        diagnostic_event("   Compiling serde_json v1.0.64", "   Compiling"),
        Some(started("serde-json 1.0.64"))
    );
    assert_eq!(
        diagnostic_event("   Compiling foo v0.1.0 (/home/me/foo)", "   Compiling"),
        Some(started("foo 0.1.0"))
    );
}

#[test]
fn other_diagnostic_lines_tell_nothing() {
    assert_eq!(diagnostic_event("    Finished dev [unoptimized] target(s)", "   Compiling"), None);
    assert_eq!(diagnostic_event("   Compiling", "   Compiling"), None);
    assert_eq!(diagnostic_event("", "   Compiling"), None);
}

#[test]
fn artifact_record_finishes_a_component() {
    let line = r#"{"reason":"compiler-artifact","package_id":"serde_json 1.0.64 (registry+https://github.com/rust-lang/crates.io-index)","fresh":true}"#;
    assert_eq!(message_event(line), Some(finished("serde-json 1.0.64")));
}

#[test]
fn short_package_id_finishes_a_component_too() {
    let line = r#"{"reason":"compiler-artifact","package_id":"foo v0.1.0"}"#;
    assert_eq!(message_event(line), Some(finished("foo 0.1.0")));
}

#[test]
fn other_records_tell_nothing() {
    assert_eq!(message_event(r#"{"reason":"build-script-executed","package_id":"foo 0.1.0 (path+file:///x/y/z/foo/bar)"}"#), None);
    assert_eq!(message_event(r#"{"reason":"compiler-artifact","package_id":17}"#), None);
    assert_eq!(message_event(r#"{"reason":"compiler-artifact"}"#), None);
    assert_eq!(message_event(r#"{"reason":"compiler-artifact","package_id":"noversion"}"#), None);
    assert_eq!(message_event(r#"{"reason":"compiler-artifact","package_id":"#), None);
    assert_eq!(message_event(r#"["compiler-artifact"]"#), None);
    assert_eq!(message_event("warning: unused variable"), None);
    assert_eq!(message_event(""), None);
}

#[test]
fn artifact_event_from_fields() {
    assert_eq!(
        artifact_event(Some("compiler-artifact".to_string()), Some("a_b v1 (x)".to_string())),
        Some(finished("a-b 1"))
    );
    assert_eq!(artifact_event(Some("other".to_string()), Some("a v1".to_string())), None);
    assert_eq!(artifact_event(None, Some("a v1".to_string())), None);
    assert_eq!(artifact_event(Some("compiler-artifact".to_string()), None), None);
}

#[test]
fn a_long_record_is_read() {
    let mut line = String::from(r#"{"reason":"compiler-artifact","package_id":"foo v0.1.0","features":["#);
    for i in 0..20000 {
        line.push_str(&format!("\"feature-{}\",", i));
    }
    line.push_str(r#""last"],"filenames":["/target/debug/libfoo.rlib"]}"#);
    assert!(line.len() > 200_000);
    assert_eq!(message_event(&line), Some(finished("foo 0.1.0")));
}

#[test]
fn a_record_with_an_overlong_run_of_digits_is_not_read() {
    let mut line = String::from(r#"{"reason":"compiler-artifact","package_id":"foo v0.1.0","n":0."#);
    line.push_str(&"0".repeat(40000));
    line.push('}');
    assert_eq!(message_event(&line), None);
}

#[test]
fn a_record_with_the_longest_run_of_digits_is_read() {
    let head = r#"{"reason":"compiler-artifact","package_id":"foo v0.1.0","n":0."#;
    let mut line = String::from(head);
    line.push_str(&"0".repeat(depviz::tracker::MAX_DIGIT_RUN));
    line.push('}');
    assert_eq!(message_event(&line), Some(finished("foo 0.1.0")));
    line.insert(head.len(), '0');
    assert_eq!(message_event(&line), None);
}

#[test]
fn longest_run_of_digits() {
    let run = |s: &str| depviz::text::digit_run_of(&s.chars().collect());
    assert_eq!(run(""), 0);
    assert_eq!(run("abc"), 0);
    assert_eq!(run("a1b22c333"), 3);
    assert_eq!(run("4444 22"), 4);
    assert_eq!(run("1.5"), 1);
}

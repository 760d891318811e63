use intl_dict::dictionary::Dictionary;
use intl_dict::scan::{Scan, WalkEvent, WalkStep};

const A_TXT: &str = "intro\n<FormattedMessage id=\"x.y\" defaultMessage=\"From a\">\n";
const B_TXT: &str = "<FormattedMessage id=\"z.w\" defaultMessage=\"From b\" />\n";

fn file(s: &str) -> WalkEvent {
    WalkEvent::File(s.to_string())
}

#[test]
fn multi_file_aggregation() {
    let mut s = Scan::new();
    assert_eq!(s.step(WalkEvent::Directory), WalkStep::Continue);
    assert_eq!(s.step(file(A_TXT)), WalkStep::Continue);
    assert_eq!(s.step(file(B_TXT)), WalkStep::Continue);
    assert_eq!(s.entry_count(), 2);
    assert!(!s.skipped());
    let doc = s.render().ok().unwrap();
    assert_eq!(doc, "{\n  \"x.y\": \"From a\",\n  \"z.w\": \"From b\"\n}");
}

#[test]
fn traversal_resilience() {
    let mut s = Scan::new();
    assert_eq!(s.step(file(A_TXT)), WalkStep::Continue);
    assert_eq!(s.step(WalkEvent::Unreadable), WalkStep::Continue);
    assert_eq!(s.step(WalkEvent::WalkFailed(2)), WalkStep::Continue);
    assert_eq!(s.step(file(B_TXT)), WalkStep::Continue);
    assert_eq!(s.entry_count(), 2);
    assert!(s.skipped());
    let doc = s.render().ok().unwrap();
    assert_eq!(doc, "{\n  \"x.y\": \"From a\",\n  \"z.w\": \"From b\"\n}");
}

#[test]
fn root_path_failure_aborts() {
    let mut s = Scan::new();
    assert_eq!(s.step(WalkEvent::WalkFailed(0)), WalkStep::Abort);
    assert_eq!(s.entry_count(), 0);
}

#[test]
fn later_file_wins_on_shared_identifier() {
    let mut s = Scan::new();
    s.step(file("<FormattedMessage id=\"app.title\" defaultMessage=\"First\">"));
    s.step(file("<FormattedMessage id=\"app.title\" defaultMessage=\"Second\">"));
    assert_eq!(s.entry_count(), 2);
    assert_eq!(s.render().ok().unwrap(), "{\n  \"app.title\": \"Second\"\n}");
}

#[test]
fn same_tree_twice_gives_identical_document() {
    let run = || {
        let mut s = Scan::new();
        s.step(WalkEvent::Directory);
        s.step(file(B_TXT));
        s.step(file(A_TXT));
        s.render().ok().unwrap()
    };
    assert_eq!(run(), run());
}

#[test]
fn empty_tree_gives_empty_object() {
    let s = Scan::new();
    assert_eq!(s.render().ok().unwrap(), "{}");
    let d = Dictionary::new();
    assert_eq!(d.len(), 0);
}

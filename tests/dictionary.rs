use intl_dict::dictionary::{render_items, Dictionary};
use intl_dict::grammar::Row;

fn row(id: &str, msg: &str) -> Row {
    Row { id: id.to_string(), default_msg: msg.to_string() }
}

#[test]
fn dedup_last_entry_wins() {
    let rows = vec![row("app.title", "First"), row("other", "O"), row("app.title", "Second")];
    let d = Dictionary::from_rows(&rows);
    assert_eq!(d.len(), 2);
    assert_eq!(d.get(&"app.title".to_string()), Some("Second".to_string()));
    assert_eq!(d.get(&"other".to_string()), Some("O".to_string()));
    assert_eq!(d.get(&"missing".to_string()), None);
}

#[test]
fn insert_replaces_existing_identifier() {
    let mut d = Dictionary::new();
    assert_eq!(d.len(), 0);
    d.insert(row("k", "v1"));
    d.insert(row("k", "v2"));
    assert_eq!(d.len(), 1);
    assert_eq!(d.get(&"k".to_string()), Some("v2".to_string()));
}

#[test]
fn json_keys_are_sorted() {
    let rows = vec![row("b", "y"), row("a", "x")];
    let s = render_items(&rows).ok().unwrap();
    assert_eq!(s, "{\n  \"a\": \"x\",\n  \"b\": \"y\"\n}");
}

#[test]
fn json_of_duplicates_holds_last_value() {
    let rows = vec![row("app.title", "Old"), row("app.title", "New")];
    let s = render_items(&rows).ok().unwrap();
    assert_eq!(s, "{\n  \"app.title\": \"New\"\n}");
}

#[test]
fn json_of_empty_dictionary() {
    let s = Dictionary::new().to_json().ok().unwrap();
    assert_eq!(s, "{}");
}

#[test]
fn rendering_twice_is_identical() {
    let rows = vec![row("x.y", "One"), row("z.w", "Two")];
    let first = render_items(&rows).ok().unwrap();
    let second = render_items(&rows).ok().unwrap();
    assert_eq!(first, second);
    let mut doubled = rows;
    doubled.push(row("x.y", "One"));
    doubled.push(row("z.w", "Two"));
    assert_eq!(render_items(&doubled).ok().unwrap(), first);
}

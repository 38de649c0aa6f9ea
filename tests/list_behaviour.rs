use open_read_later::input::{choose_tags, choose_title, non_blank_tags, parse_tags};
use open_read_later::read_later_list::{
    LinkEntry, LinkEntryBuilder, MissingField, ParseError, ReadLaterList,
};

fn entry(url: &str, title: &str, tags: &[&str]) -> LinkEntry {
    let mut tags: Vec<&str> = tags.to_vec();
    LinkEntry::builder()
        .set_url(url)
        .set_title(title)
        .add_tags(&mut tags)
        .build()
        .unwrap()
}

fn strings(v: &[&str]) -> Vec<String> {
    v.iter().map(|s| String::from(*s)).collect()
}

#[test]
fn example_text_parses_to_two_entries() {
    let text = "url: https://example.com\ntitle: Example\ntags: tag1, tag2\n---\nurl: https://j.com\ntitle: J";
    let list = ReadLaterList::parse(text).unwrap();
    assert_eq!(list.len(), 2);
    let j = list.get_link("https://j.com").unwrap();
    assert_eq!(j.title, "J");
    assert!(j.tags.is_empty());
    let e = list.get_link("https://example.com").unwrap();
    assert_eq!(e.tags, strings(&["tag1", "tag2"]));
    assert_eq!(list.to_string(), text);
}

#[test]
fn records_are_written_in_sorted_order() {
    let mut list = ReadLaterList::new();
    list.add_link(entry("https://z.org", "Zed", &[]));
    list.add_link(entry("https://a.org", "Ay", &["x"]));
    assert_eq!(
        list.to_string(),
        "url: https://a.org\ntitle: Ay\ntags: x\n---\nurl: https://z.org\ntitle: Zed"
    );
}

#[test]
fn empty_text_gives_empty_list() {
    assert_eq!(ReadLaterList::parse("").unwrap().len(), 0);
    assert_eq!(ReadLaterList::parse("  \n\t \r\n").unwrap().len(), 0);
    assert_eq!(ReadLaterList::new().to_string(), "");
}

#[test]
fn saving_an_existing_url_replaces_the_entry() {
    let mut list = ReadLaterList::new();
    list.add_link(entry("u", "Old", &["a", "b"]));
    list.add_link(entry("u", "New", &[]));
    assert_eq!(list.len(), 1);
    let e = list.get_link("u").unwrap();
    assert_eq!(e.title, "New");
    assert!(e.tags.is_empty());
    let mut other = ReadLaterList::new();
    other.update_link(entry("u", "Other", &["c"]));
    assert_eq!(other.get_link("u").unwrap().tags, strings(&["c"]));
}

#[test]
fn adding_tags_merges_without_duplicates() {
    let mut list = ReadLaterList::new();
    list.add_link(entry("u", "T", &["a"]));
    let after = list.add_tags("u", strings(&["a", "b"])).unwrap();
    assert_eq!(list.get_link("u").unwrap().tags, strings(&["a", "b"]));
    assert_eq!(after, list);
}

#[test]
fn adding_tags_to_a_missing_url_fails() {
    let mut list = ReadLaterList::new();
    list.add_link(entry("u", "T", &["a"]));
    let before = list.clone();
    let err = list.add_tags("nope", strings(&["b"])).unwrap_err();
    assert_eq!(err.url, "nope");
    assert_eq!(list, before);
    let err = list.remove_tags("nope", strings(&["a"])).unwrap_err();
    assert_eq!(err.url, "nope");
    assert_eq!(list, before);
}

#[test]
fn removing_tags_is_a_set_difference() {
    let mut list = ReadLaterList::new();
    list.add_link(entry("u", "T", &["a", "b"]));
    list.remove_tags("u", strings(&["a"])).unwrap();
    assert_eq!(list.get_link("u").unwrap().tags, strings(&["b"]));
    list.remove_tags("u", strings(&["z"])).unwrap();
    assert_eq!(list.get_link("u").unwrap().tags, strings(&["b"]));
}

#[test]
fn deleting_a_missing_url_changes_nothing() {
    let mut list = ReadLaterList::new();
    list.add_link(entry("u", "T", &["a"]));
    let before = list.clone();
    let after = list.delete_link("missing");
    assert_eq!(list, before);
    assert_eq!(after, before);
    list.delete_link("u");
    assert_eq!(list.len(), 0);
    assert!(list.get_link("u").is_none());
}

#[test]
fn text_reads_back_as_the_list() {
    let mut list = ReadLaterList::new();
    list.add_link(entry("https://b.net/x:y", "Bee: the title", &["one", "two words"]));
    list.add_link(entry("https://a.net", "A", &[]));
    list.add_link(entry("https://c.net", "C, with comma", &["t"]));
    let text = list.to_string();
    let back = ReadLaterList::parse(&text).unwrap();
    assert_eq!(back, list);
    assert_eq!(back.to_string(), text);
}

#[test]
fn lists_compare_as_maps() {
    let a = ReadLaterList::new()
        .add_link(entry("x", "X", &[]))
        .add_link(entry("y", "Y", &[]));
    let b = ReadLaterList::new()
        .add_link(entry("y", "Y", &[]))
        .add_link(entry("x", "X", &[]));
    assert_eq!(a, b);
    let c = ReadLaterList::new()
        .add_link(entry("y", "Y", &["t"]))
        .add_link(entry("x", "X", &[]));
    assert_ne!(a, c);
}

#[test]
fn missing_url_or_title_fails_parsing() {
    assert_eq!(
        ReadLaterList::parse("title: T").unwrap_err(),
        ParseError { segment: 0, missing: MissingField::Url }
    );
    assert_eq!(
        ReadLaterList::parse("url: a\ntitle: A\n---\nurl: b").unwrap_err(),
        ParseError { segment: 1, missing: MissingField::Title }
    );
    assert_eq!(
        ReadLaterList::parse("url: a\ntitle: A\n---\n").unwrap_err(),
        ParseError { segment: 1, missing: MissingField::Url }
    );
}

#[test]
fn builder_reports_the_missing_field() {
    assert_eq!(LinkEntryBuilder::new().set_title("T").build().unwrap_err(), MissingField::Url);
    assert_eq!(LinkEntryBuilder::new().set_url("u").build().unwrap_err(), MissingField::Title);
    let e = LinkEntryBuilder::new().set_url("u").set_title("T").add_tag("a").add_tag("b").build().unwrap();
    assert_eq!(e.tags, strings(&["a", "b"]));
}

#[test]
fn line_pattern_details() {
    let e = LinkEntry::parse("url:x\ntitle :  Spaced out  \ncolour: red\nno colon here\n:y").unwrap();
    assert_eq!(e.url, "x");
    assert_eq!(e.title, "Spaced out");
    assert!(e.tags.is_empty());
    assert_eq!(LinkEntry::parse("url:\ntitle: T").unwrap_err(), MissingField::Url);
    let e = LinkEntry::parse("title: T\nurl: a:b:c\ntags: a,, b ,\ntags: c").unwrap();
    assert_eq!(e.url, "a:b:c");
    assert_eq!(e.tags, strings(&["a", "b", "c"]));
}

#[test]
fn carriage_returns_are_dropped() {
    let list = ReadLaterList::parse("url: a\r\ntitle: T\r\n").unwrap();
    let e = list.get_link("a").unwrap();
    assert_eq!(e.title, "T");
}

#[test]
fn later_record_wins_on_duplicate_url() {
    let list = ReadLaterList::parse("url: a\ntitle: 1\n---\nurl: a\ntitle: 2").unwrap();
    assert_eq!(list.len(), 1);
    assert_eq!(list.get_link("a").unwrap().title, "2");
}

#[test]
fn entry_text_and_joined_tags() {
    let e = entry("u", "T", &["a", "b c"]);
    assert_eq!(e.to_string(), "url: u\ntitle: T\ntags: a, b c");
    assert_eq!(e.joined_tags(), "a, b c");
    assert_eq!(entry("u", "T", &[]).to_string(), "url: u\ntitle: T");
}

#[test]
fn equal_record_texts_are_ordered_by_url() {
    let mut list = ReadLaterList::new();
    list.add_link(entry("a\ntitle: b", "c", &[]));
    list.add_link(entry("a", "b\ntitle: c", &[]));
    let record = "url: a\ntitle: b\ntitle: c";
    assert_eq!(list.to_string(), format!("{}\n---\n{}", record, record));
}

#[test]
fn search_is_literal_and_ignores_case() {
    let mut list = ReadLaterList::new();
    list.add_link(entry("https://exampleXcom", "First", &[]));
    list.add_link(entry("https://example.com", "Second", &["Rust"]));
    list.add_link(entry("https://other.org", "Third", &["news", "rusty"]));
    let found = list.search("EXAMPLE.COM").unwrap();
    assert_eq!(found.len(), 1);
    assert!(found.get_link("https://example.com").is_some());
    let found = list.search("rust").unwrap();
    assert_eq!(found.len(), 2);
    assert!(found.get_link("https://other.org").is_some());
    let found = list.search("s, r").unwrap();
    assert_eq!(found.len(), 1);
    assert!(found.get_link("https://other.org").is_some());
    assert_eq!(list.search("absent").unwrap().len(), 0);
}

#[test]
fn select_keeps_flagged_entries() {
    let mut list = ReadLaterList::new();
    list.add_link(entry("a", "A", &[]));
    list.add_link(entry("b", "B", &[]));
    list.add_link(entry("c", "C", &[]));
    let keep: Vec<bool> = list.iter_links().iter().map(|l| l.url != "b").collect();
    let picked = list.select(&keep);
    assert_eq!(picked.len(), 2);
    assert!(picked.get_link("b").is_none());
    assert!(picked.get_link("a").is_some() && picked.get_link("c").is_some());
    assert_eq!(list.iter_links().len(), 3);
}

#[test]
fn add_links_saves_each_in_turn() {
    let mut list = ReadLaterList::new();
    let all = list.add_links(vec![entry("a", "1", &[]), entry("b", "B", &[]), entry("a", "2", &[])]);
    assert_eq!(all.len(), 2);
    assert_eq!(list.get_link("a").unwrap().title, "2");
}

#[test]
fn typed_input_rules() {
    assert_eq!(choose_title("  New title \n", "Old"), "New title");
    assert_eq!(choose_title(" \n", "Old"), "Old");
    assert_eq!(parse_tags(" a, b ,, c\n"), strings(&["a", "b", "c"]));
    assert!(parse_tags(" , ").is_empty());
    assert_eq!(choose_tags("x, y", "a, b"), strings(&["x", "y"]));
    assert_eq!(choose_tags("\n", "a, b"), strings(&["a", "b"]));
}

#[test]
fn a_tag_given_twice_is_added_once() {
    let mut list = ReadLaterList::new();
    list.add_link(entry("u", "T", &[]));
    list.add_tags("u", strings(&["x", "x", "y", "x"])).unwrap();
    assert_eq!(list.get_link("u").unwrap().tags, strings(&["x", "y"]));
    list.add_tags("u", strings(&["y", "z", "z"])).unwrap();
    assert_eq!(list.get_link("u").unwrap().tags, strings(&["x", "y", "z"]));
}

#[test]
fn blank_tags_are_left_out() {
    let given = strings(&["a", "", "  ", " b ", "\t"]);
    assert_eq!(non_blank_tags(&given), strings(&["a", " b "]));
    assert!(non_blank_tags(&Vec::new()).is_empty());
}

#[test]
fn search_treats_meta_characters_literally() {
    let mut list = ReadLaterList::new();
    list.add_link(entry("https://a.org/c++", "Plus", &[]));
    list.add_link(entry("https://a.org/cxx", "Other", &["(x)"]));
    let found = list.search("C++").unwrap();
    assert_eq!(found.len(), 1);
    assert!(found.get_link("https://a.org/c++").is_some());
    let found = list.search("(X)").unwrap();
    assert_eq!(found.len(), 1);
    assert!(found.get_link("https://a.org/cxx").is_some());
    assert_eq!(ReadLaterList::new().search("anything").unwrap().len(), 0);
}

#[test]
fn blank_url_or_title_counts_as_missing() {
    assert_eq!(LinkEntry::parse("url: \ntitle: T").unwrap_err(), MissingField::Url);
    assert_eq!(LinkEntry::parse("url: u\ntitle:   ").unwrap_err(), MissingField::Title);
    assert_eq!(
        ReadLaterList::parse("url: a\ntitle: A\n---\nurl:  \ntitle: B").unwrap_err(),
        ParseError { segment: 1, missing: MissingField::Url }
    );
    assert_eq!(LinkEntryBuilder::new().set_url("").set_title("T").build().unwrap_err(), MissingField::Url);
    assert_eq!(LinkEntryBuilder::new().set_url("u").set_title("").build().unwrap_err(), MissingField::Title);
    let title = choose_title("  ", "");
    assert_eq!(LinkEntryBuilder::new().set_url("u").set_title(&title).build().unwrap_err(), MissingField::Title);
}

use sitemap_crawler::access::{AccessLog, SkipSet};
use sitemap_crawler::extract::{
    element_fragments, join_text, join_with_spaces, link_targets, retain, retain_present,
    track_image_node, track_text_node, SelectorSyntaxError,
};
use sitemap_crawler::selector_tree::{SelectorNode, SelectorType};

fn node(kind: SelectorType, selector: &str, multiple: bool) -> SelectorNode {
    SelectorNode {
        id: "n".to_string(),
        selector_type: kind,
        selector: selector.to_string(),
        multiple,
        children: vec![],
    }
}

fn strings(v: Vec<&str>) -> Vec<String> {
    v.into_iter().map(|s| s.to_string()).collect()
}

const PAGE: &str = r#"
    <div class="card"><p>one <b>bold</b> tail</p><a href="/first">x</a><img src="a.png"></div>
    <div class="card"><p>two</p><a>y</a><img src="b.png"></div>
    <div class="card"><p>three</p><a href="/third">z</a></div>
"#;

#[test]
fn join_with_spaces_puts_one_space_between_parts() {
    assert_eq!(join_with_spaces(&strings(vec![])), "");
    assert_eq!(join_with_spaces(&strings(vec!["alone"])), "alone");
    assert_eq!(join_with_spaces(&strings(vec!["a", "b", "c"])), "a b c");
    assert_eq!(join_with_spaces(&strings(vec!["", "b", ""])), " b ");
}

#[test]
fn join_text_joins_chunks_and_elements() {
    let found = vec![strings(vec!["body", "A1"]), strings(vec!["body A2"]), strings(vec![])];
    assert_eq!(join_text(&found, true), "body A1 body A2 ");
    assert_eq!(join_text(&found, false), "body A1");
    assert_eq!(join_text(&vec![], true), "");
    assert_eq!(join_text(&vec![], false), "");
}

#[test]
fn retain_keeps_all_or_the_first() {
    assert_eq!(retain(strings(vec!["a", "b", "c"]), true), strings(vec!["a", "b", "c"]));
    assert_eq!(retain(strings(vec!["a", "b", "c"]), false), strings(vec!["a"]));
    assert_eq!(retain(strings(vec![]), false), strings(vec![]));
    assert_eq!(retain(strings(vec![]), true), strings(vec![]));
}

#[test]
fn retain_present_drops_what_is_not_there() {
    let found = || vec![None, Some("b".to_string()), None, Some("d".to_string())];
    assert_eq!(retain_present(found(), true), strings(vec!["b", "d"]));
    assert_eq!(retain_present(found(), false), strings(vec![]));
    assert_eq!(
        retain_present(vec![Some("a".to_string()), Some("b".to_string())], false),
        strings(vec!["a"])
    );
    assert_eq!(retain_present(vec![], false), strings(vec![]));
}

#[test]
fn text_of_a_document() {
    assert_eq!(
        track_text_node(&node(SelectorType::Text, ".card p", true), PAGE),
        Ok("one  bold  tail two three".to_string())
    );
    assert_eq!(
        track_text_node(&node(SelectorType::Text, ".card p", false), PAGE),
        Ok("one  bold  tail".to_string())
    );
    assert_eq!(
        track_text_node(&node(SelectorType::Text, ".absent", true), PAGE),
        Ok(String::new())
    );
}

#[test]
fn images_of_a_document() {
    assert_eq!(
        track_image_node(&node(SelectorType::Image, "img", true), PAGE),
        Ok(strings(vec!["a.png", "b.png"]))
    );
    assert_eq!(
        track_image_node(&node(SelectorType::Image, "img", false), PAGE),
        Ok(strings(vec!["a.png"]))
    );
}

#[test]
fn links_of_a_document() {
    assert_eq!(
        link_targets(&node(SelectorType::Link, ".card a", true), PAGE),
        Ok(strings(vec!["/first", "/third"]))
    );
    assert_eq!(
        link_targets(&node(SelectorType::Link, ".card a", false), PAGE),
        Ok(strings(vec!["/first"]))
    );
    assert_eq!(
        link_targets(&node(SelectorType::Link, ".card:nth-child(2) a", false), PAGE),
        Ok(strings(vec![]))
    );
}

#[test]
fn fragments_of_a_document() {
    assert_eq!(
        element_fragments(&node(SelectorType::Element, ".card p", true), PAGE),
        Ok(strings(vec!["one <b>bold</b> tail", "two", "three"]))
    );
    assert_eq!(
        element_fragments(&node(SelectorType::Element, ".card p", false), PAGE),
        Ok(strings(vec!["one <b>bold</b> tail"]))
    );
}

#[test]
fn a_selector_that_does_not_parse_is_an_error() {
    let error = || SelectorSyntaxError {
        selector: "a[".to_string(),
    };
    assert_eq!(track_text_node(&node(SelectorType::Text, "a[", true), PAGE), Err(error()));
    assert_eq!(track_image_node(&node(SelectorType::Image, "a[", true), PAGE), Err(error()));
    assert_eq!(link_targets(&node(SelectorType::Link, "a[", true), PAGE), Err(error()));
    assert_eq!(
        element_fragments(&node(SelectorType::Element, "a[", true), PAGE),
        Err(error())
    );
}

#[test]
fn the_skip_set_knows_its_urls() {
    let skip = SkipSet::new(strings(vec!["http://a", "http://b", "http://a"]));
    assert!(skip.contains("http://a"));
    assert!(skip.contains("http://b"));
    assert!(!skip.contains("http://c"));
    assert!(!SkipSet::new(vec![]).contains(""));
}

#[test]
fn the_access_log_keeps_the_last_marker_of_a_url() {
    let mut log = AccessLog::new();
    assert_eq!(log.len(), 0);
    assert_eq!(log.marker("http://a"), None);
    log.record("http://a".to_string(), "first".to_string());
    log.record("http://b".to_string(), "other".to_string());
    log.record("http://a".to_string(), "second".to_string());
    assert_eq!(log.len(), 2);
    assert_eq!(log.marker("http://a"), Some("second".to_string()));
    assert_eq!(log.entry(0), Some(("http://a".to_string(), "second".to_string())));
    assert_eq!(log.entry(1), Some(("http://b".to_string(), "other".to_string())));
    assert_eq!(log.entry(2), None);
    assert!(log.contains("http://b"));
    assert!(!log.contains("http://c"));
}

use sitemap_crawler::selector_tree::{
    build_selector_node, BuildError, RawSelector, SelectorNode, SelectorTree, SelectorType, SiteMap,
};

fn record(id: &str, kind: &str, parents: Vec<&str>, selector: &str, multiple: bool) -> RawSelector {
    RawSelector::new(
        id.to_string(),
        kind.to_string(),
        selector.to_string(),
        multiple,
        parents.into_iter().map(|p| p.to_string()).collect(),
        0,
    )
}

fn node(id: &str, kind: SelectorType, selector: &str, children: Vec<SelectorNode>) -> SelectorNode {
    SelectorNode {
        id: id.to_string(),
        selector_type: kind,
        selector: selector.to_string(),
        multiple: false,
        children,
    }
}

// Reads a selector definition: the fields of each record are taken from the
// JSON text one by one.
fn sitemap_from_json(text: &str) -> SiteMap {
    let value: serde_json::Value = serde_json::from_str(text).unwrap();
    let strings = |list: &serde_json::Value| -> Vec<String> {
        list.as_array()
            .unwrap()
            .iter()
            .map(|s| s.as_str().unwrap().to_string())
            .collect()
    };
    let selectors = value["selectors"]
        .as_array()
        .unwrap()
        .iter()
        .map(|raw| {
            RawSelector::new(
                raw["id"].as_str().unwrap().to_string(),
                raw["type"].as_str().unwrap().to_string(),
                raw["selector"].as_str().unwrap().to_string(),
                raw["multiple"].as_bool().unwrap(),
                strings(&raw["parentSelectors"]),
                raw["delay"].as_i64().unwrap() as i32,
            )
        })
        .collect();
    SiteMap::new(
        value["_id"].as_str().unwrap().to_string(),
        strings(&value["startUrl"]),
        selectors,
    )
}

#[test]
fn test_selector_tree_new() {
    let testdata = r###"
{
  "_id": "formula1-data",
  "startUrl": [
    "https://formula1-data.com/article"
  ],
  "selectors": [
    {
      "id": "link",
      "type": "SelectorLink",
      "parentSelectors": [
        "_root"
      ],
      "selector": ".mdlGrid__col12 a",
      "multiple": true,
      "delay": 0
    },
    {
      "id": "title",
      "type": "SelectorText",
      "parentSelectors": [
        "link"
      ],
      "selector": "h1.entryHeader__title",
      "multiple": false,
      "regex": "",
      "delay": 0
    },
    {
      "id": "content",
      "type": "SelectorText",
      "parentSelectors": [
        "link"
      ],
      "selector": ".entry > p",
      "multiple": true,
      "regex": "",
      "delay": 0
    }
  ]
}
    "###;

    let expected = vec![SelectorNode {
        id: "link".into(),
        selector_type: SelectorType::Link,
        selector: ".mdlGrid__col12 a".into(),
        multiple: true,
        children: vec![
            SelectorNode {
                id: "title".into(),
                selector_type: SelectorType::Text,
                selector: "h1.entryHeader__title".into(),
                multiple: false,
                children: vec![],
            },
            SelectorNode {
                id: "content".into(),
                selector_type: SelectorType::Text,
                selector: ".entry > p".into(),
                multiple: true,
                children: vec![],
            },
        ],
    }];

    let sitemap = sitemap_from_json(testdata);
    let actual = SelectorNode::new(sitemap).unwrap();

    assert_eq!(actual, expected)
}

#[test]
fn type_names_are_read() {
    assert_eq!(SelectorType::from_str("SelectorText"), Ok(SelectorType::Text));
    assert_eq!(SelectorType::from_str("SelectorLink"), Ok(SelectorType::Link));
    assert_eq!(SelectorType::from_str("SelectorImage"), Ok(SelectorType::Image));
    assert_eq!(SelectorType::from_str("SelectorElement"), Ok(SelectorType::Element));
}

#[test]
fn an_unknown_type_name_is_refused_with_its_value() {
    assert_eq!(
        SelectorType::from_str("SelectorTable"),
        Err(BuildError::InvalidSelectorType {
            value: "SelectorTable".to_string()
        })
    );
    assert_eq!(
        SelectorType::from_str(""),
        Err(BuildError::InvalidSelectorType {
            value: "".to_string()
        })
    );
    assert_eq!(
        SelectorType::from_str("selectortext"),
        Err(BuildError::InvalidSelectorType {
            value: "selectortext".to_string()
        })
    );
}

#[test]
fn from_raw_gives_a_node_without_children() {
    let raw = record("image", "SelectorImage", vec!["_root"], "img", true);
    assert_eq!(
        SelectorNode::from_raw(&raw),
        Ok(SelectorNode {
            id: "image".to_string(),
            selector_type: SelectorType::Image,
            selector: "img".to_string(),
            multiple: true,
            children: vec![],
        })
    );
    let bad = record("x", "Nope", vec!["_root"], "p", false);
    assert_eq!(
        SelectorNode::from_raw(&bad),
        Err(BuildError::InvalidSelectorType {
            value: "Nope".to_string()
        })
    );
}

#[test]
fn an_unknown_type_fails_the_build() {
    let records = vec![
        record("link", "SelectorLink", vec!["_root"], "a", false),
        record("title", "SelectorHeading", vec!["link"], "h1", false),
    ];
    assert_eq!(
        build_selector_node(&records, &"_root".to_string()),
        Err(BuildError::InvalidSelectorType {
            value: "SelectorHeading".to_string()
        })
    );
}

#[test]
fn an_orphan_is_left_out_even_with_an_unknown_type() {
    let records = vec![
        record("title", "SelectorText", vec!["_root"], "h1", false),
        record("lost", "SelectorText", vec!["nowhere"], "p", false),
        record("odd", "SelectorOdd", vec!["typo"], "p", false),
    ];
    assert_eq!(
        build_selector_node(&records, &"_root".to_string()),
        Ok(vec![node("title", SelectorType::Text, "h1", vec![])])
    );
}

#[test]
fn children_keep_the_order_of_the_list() {
    let records = vec![
        record("c", "SelectorText", vec!["_root"], "c", false),
        record("a", "SelectorText", vec!["_root"], "a", false),
        record("b", "SelectorText", vec!["_root"], "b", false),
    ];
    let ids: Vec<String> = build_selector_node(&records, &"_root".to_string())
        .unwrap()
        .into_iter()
        .map(|n| n.id)
        .collect();
    assert_eq!(ids, vec!["c", "a", "b"]);
}

#[test]
fn a_record_with_two_parents_stands_under_both() {
    let records = vec![
        record("first", "SelectorElement", vec!["_root"], ".first", false),
        record("second", "SelectorElement", vec!["_root"], ".second", false),
        record("title", "SelectorText", vec!["first", "second"], "h1", false),
    ];
    let title = || node("title", SelectorType::Text, "h1", vec![]);
    assert_eq!(
        build_selector_node(&records, &"_root".to_string()),
        Ok(vec![
            node("first", SelectorType::Element, ".first", vec![title()]),
            node("second", SelectorType::Element, ".second", vec![title()]),
        ])
    );
}

#[test]
fn the_forest_under_an_inner_id_can_be_built() {
    let records = vec![
        record("link", "SelectorLink", vec!["_root"], "a", false),
        record("title", "SelectorText", vec!["link"], "h1", false),
    ];
    assert_eq!(
        build_selector_node(&records, &"link".to_string()),
        Ok(vec![node("title", SelectorType::Text, "h1", vec![])])
    );
    assert_eq!(build_selector_node(&records, &"title".to_string()), Ok(vec![]));
}

#[test]
fn a_record_under_itself_is_refused() {
    let records = vec![record("next", "SelectorLink", vec!["_root", "next"], "a.next", false)];
    assert_eq!(
        build_selector_node(&records, &"_root".to_string()),
        Err(BuildError::CyclicReference {
            id: "next".to_string()
        })
    );
}

#[test]
fn a_longer_cycle_is_refused() {
    let records = vec![
        record("a", "SelectorElement", vec!["_root", "c"], ".a", false),
        record("b", "SelectorElement", vec!["a"], ".b", false),
        record("c", "SelectorElement", vec!["b"], ".c", false),
    ];
    assert_eq!(
        build_selector_node(&records, &"_root".to_string()),
        Err(BuildError::CyclicReference {
            id: "a".to_string()
        })
    );
}

#[test]
fn a_deep_chain_without_cycle_is_built() {
    let mut records = vec![record("n0", "SelectorElement", vec!["_root"], "div", false)];
    for i in 1..40 {
        let parent = format!("n{}", i - 1);
        records.push(record(
            &format!("n{}", i),
            "SelectorElement",
            vec![parent.as_str()],
            "div",
            false,
        ));
    }
    let mut level = build_selector_node(&records, &"_root".to_string()).unwrap();
    let mut depth = 0;
    while let Some(first) = level.into_iter().next() {
        assert_eq!(first.id, format!("n{}", depth));
        depth += 1;
        level = first.children;
    }
    assert_eq!(depth, 40);
}

#[test]
fn the_tree_takes_the_first_start_url() {
    let sitemap = SiteMap::new(
        "site".to_string(),
        vec!["http://first.example".to_string(), "http://second.example".to_string()],
        vec![record("title", "SelectorText", vec!["_root"], "h1", false)],
    );
    let tree = SelectorTree::from_sitemap(sitemap).unwrap();
    assert_eq!(tree.id, "site");
    assert_eq!(tree.start_url, "http://first.example");
    assert_eq!(tree.selectors, vec![node("title", SelectorType::Text, "h1", vec![])]);
}

#[test]
fn a_definition_without_start_url_is_refused() {
    let sitemap = SiteMap::new("site".to_string(), vec![], vec![]);
    assert_eq!(SelectorTree::from_sitemap(sitemap), Err(BuildError::MissingStartUrl));
}

#[test]
fn has_parent_reads_the_parent_list() {
    let raw = record("title", "SelectorText", vec!["a", "b"], "h1", false);
    assert!(raw.has_parent(&"a".to_string()));
    assert!(raw.has_parent(&"b".to_string()));
    assert!(!raw.has_parent(&"_root".to_string()));
}

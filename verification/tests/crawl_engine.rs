use sitemap_crawler::access::{AccessLog, SkipSet};
use sitemap_crawler::artifact::Artifact;
use sitemap_crawler::crawler::machine::{
    Crawl, CrawlError, CrawlOutput, FetchReply, FetchRequest, Progress,
};
use sitemap_crawler::crawler::model::Status;
use sitemap_crawler::formatter::format_map_list;
use sitemap_crawler::row::FlatRow;
use sitemap_crawler::selector_tree::{RawSelector, SelectorTree, SiteMap};
use std::collections::HashMap;
use std::sync::Arc;

const ROOT: &str = "http://url-root.com/article";

// What the fetch client of a test answers: a page for each URL that it knows.
struct Pages {
    pages: HashMap<String, String>,
    unchanged: Vec<String>,
    asked: Vec<FetchRequest>,
}

impl Pages {
    fn new(pages: Vec<(&str, &str)>) -> Self {
        Pages {
            pages: pages
                .into_iter()
                .map(|(url, html)| (url.to_string(), html.to_string()))
                .collect(),
            unchanged: vec![],
            asked: vec![],
        }
    }

    fn unchanged(mut self, url: &str) -> Self {
        self.unchanged.push(url.to_string());
        self
    }

    fn fetch(&mut self, request: FetchRequest) -> FetchReply {
        let reply = if self.unchanged.contains(&request.url) {
            FetchReply::Unchanged
        } else if let Some(content) = self.pages.get(&request.url) {
            FetchReply::Fresh {
                body: content.clone(),
                marker: format!("seen {}", request.url),
            }
        } else {
            FetchReply::Failed {
                message: format!("html not found by the url: {}", request.url),
            }
        };
        self.asked.push(request);
        reply
    }

    fn asked_urls(&self) -> Vec<&str> {
        self.asked.iter().map(|r| r.url.as_str()).collect()
    }
}

fn run(
    tree: &SelectorTree,
    skip: &SkipSet,
    log: AccessLog,
    pages: &mut Pages,
) -> Result<CrawlOutput, CrawlError> {
    let mut crawl = Crawl::new(tree, skip, log);
    let mut reply = None;
    loop {
        match crawl.run(reply.take()) {
            Progress::Continue(_) => panic!("a run ends at a request or at the end"),
            Progress::Fetch(next, request) => {
                crawl = next;
                reply = Some(pages.fetch(request));
            }
            Progress::Finished(outcome) => return outcome,
        }
    }
}

// The same crawl, one step at a time; the number of steps is counted.
fn run_by_steps(
    tree: &SelectorTree,
    skip: &SkipSet,
    log: AccessLog,
    pages: &mut Pages,
) -> (Result<CrawlOutput, CrawlError>, usize) {
    let mut crawl = Crawl::new(tree, skip, log);
    let mut reply = None;
    let mut steps = 0;
    loop {
        steps += 1;
        match crawl.step(reply.take()) {
            Progress::Continue(next) => crawl = next,
            Progress::Fetch(next, request) => {
                crawl = next;
                reply = Some(pages.fetch(request));
            }
            Progress::Finished(outcome) => return (outcome, steps),
        }
    }
}

fn record(id: &str, kind: &str, parents: Vec<&str>, selector: &str, multiple: bool) -> RawSelector {
    RawSelector::new(
        id.to_string(),
        kind.to_string(),
        selector.to_string(),
        multiple,
        parents.into_iter().map(|p| p.to_string()).collect(),
        0,
    )
}

// Reads a selector definition: the fields of each record are taken from the
// JSON text one by one.
fn sitemap_from_json(text: &str) -> SiteMap {
    let value: serde_json::Value = serde_json::from_str(text).unwrap();
    let strings = |list: &serde_json::Value| -> Vec<String> {
        list.as_array()
            .unwrap()
            .iter()
            .map(|s| s.as_str().unwrap().to_string())
            .collect()
    };
    let selectors = value["selectors"]
        .as_array()
        .unwrap()
        .iter()
        .map(|raw| {
            RawSelector::new(
                raw["id"].as_str().unwrap().to_string(),
                raw["type"].as_str().unwrap().to_string(),
                raw["selector"].as_str().unwrap().to_string(),
                raw["multiple"].as_bool().unwrap(),
                strings(&raw["parentSelectors"]),
                raw["delay"].as_i64().unwrap() as i32,
            )
        })
        .collect();
    SiteMap::new(
        value["_id"].as_str().unwrap().to_string(),
        strings(&value["startUrl"]),
        selectors,
    )
}

fn tree_from_json(text: &str) -> SelectorTree {
    SelectorTree::from_sitemap(sitemap_from_json(text)).unwrap()
}

fn tree_of(records: Vec<RawSelector>) -> SelectorTree {
    SelectorTree::from_sitemap(SiteMap::new("test".to_string(), vec![ROOT.to_string()], records))
        .unwrap()
}

fn link_tree() -> SelectorTree {
    tree_of(vec![
        record("link", "SelectorLink", vec!["_root"], ".url", true),
        record("title", "SelectorText", vec!["link"], ".title", false),
        record("body", "SelectorText", vec!["link"], ".body", true),
    ])
}

fn link_pages() -> Pages {
    Pages::new(vec![
        (
            ROOT,
            r###"
                    <a class="url" href="http://url-a.com">url a</a>
                    <a class="url" href="http://url-b.com">url b</a>
                "###,
        ),
        (
            "http://url-a.com",
            r###"
                    <p class="title">title A</p>
                    <p class="body">body A1</p>
                    <p class="body">body A2</p>
                "###,
        ),
        (
            "http://url-b.com",
            r###"
                    <p class="title">title B</p>
                    <p class="body">body B1</p>
                    <p class="body">body B2</p>
                "###,
        ),
    ])
}

fn leaf(tag: &str, data: &str) -> Artifact {
    Artifact {
        tag: tag.into(),
        data: Some(Arc::new(data.into())),
        children: vec![],
    }
}

fn start(children: Vec<Artifact>) -> Vec<Artifact> {
    vec![Artifact {
        tag: "source_url".into(),
        data: Some(Arc::new(ROOT.into())),
        children,
    }]
}

fn link(url: &str, children: Vec<Artifact>) -> Artifact {
    Artifact {
        tag: "link".into(),
        data: Some(Arc::new(url.into())),
        children,
    }
}

fn no_skip() -> SkipSet {
    SkipSet::new(vec![])
}

fn as_map(row: &FlatRow) -> HashMap<String, String> {
    let mut map = HashMap::new();
    for i in 0..row.len() {
        let (key, value) = row.entry(i).unwrap();
        map.insert(key.clone(), (**value).clone());
    }
    map
}

fn log_as_map(log: &AccessLog) -> HashMap<String, String> {
    let mut map = HashMap::new();
    for i in 0..log.len() {
        let (url, marker) = log.entry(i).unwrap();
        map.insert(url, marker);
    }
    map
}

#[test]
fn fetcher_crawler_test() {
    let test_data = vec![
        (
            "test SelectorLink",
            link_pages(),
            tree_from_json(
                r###"
{
  "_id": "test",
  "startUrl": [
    "http://url-root.com/article"
  ],
  "selectors": [
    {
      "id": "link",
      "type": "SelectorLink",
      "parentSelectors": [
        "_root"
      ],
      "selector": ".url",
      "multiple": true,
      "delay": 0
    },
    {
      "id": "title",
      "type": "SelectorText",
      "parentSelectors": [
        "link"
      ],
      "selector": ".title",
      "multiple": false,
      "regex": "",
      "delay": 0
    },
    {
      "id": "body",
      "type": "SelectorText",
      "parentSelectors": [
        "link"
      ],
      "selector": ".body",
      "multiple": true,
      "regex": "",
      "delay": 0
    }
  ]
}
    "###,
            ),
            vec![Artifact {
                tag: "source_url".into(),
                data: Some(Arc::new("http://url-root.com/article".into())),
                children: vec![
                    Artifact {
                        tag: "link".into(),
                        data: Some(Arc::new("http://url-a.com".into())),
                        children: vec![
                            Artifact {
                                tag: "title".into(),
                                data: Some(Arc::new("title A".into())),
                                children: vec![],
                            },
                            Artifact {
                                tag: "body".into(),
                                data: Some(Arc::new("body A1 body A2".into())),
                                children: vec![],
                            },
                        ],
                    },
                    Artifact {
                        tag: "link".into(),
                        data: Some(Arc::new("http://url-b.com".into())),
                        children: vec![
                            Artifact {
                                tag: "title".into(),
                                data: Some(Arc::new("title B".into())),
                                children: vec![],
                            },
                            Artifact {
                                tag: "body".into(),
                                data: Some(Arc::new("body B1 body B2".into())),
                                children: vec![],
                            },
                        ],
                    },
                ],
            }],
        ),
        (
            "test SelectorElement",
            Pages::new(vec![(
                "http://url-root.com/article",
                r###"
                    <div class="contents">
                        <p class="title">title a</p>
                        <p class="body">body a</p>
                    </div>
                    <div class="contents">
                        <p class="title">title b</p>
                        <p class="body">body b</p>
                    </div>
                    <div class="contents">
                        <p class="title">title c</p>
                        <p class="body">body c</p>
                    </div>
                "###,
            )]),
            tree_from_json(
                r###"
{
  "_id": "test",
  "startUrl": [
    "http://url-root.com/article"
  ],
  "selectors": [
    {
      "id": "content",
      "type": "SelectorElement",
      "parentSelectors": [
        "_root"
      ],
      "selector": ".contents",
      "multiple": true,
      "delay": 0
    },
    {
      "id": "title",
      "type": "SelectorText",
      "parentSelectors": [
        "content"
      ],
      "selector": ".title",
      "multiple": false,
      "regex": "",
      "delay": 0
    },
    {
      "id": "body",
      "type": "SelectorText",
      "parentSelectors": [
        "content"
      ],
      "selector": ".body",
      "multiple": true,
      "regex": "",
      "delay": 0
    }
  ]
}
    "###,
            ),
            vec![Artifact {
                tag: "source_url".into(),
                data: Some(Arc::new("http://url-root.com/article".into())),
                children: vec![
                    Artifact {
                        tag: "content".into(),
                        data: None,
                        children: vec![
                            Artifact {
                                tag: "title".into(),
                                data: Some(Arc::new("title a".into())),
                                children: vec![],
                            },
                            Artifact {
                                tag: "body".into(),
                                data: Some(Arc::new("body a".into())),
                                children: vec![],
                            },
                        ],
                    },
                    Artifact {
                        tag: "content".into(),
                        data: None,
                        children: vec![
                            Artifact {
                                tag: "title".into(),
                                data: Some(Arc::new("title b".into())),
                                children: vec![],
                            },
                            Artifact {
                                tag: "body".into(),
                                data: Some(Arc::new("body b".into())),
                                children: vec![],
                            },
                        ],
                    },
                    Artifact {
                        tag: "content".into(),
                        data: None,
                        children: vec![
                            Artifact {
                                tag: "title".into(),
                                data: Some(Arc::new("title c".into())),
                                children: vec![],
                            },
                            Artifact {
                                tag: "body".into(),
                                data: Some(Arc::new("body c".into())),
                                children: vec![],
                            },
                        ],
                    },
                ],
            }],
        ),
        (
            "test SelectorImage",
            Pages::new(vec![(
                "http://url-root.com/article",
                r###"
                <img class="thumbnail" src="http://image-a.com">
                <img class="thumbnail" src="http://image-b.com">
                <img class="thumbnail" src="http://image-c.com">
                "###,
            )]),
            tree_from_json(
                r###"
{
  "_id": "test",
  "startUrl": [
    "http://url-root.com/article"
  ],
  "selectors": [
    {
      "id": "image",
      "type": "SelectorImage",
      "parentSelectors": [
        "_root"
      ],
      "selector": ".thumbnail",
      "multiple": true,
      "delay": 0
    }
  ]
}
    "###,
            ),
            vec![Artifact {
                tag: "source_url".into(),
                data: Some(Arc::new("http://url-root.com/article".into())),
                children: vec![
                    Artifact {
                        tag: "image".into(),
                        data: Some(Arc::new("http://image-a.com".into())),
                        children: vec![],
                    },
                    Artifact {
                        tag: "image".into(),
                        data: Some(Arc::new("http://image-b.com".into())),
                        children: vec![],
                    },
                    Artifact {
                        tag: "image".into(),
                        data: Some(Arc::new("http://image-c.com".into())),
                        children: vec![],
                    },
                ],
            }],
        ),
    ];

    for (name, mut pages, selector, expected) in test_data {
        let output = run(&selector, &no_skip(), AccessLog::new(), &mut pages).unwrap();

        assert_eq!(expected, output.artifacts, "{}", name)
    }
}

#[test]
fn a_crawl_asks_for_the_pages_in_document_order() {
    let mut pages = link_pages();
    run(&link_tree(), &no_skip(), AccessLog::new(), &mut pages).unwrap();
    assert_eq!(pages.asked_urls(), vec![ROOT, "http://url-a.com", "http://url-b.com"]);
}

#[test]
fn a_crawl_records_the_marker_of_each_fetched_url() {
    let mut pages = link_pages();
    let output = run(&link_tree(), &no_skip(), AccessLog::new(), &mut pages).unwrap();
    let expected: HashMap<String, String> = vec![ROOT, "http://url-a.com", "http://url-b.com"]
        .into_iter()
        .map(|url| (url.to_string(), format!("seen {}", url)))
        .collect();
    assert_eq!(log_as_map(&output.access_log), expected);
}

#[test]
fn a_request_carries_the_marker_of_the_log() {
    let mut log = AccessLog::new();
    log.record("http://url-a.com".to_string(), "Mon, 01 Jan 2024 00:00:00 GMT".to_string());
    let mut pages = link_pages();
    let output = run(&link_tree(), &no_skip(), log, &mut pages).unwrap();
    assert_eq!(
        pages.asked,
        vec![
            FetchRequest {
                url: ROOT.to_string(),
                since: None
            },
            FetchRequest {
                url: "http://url-a.com".to_string(),
                since: Some("Mon, 01 Jan 2024 00:00:00 GMT".to_string())
            },
            FetchRequest {
                url: "http://url-b.com".to_string(),
                since: None
            },
        ]
    );
    assert_eq!(
        log_as_map(&output.access_log).get("http://url-a.com").unwrap(),
        "seen http://url-a.com"
    );
}

#[test]
fn a_skipped_url_is_neither_fetched_nor_logged_nor_extracted() {
    let mut pages = link_pages();
    let skip = SkipSet::new(vec!["http://url-a.com".to_string()]);
    let output = run(&link_tree(), &skip, AccessLog::new(), &mut pages).unwrap();
    assert_eq!(pages.asked_urls(), vec![ROOT, "http://url-b.com"]);
    assert_eq!(
        output.artifacts,
        start(vec![link(
            "http://url-b.com",
            vec![leaf("title", "title B"), leaf("body", "body B1 body B2")]
        )])
    );
    assert!(!output.access_log.contains("http://url-a.com"));
    assert!(output.access_log.contains("http://url-b.com"));
}

#[test]
fn a_skipped_url_keeps_the_marker_that_it_had() {
    let mut pages = link_pages();
    let skip = SkipSet::new(vec!["http://url-b.com".to_string()]);
    let mut log = AccessLog::new();
    log.record("http://url-b.com".to_string(), "old".to_string());
    let output = run(&link_tree(), &skip, log, &mut pages).unwrap();
    assert_eq!(output.access_log.marker("http://url-b.com"), Some("old".to_string()));
    assert_eq!(pages.asked_urls(), vec![ROOT, "http://url-a.com"]);
}

#[test]
fn the_start_url_is_fetched_even_when_it_is_in_the_skip_set() {
    let mut pages = link_pages();
    let skip = SkipSet::new(vec![ROOT.to_string()]);
    let output = run(&link_tree(), &skip, AccessLog::new(), &mut pages).unwrap();
    assert_eq!(pages.asked_urls(), vec![ROOT, "http://url-a.com", "http://url-b.com"]);
    assert_eq!(output.artifacts[0].children.len(), 2);
}

#[test]
fn an_unchanged_url_gives_no_artifact_and_keeps_its_marker() {
    let mut pages = link_pages().unchanged("http://url-a.com");
    let mut log = AccessLog::new();
    log.record("http://url-a.com".to_string(), "old".to_string());
    let output = run(&link_tree(), &no_skip(), log, &mut pages).unwrap();
    assert_eq!(pages.asked_urls(), vec![ROOT, "http://url-a.com", "http://url-b.com"]);
    assert_eq!(
        output.artifacts,
        start(vec![link(
            "http://url-b.com",
            vec![leaf("title", "title B"), leaf("body", "body B1 body B2")]
        )])
    );
    assert_eq!(output.access_log.marker("http://url-a.com"), Some("old".to_string()));
}

#[test]
fn an_unchanged_url_without_marker_is_still_logged() {
    let mut pages = link_pages().unchanged("http://url-b.com");
    let output = run(&link_tree(), &no_skip(), AccessLog::new(), &mut pages).unwrap();
    assert_eq!(output.artifacts[0].children.len(), 1);
    assert_eq!(output.access_log.marker("http://url-b.com"), Some(String::new()));
}

#[test]
fn an_unchanged_start_gives_the_start_artifact_alone() {
    let mut pages = link_pages().unchanged(ROOT);
    let output = run(&link_tree(), &no_skip(), AccessLog::new(), &mut pages).unwrap();
    assert_eq!(output.artifacts, start(vec![]));
    assert_eq!(pages.asked_urls(), vec![ROOT]);
    assert!(output.access_log.contains(ROOT));
    assert_eq!(format_map_list(output.artifacts).len(), 0);
}

#[test]
fn a_failed_fetch_ends_the_crawl() {
    let mut pages = Pages::new(vec![
        (ROOT, r#"<a class="url" href="http://url-a.com">a</a><a class="url" href="http://gone.com">b</a>"#),
        ("http://url-a.com", r#"<p class="title">title A</p>"#),
    ]);
    let err = run(&link_tree(), &no_skip(), AccessLog::new(), &mut pages).unwrap_err();
    assert_eq!(
        err,
        CrawlError::Fetch {
            url: "http://gone.com".to_string(),
            message: "html not found by the url: http://gone.com".to_string()
        }
    );
}

#[test]
fn a_failed_start_ends_the_crawl() {
    let mut pages = Pages::new(vec![]);
    let err = run(&link_tree(), &no_skip(), AccessLog::new(), &mut pages).unwrap_err();
    assert_eq!(
        err,
        CrawlError::Fetch {
            url: ROOT.to_string(),
            message: format!("html not found by the url: {}", ROOT)
        }
    );
}

#[test]
fn a_selector_that_does_not_parse_ends_the_crawl() {
    let tree = tree_of(vec![
        record("title", "SelectorText", vec!["_root"], ".title", false),
        record("broken", "SelectorText", vec!["_root"], "p[", false),
    ]);
    let mut pages = Pages::new(vec![(ROOT, r#"<p class="title">t</p>"#)]);
    let err = run(&tree, &no_skip(), AccessLog::new(), &mut pages).unwrap_err();
    assert_eq!(
        err,
        CrawlError::SelectorSyntax {
            selector: "p[".to_string()
        }
    );
}

#[test]
fn a_selector_that_does_not_parse_is_found_only_when_it_is_used() {
    let tree = tree_of(vec![
        record("link", "SelectorLink", vec!["_root"], ".url", true),
        record("broken", "SelectorImage", vec!["link"], "img>>", false),
    ]);
    let mut pages = Pages::new(vec![(ROOT, "<p>no links here</p>")]);
    let output = run(&tree, &no_skip(), AccessLog::new(), &mut pages).unwrap();
    assert_eq!(output.artifacts, start(vec![]));
}

#[test]
fn a_forest_without_links_fetches_the_start_url_only() {
    let tree = tree_of(vec![
        record("content", "SelectorElement", vec!["_root"], ".contents", true),
        record("title", "SelectorText", vec!["content"], ".title", false),
        record("image", "SelectorImage", vec!["content"], "img", true),
    ]);
    let mut pages = Pages::new(vec![(
        ROOT,
        r#"<div class="contents"><p class="title">t</p><a href="http://url-a.com">a</a><img src="http://image-a.com"></div>"#,
    )]);
    let output = run(&tree, &no_skip(), AccessLog::new(), &mut pages).unwrap();
    assert_eq!(pages.asked_urls(), vec![ROOT]);
    assert_eq!(
        output.artifacts,
        start(vec![Artifact {
            tag: "content".into(),
            data: None,
            children: vec![leaf("title", "t"), leaf("image", "http://image-a.com")],
        }])
    );
}

#[test]
fn a_single_selector_uses_the_first_match_only() {
    let tree = tree_of(vec![
        record("link", "SelectorLink", vec!["_root"], ".url", false),
        record("title", "SelectorText", vec!["link"], ".title", false),
        record("body", "SelectorText", vec!["link"], ".body", false),
        record("image", "SelectorImage", vec!["_root"], "img", false),
        record("group", "SelectorElement", vec!["_root"], ".group", false),
        record("name", "SelectorText", vec!["group"], "span", true),
    ]);
    let mut pages = link_pages();
    pages.pages.insert(
        ROOT.to_string(),
        r#"
            <a class="url" href="http://url-a.com">url a</a>
            <a class="url" href="http://url-b.com">url b</a>
            <img src="http://image-a.com"><img src="http://image-b.com">
            <div class="group"><span>one</span><span>two</span></div>
            <div class="group"><span>three</span></div>
        "#
        .to_string(),
    );
    let output = run(&tree, &no_skip(), AccessLog::new(), &mut pages).unwrap();
    assert_eq!(pages.asked_urls(), vec![ROOT, "http://url-a.com"]);
    assert_eq!(
        output.artifacts,
        start(vec![
            link(
                "http://url-a.com",
                vec![leaf("title", "title A"), leaf("body", "body A1")]
            ),
            leaf("image", "http://image-a.com"),
            Artifact {
                tag: "group".into(),
                data: None,
                children: vec![leaf("name", "one two")],
            },
        ])
    );
}

#[test]
fn a_text_selector_without_match_gives_an_empty_leaf() {
    let tree = tree_of(vec![record("title", "SelectorText", vec!["_root"], ".title", true)]);
    let mut pages = Pages::new(vec![(ROOT, "<p>nothing</p>")]);
    let output = run(&tree, &no_skip(), AccessLog::new(), &mut pages).unwrap();
    assert_eq!(output.artifacts, start(vec![leaf("title", "")]));
}

#[test]
fn a_link_below_an_element_is_followed() {
    let tree = tree_of(vec![
        record("item", "SelectorElement", vec!["_root"], "li", true),
        record("name", "SelectorText", vec!["item"], "b", false),
        record("link", "SelectorLink", vec!["item"], "a", false),
        record("title", "SelectorText", vec!["link"], ".title", false),
    ]);
    let mut pages = link_pages();
    pages.pages.insert(
        ROOT.to_string(),
        r#"<ul>
            <li><b>first</b><a href="http://url-a.com">a</a></li>
            <li><b>second</b><a href="http://url-b.com">b</a></li>
        </ul>"#
            .to_string(),
    );
    let output = run(&tree, &no_skip(), AccessLog::new(), &mut pages).unwrap();
    let item = |name: &str, url: &str, title: &str| Artifact {
        tag: "item".into(),
        data: None,
        children: vec![leaf("name", name), link(url, vec![leaf("title", title)])],
    };
    assert_eq!(
        output.artifacts,
        start(vec![
            item("first", "http://url-a.com", "title A"),
            item("second", "http://url-b.com", "title B"),
        ])
    );
    assert_eq!(pages.asked_urls(), vec![ROOT, "http://url-a.com", "http://url-b.com"]);
}

#[test]
fn a_match_without_the_attribute_gives_nothing() {
    let tree = tree_of(vec![
        record("image", "SelectorImage", vec!["_root"], "img", true),
        record("first", "SelectorImage", vec!["_root"], "img", false),
    ]);
    let mut pages = Pages::new(vec![(ROOT, r#"<img alt="none"><img src="http://image-b.com">"#)]);
    let output = run(&tree, &no_skip(), AccessLog::new(), &mut pages).unwrap();
    assert_eq!(output.artifacts, start(vec![leaf("image", "http://image-b.com")]));
}

#[test]
fn crawl_and_flatten_give_one_row_per_link() {
    let mut pages = link_pages();
    let output = run(&link_tree(), &no_skip(), AccessLog::new(), &mut pages).unwrap();
    let rows = format_map_list(output.artifacts);
    assert_eq!(rows.len(), 2);
    let expected = |title: &str, url: &str, body: &str| -> HashMap<String, String> {
        vec![
            ("title", title),
            ("link", url),
            ("body", body),
            ("source_url", ROOT),
        ]
        .into_iter()
        .map(|(k, v)| (k.to_string(), v.to_string()))
        .collect()
    };
    assert_eq!(as_map(&rows[0]), expected("title A", "http://url-a.com", "body A1 body A2"));
    assert_eq!(as_map(&rows[1]), expected("title B", "http://url-b.com", "body B1 body B2"));
}

#[test]
fn a_step_without_reply_asks_again() {
    let tree = link_tree();
    let skip = no_skip();
    let crawl = Crawl::new(&tree, &skip, AccessLog::new());
    assert_eq!(crawl.status(), Status::Start);
    let (crawl, first) = match crawl.step(None) {
        Progress::Fetch(crawl, request) => (crawl, request),
        _ => panic!("the first step asks for the start URL"),
    };
    assert_eq!(crawl.status(), Status::AwaitingStart);
    let (crawl, again) = match crawl.step(None) {
        Progress::Fetch(crawl, request) => (crawl, request),
        _ => panic!("a step without reply asks again"),
    };
    assert_eq!(first, again);
    assert_eq!(first.url, ROOT);
    assert_eq!(crawl.status(), Status::AwaitingStart);
    let crawl = match crawl.step(Some(FetchReply::Fresh {
        body: String::new(),
        marker: "m".to_string(),
    })) {
        Progress::Continue(crawl) => crawl,
        _ => panic!("a fresh start goes on"),
    };
    assert_eq!(crawl.status(), Status::Running);
}

#[test]
fn a_reply_that_is_not_awaited_is_not_looked_at() {
    let tree = tree_of(vec![record("title", "SelectorText", vec!["_root"], "h1", false)]);
    let skip = no_skip();
    let mut crawl = Crawl::new(&tree, &skip, AccessLog::new());
    crawl = match crawl.step(None) {
        Progress::Fetch(crawl, _) => crawl,
        _ => panic!("the first step asks for the start URL"),
    };
    crawl = match crawl.step(Some(FetchReply::Fresh {
        body: "<h1>head</h1>".to_string(),
        marker: "m".to_string(),
    })) {
        Progress::Continue(crawl) => crawl,
        _ => panic!("a fresh start goes on"),
    };
    let stray = || {
        Some(FetchReply::Failed {
            message: "stray".to_string(),
        })
    };
    crawl = match crawl.step(stray()) {
        Progress::Continue(crawl) => crawl,
        _ => panic!("the selector is evaluated"),
    };
    match crawl.step(stray()) {
        Progress::Finished(Ok(output)) => {
            assert_eq!(output.artifacts, start(vec![leaf("title", "head")]))
        }
        _ => panic!("the crawl ends with its artifacts"),
    }
}

#[test]
fn stepping_and_running_give_the_same() {
    let mut first = link_pages();
    let mut second = link_pages();
    let ran = run(&link_tree(), &no_skip(), AccessLog::new(), &mut first).unwrap();
    let (stepped, steps) = run_by_steps(&link_tree(), &no_skip(), AccessLog::new(), &mut second);
    let stepped = stepped.unwrap();
    assert_eq!(ran.artifacts, stepped.artifacts);
    assert_eq!(log_as_map(&ran.access_log), log_as_map(&stepped.access_log));
    assert_eq!(first.asked, second.asked);
    // Start and its reply; the link selector, its end and the end of the
    // roots; for each of the two URLs the request, the reply, two text
    // selectors and the end of the children.
    assert_eq!(steps, 2 + 3 + 2 * 5);
}

#[test]
fn a_run_goes_on_to_the_next_request() {
    let tree = tree_of(vec![
        record("title", "SelectorText", vec!["_root"], ".title", false),
        record("group", "SelectorElement", vec!["_root"], ".group", true),
        record("name", "SelectorText", vec!["group"], "span", false),
        record("link", "SelectorLink", vec!["_root"], "a", true),
    ]);
    let skip = SkipSet::new(vec!["http://skipped.com".to_string()]);
    let crawl = Crawl::new(&tree, &skip, AccessLog::new());
    let crawl = match crawl.run(None) {
        Progress::Fetch(crawl, request) => {
            assert_eq!(request.url, ROOT);
            crawl
        }
        _ => panic!("the crawl asks for the start URL"),
    };
    let page = r#"
        <p class="title">t</p>
        <div class="group"><span>one</span></div>
        <div class="group"><span>two</span></div>
        <a href="http://skipped.com">s</a>
        <a href="http://url-a.com">a</a>
    "#;
    let crawl = match crawl.run(Some(FetchReply::Fresh {
        body: page.to_string(),
        marker: "m".to_string(),
    })) {
        Progress::Fetch(crawl, request) => {
            assert_eq!(request.url, "http://url-a.com");
            assert_eq!(crawl.status(), Status::AwaitingLink);
            crawl
        }
        _ => panic!("the crawl asks for the first URL that is not skipped"),
    };
    match crawl.run(Some(FetchReply::Fresh {
        body: String::new(),
        marker: "m".to_string(),
    })) {
        Progress::Finished(Ok(output)) => assert_eq!(
            output.artifacts,
            start(vec![
                leaf("title", "t"),
                Artifact {
                    tag: "group".into(),
                    data: None,
                    children: vec![leaf("name", "one")],
                },
                Artifact {
                    tag: "group".into(),
                    data: None,
                    children: vec![leaf("name", "two")],
                },
                link("http://url-a.com", vec![]),
            ])
        ),
        _ => panic!("the crawl ends"),
    }
}

#[test]
fn test_fetcher_crawler_test() {
    let test_data = vec![(
        link_pages(),
        tree_from_json(
            r###"
{
  "_id": "test",
  "startUrl": [
    "http://url-root.com/article"
  ],
  "selectors": [
    {
      "id": "link",
      "type": "SelectorLink",
      "parentSelectors": [
        "_root"
      ],
      "selector": ".url",
      "multiple": true,
      "delay": 0
    },
    {
      "id": "title",
      "type": "SelectorText",
      "parentSelectors": [
        "link"
      ],
      "selector": ".title",
      "multiple": false,
      "regex": "",
      "delay": 0
    },
    {
      "id": "body",
      "type": "SelectorText",
      "parentSelectors": [
        "link"
      ],
      "selector": ".body",
      "multiple": true,
      "regex": "",
      "delay": 0
    }
  ]
}
    "###,
        ),
        AccessLog::new(),
        vec![Artifact {
            tag: "source_url".to_string(),
            data: Some(Arc::new("http://url-root.com/article".to_string())),
            children: vec![
                Artifact {
                    tag: "link".to_string(),
                    data: Some(Arc::new("http://url-a.com".to_string())),
                    children: vec![
                        Artifact {
                            tag: "title".to_string(),
                            data: Some(Arc::new("title A".to_string())),
                            children: vec![],
                        },
                        Artifact {
                            tag: "body".to_string(),
                            data: Some(Arc::new("body A1 body A2".to_string())),
                            children: vec![],
                        },
                    ],
                },
                Artifact {
                    tag: "link".to_string(),
                    data: Some(Arc::new("http://url-b.com".to_string())),
                    children: vec![
                        Artifact {
                            tag: "title".to_string(),
                            data: Some(Arc::new("title B".to_string())),
                            children: vec![],
                        },
                        Artifact {
                            tag: "body".to_string(),
                            data: Some(Arc::new("body B1 body B2".to_string())),
                            children: vec![],
                        },
                    ],
                },
            ],
        }],
    )];

    for (mut pages, selector, access_log, expected) in test_data {
        let (outcome, _) = run_by_steps(&selector, &no_skip(), access_log, &mut pages);

        assert_eq!(expected, outcome.unwrap().artifacts)
    }
}

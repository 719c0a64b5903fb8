use sitemap_crawler::artifact::Artifact;
use sitemap_crawler::formatter::FormatError;
use sitemap_crawler::access::AccessLog;
use sitemap_crawler::job::{
    content_id, contents_from_rows, contents_of_crawl, followed_urls, record_columns, Content,
    ContentModel,
};
use std::sync::Arc;

const STAMP: &str = "2021-03-04T05:06:07+00:00";

fn shared(s: &str) -> Arc<String> {
    Arc::new(s.to_string())
}

fn leaf(tag: &str, data: &str) -> Artifact {
    Artifact {
        tag: tag.to_string(),
        data: Some(shared(data)),
        children: vec![],
    }
}

fn crawled() -> Vec<Artifact> {
    vec![Artifact {
        tag: "source_url".to_string(),
        data: Some(shared("http://url-root.com/article")),
        children: vec![
            Artifact {
                tag: "link".to_string(),
                data: Some(shared("http://url-a.com")),
                children: vec![leaf("title", "title A"), leaf("body", "body A1 body A2")],
            },
            Artifact {
                tag: "link".to_string(),
                data: Some(shared("http://url-b.com")),
                children: vec![leaf("title", "title B"), leaf("body", "body B1 body B2")],
            },
        ],
    }]
}

#[test]
fn the_id_of_a_record_is_the_digest_of_url_and_time() {
    assert_eq!(
        content_id("http://url-a.com", STAMP),
        "809a9e7af2a1dbe9d32ae5a35d136595d098415d"
    );
    assert_eq!(content_id("", ""), "da39a3ee5e6b4b0d3255bfef95601890afd80709");
}

#[test]
fn the_columns_of_a_record() {
    assert_eq!(record_columns(), vec!["title", "body", "link", "source_url"]);
}

#[test]
fn each_row_of_a_crawl_becomes_a_record() {
    let contents = contents_of_crawl(crawled(), 7, STAMP).unwrap();
    assert_eq!(
        contents,
        vec![
            Content {
                id: "809a9e7af2a1dbe9d32ae5a35d136595d098415d".to_string(),
                url: "http://url-a.com".to_string(),
                source_id: 7,
                title: "title A".to_string(),
                body: "body A1 body A2".to_string(),
                created_at: STAMP.to_string(),
            },
            Content {
                id: "7c31df90d3d28f8ca02126dec92cad2d83e3127d".to_string(),
                url: "http://url-b.com".to_string(),
                source_id: 7,
                title: "title B".to_string(),
                body: "body B1 body B2".to_string(),
                created_at: STAMP.to_string(),
            },
        ]
    );
}

#[test]
fn a_crawl_without_rows_gives_no_record() {
    let artifacts = vec![Artifact {
        tag: "source_url".to_string(),
        data: Some(shared("http://url-root.com/article")),
        children: vec![],
    }];
    assert_eq!(contents_of_crawl(artifacts, 1, STAMP).unwrap(), vec![]);
}

#[test]
fn a_row_without_a_column_of_a_record_fails() {
    let artifacts = vec![Artifact {
        tag: "source_url".to_string(),
        data: Some(shared("http://url-root.com/article")),
        children: vec![Artifact {
            tag: "link".to_string(),
            data: Some(shared("http://url-a.com")),
            children: vec![leaf("title", "title A")],
        }],
    }];
    match contents_of_crawl(artifacts, 1, STAMP).unwrap_err() {
        FormatError::MissingField { column, row } => {
            assert_eq!(column, "body");
            assert!(row.contains_key("title"));
            assert!(row.contains_key("link"));
        }
    }
}

#[test]
fn lines_of_another_width_are_no_records() {
    let short = vec![vec![shared("t"), shared("b"), shared("l")]];
    assert_eq!(contents_from_rows(&short, 1, STAMP), None);
    let mixed = vec![
        vec![shared("t"), shared("b"), shared("l"), shared("s")],
        vec![shared("t"), shared("b"), shared("l"), shared("s"), shared("x")],
    ];
    assert_eq!(contents_from_rows(&mixed, 1, STAMP), None);
    assert_eq!(contents_from_rows(&vec![], 1, STAMP), Some(vec![]));
}

#[test]
fn the_stored_form_of_a_record_has_no_time() {
    let content = Content {
        id: "id".to_string(),
        url: "http://url-a.com".to_string(),
        source_id: 3,
        title: "t".to_string(),
        body: "b".to_string(),
        created_at: STAMP.to_string(),
    };
    assert_eq!(
        ContentModel::from_content(content),
        ContentModel {
            id: "id".to_string(),
            url: "http://url-a.com".to_string(),
            source_id: 3,
            title: "t".to_string(),
            body: "b".to_string(),
        }
    );
}

#[test]
fn the_followed_urls_are_the_urls_of_the_log_but_the_start() {
    let mut log = AccessLog::new();
    log.record("http://url-root.com/article".to_string(), "r".to_string());
    log.record("http://url-b.com".to_string(), "b".to_string());
    log.record("http://url-a.com".to_string(), "a".to_string());
    log.record("http://url-b.com".to_string(), "again".to_string());
    assert_eq!(
        followed_urls(&log, "http://url-root.com/article"),
        vec!["http://url-b.com", "http://url-a.com"]
    );
    assert_eq!(
        followed_urls(&log, "http://elsewhere.com"),
        vec!["http://url-root.com/article", "http://url-b.com", "http://url-a.com"]
    );
    assert_eq!(followed_urls(&AccessLog::new(), "x"), Vec::<String>::new());
}

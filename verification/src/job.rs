//! The records that one crawl of a source gives.
//!
//! The artifacts of the crawl are flattened and projected onto the columns
//! of a record; each line that comes out is one record. A record is named by
//! a hash over its URL and the time of the crawl.

use std::sync::Arc;
use vstd::prelude::*;
use crate::access::AccessLog;
use crate::artifact::{Artifact, ArtifactView, artifacts_view};
use crate::selector_tree::strings_view;
use crate::text::same;
use crate::formatter::{
    FormatError, FormatErrorView, RowView, columns_view, flatten, project, table_view, values_view,
};

verus! {

/// One extracted record.
#[derive(Clone, Debug, PartialEq, Eq)]
pub struct Content {
    pub id: String,
    pub url: String,
    pub source_id: i32,
    pub title: String,
    pub body: String,
    /// The time of the crawl, as it was given.
    pub created_at: String,
}

pub struct ContentView {
    pub id: Seq<char>,
    pub url: Seq<char>,
    pub source_id: i32,
    pub title: Seq<char>,
    pub body: Seq<char>,
    pub created_at: Seq<char>,
}

impl View for Content {
    type V = ContentView;

    open spec fn view(&self) -> ContentView {
        ContentView {
            id: self.id@,
            url: self.url@,
            source_id: self.source_id,
            title: self.title@,
            body: self.body@,
            created_at: self.created_at@,
        }
    }
}

/// One extracted record as the store holds it.
#[derive(Clone, Debug, PartialEq, Eq)]
pub struct ContentModel {
    pub id: String,
    pub url: String,
    pub source_id: i32,
    pub title: String,
    pub body: String,
}

impl ContentModel {
    /// The stored form of a record: the record without its time.
    pub fn from_content(entity: Content) -> (r: ContentModel)
        ensures
            r.id@ == entity.id@,
            r.url@ == entity.url@,
            r.source_id == entity.source_id,
            r.title@ == entity.title@,
            r.body@ == entity.body@,
    {
        ContentModel {
            id: entity.id,
            url: entity.url,
            source_id: entity.source_id,
            title: entity.title,
            body: entity.body,
        }
    }
}

/// The SHA-1 digest of the UTF-8 bytes of `data`, in lower-case hexadecimal
/// digits, as the `sha1` crate computes it.
pub uninterp spec fn sha1_hex_of(data: Seq<char>) -> Seq<char>;

/// Calls `Sha1::new`, `update` and `finalize` of the `sha1` crate on the
/// bytes of `data`, and writes the digest in hexadecimal digits.
///
/// Claimed: the result depends on `data` alone.
#[verifier::external_body]
fn sha1_hex(data: &str) -> (r: String)
    ensures
        r@ == sha1_hex_of(data@),
{
    let mut hasher = <sha1::Sha1 as sha1::Digest>::new();
    sha1::Digest::update(&mut hasher, data);
    format!("{:x}", sha1::Digest::finalize(hasher))
}

/// The id of the record with the URL `url` that a crawl at the time `stamp`
/// gave.
pub open spec fn content_id_of(url: Seq<char>, stamp: Seq<char>) -> Seq<char> {
    sha1_hex_of(url + stamp)
}

/// The id of the record with the URL `url` that a crawl at the time `stamp`
/// gave: the digest of the two in a row.
pub fn content_id(url: &str, stamp: &str) -> (r: String)
    ensures
        r@ == content_id_of(url@, stamp@),
{
    let mut text = String::new();
    text.append(url);
    text.append(stamp);
    assert(text@ =~= url@ + stamp@);
    sha1_hex(text.as_str())
}

/// The number of columns of a record.
pub open spec fn record_width() -> nat {
    4
}

/// The record that one projected line stands for: the title, the body, the
/// link and the start URL, in this order.
pub open spec fn content_of(line: Seq<Seq<char>>, source_id: i32, stamp: Seq<char>) -> ContentView
    recommends
        line.len() == record_width(),
{
    ContentView {
        id: content_id_of(line[2], stamp),
        url: line[2],
        source_id,
        title: line[0],
        body: line[1],
        created_at: stamp,
    }
}

/// The records of the lines that are as wide as a record.
pub open spec fn contents_of(table: Seq<Seq<Seq<char>>>, source_id: i32, stamp: Seq<char>) -> Seq<
    ContentView,
> {
    table.map_values(|line: Seq<Seq<char>>| content_of(line, source_id, stamp))
}

/// The views of a list of records.
pub open spec fn contents_view(v: Seq<Content>) -> Seq<ContentView> {
    v.map_values(|c: Content| c@)
}

/// The record of each line. `None` when a line is not as wide as a record.
pub fn contents_from_rows(rows: &Vec<Vec<Arc<String>>>, source_id: i32, stamp: &str) -> (r: Option<
    Vec<Content>,
>)
    ensures
        match r {
            Some(contents) => {
                &&& forall|i: int|
                    0 <= i < rows@.len() ==> (#[trigger] rows@[i])@.len() == record_width()
                &&& contents_view(contents@) == contents_of(table_view(rows@), source_id, stamp@)
            },
            None => exists|i: int|
                0 <= i < rows@.len() && (#[trigger] rows@[i])@.len() != record_width(),
        },
{
    let ghost table = table_view(rows@);
    let mut contents: Vec<Content> = Vec::new();
    let mut i: usize = 0;
    while i < rows.len()
        invariant
            i <= rows@.len(),
            table == table_view(rows@),
            contents@.len() == i,
            forall|j: int| 0 <= j < i ==> (#[trigger] rows@[j])@.len() == record_width(),
            forall|j: int|
                0 <= j < i ==> (#[trigger] contents@[j])@ == content_of(table[j], source_id, stamp@),
        decreases rows@.len() - i,
    {
        let row = &rows[i];
        if row.len() != 4 {
            return None;
        }
        assert(table[i as int] == values_view(row@));
        let content = Content {
            id: content_id(row[2].as_str(), stamp),
            url: (*row[2]).clone(),
            source_id,
            title: (*row[0]).clone(),
            body: (*row[1]).clone(),
            created_at: stamp.to_owned(),
        };
        contents.push(content);
        i += 1;
    }
    assert(contents_view(contents@) =~= contents_of(table, source_id, stamp@));
    Some(contents)
}

/// The columns of a record.
pub fn record_columns() -> (r: Vec<&'static str>)
    ensures
        r@.len() == record_width(),
        r@[0] == "title",
        r@[1] == "body",
        r@[2] == "link",
        r@[3] == "source_url",
{
    let mut columns: Vec<&'static str> = Vec::new();
    columns.push("title");
    columns.push("body");
    columns.push("link");
    columns.push("source_url");
    columns
}

/// The columns of a record, as contracts see them.
pub open spec fn record_columns_view() -> Seq<Seq<char>> {
    seq!["title"@, "body"@, "link"@, "source_url"@]
}

/// The records that the artifacts of a crawl hold, or the row that lacks a
/// column of a record.
pub open spec fn job_contents(artifacts: Seq<ArtifactView>, source_id: i32, stamp: Seq<char>) -> Result<
    Seq<ContentView>,
    FormatErrorView,
> {
    match project(flatten(artifacts), record_columns_view()) {
        Ok(table) => Ok(contents_of(table, source_id, stamp)),
        Err(e) => Err(e),
    }
}

/// Flattens the artifacts of a crawl of the source `source_id`, made at the
/// time `stamp`, and turns each row into a record. Fails when a row lacks a
/// column of a record.
pub fn contents_of_crawl(artifacts: Vec<Artifact>, source_id: i32, stamp: &str) -> (r: Result<
    Vec<Content>,
    FormatError,
>)
    ensures
        match r {
            Ok(contents) => job_contents(artifacts_view(artifacts@), source_id, stamp@) == Ok::<
                _,
                FormatErrorView,
            >(contents_view(contents@)),
            Err(e) => job_contents(artifacts_view(artifacts@), source_id, stamp@) == Err::<
                Seq<ContentView>,
                _,
            >(e@),
        },
{
    let columns = record_columns();
    assert(columns_view(columns@) =~= record_columns_view());
    let ghost rows = flatten(artifacts_view(artifacts@));
    match crate::formatter::format(artifacts, columns) {
        Ok(table) => {
            proof {
                lemma_project_width(rows, record_columns_view());
            }
            match contents_from_rows(&table, source_id, stamp) {
                Some(contents) => Ok(contents),
                None => {
                    proof {
                        let i = choose|i: int|
                            0 <= i < table@.len() && (#[trigger] table@[i])@.len()
                                != record_width();
                        assert(table_view(table@)[i].len() == table@[i]@.len());
                    }
                    unreached()
                },
            }
        },
        Err(e) => Err(e),
    }
}

/// Every line of a projection is as wide as the list of columns.
pub proof fn lemma_project_width(rows: Seq<RowView>, columns: Seq<Seq<char>>)
    ensures
        project(rows, columns) matches Ok(table) ==> forall|i: int|
            0 <= i < table.len() ==> (#[trigger] table[i]).len() == columns.len(),
    decreases rows.len(),
{
    if rows.len() > 0 {
        lemma_project_width(rows.drop_first(), columns);
    }
}

/// The URLs of `urls` but `start_url`, in their order.
pub open spec fn urls_but(urls: Seq<Seq<char>>, start_url: Seq<char>) -> Seq<Seq<char>> {
    urls.filter(|url: Seq<char>| url != start_url)
}

/// The URLs that a crawl followed: the URLs of its access log but the start
/// URL, in the order in which they came into the log.
pub fn followed_urls(log: &AccessLog, start_url: &str) -> (r: Vec<String>)
    ensures
        strings_view(r@) == urls_but(log.urls_in_order(), start_url@),
{
    let ghost all = log.urls_in_order();
    let count = log.len();
    let mut urls: Vec<String> = Vec::new();
    let mut i: usize = 0;
    proof {
        reveal(Seq::filter);
        assert(all.take(0) =~= Seq::empty());
    }
    while i < count
        invariant
            i <= count,
            count == all.len(),
            all == log.urls_in_order(),
            strings_view(urls@) == urls_but(all.take(i as int), start_url@),
        decreases count - i,
    {
        let ghost before = strings_view(urls@);
        proof {
            let grown = all.take(i + 1);
            assert(grown.drop_last() =~= all.take(i as int));
            assert(grown.last() == all[i as int]);
            reveal(Seq::filter);
        }
        match log.entry(i) {
            Some((url, _)) => {
                if !same(url.as_str(), start_url) {
                    urls.push(url);
                    assert(strings_view(urls@) =~= before.push(all[i as int]));
                }
            },
            None => {},
        }
        i += 1;
    }
    assert(all.take(count as int) =~= all);
    urls
}

} // verus!

//! Selection in HTML documents.
//!
//! Parsing of HTML and of CSS selectors, and the matching of the two, is the
//! work of the `scraper` crate. This module names what it returns and hands it
//! on as plain strings; nothing here is proved of the parser itself.

use vstd::prelude::*;
use crate::selector_tree::strings_view;

verus! {

/// Whether `scraper::Selector::parse` accepts `selector` as a CSS selector
/// group.
pub uninterp spec fn selector_parses(selector: Seq<char>) -> bool;

/// For each element of `document` that matches `selector`, in the order in
/// which `scraper::Html::select` yields them, the text nodes below it.
pub uninterp spec fn selected_text(document: Seq<char>, selector: Seq<char>) -> Seq<
    Seq<Seq<char>>,
>;

/// For each element of `document` that matches `selector`, in the order in
/// which `scraper::Html::select` yields them, the value of its attribute
/// `name`, if it has that attribute.
pub uninterp spec fn selected_attribute(
    document: Seq<char>,
    selector: Seq<char>,
    name: Seq<char>,
) -> Seq<Option<Seq<char>>>;

/// For each element of `document` that matches `selector`, in the order in
/// which `scraper::Html::select` yields them, the HTML of what it contains.
pub uninterp spec fn selected_inner_html(document: Seq<char>, selector: Seq<char>) -> Seq<
    Seq<char>,
>;

/// The views of the text nodes of a list of elements.
pub open spec fn chunks_view(v: Seq<Vec<String>>) -> Seq<Seq<Seq<char>>> {
    v.map_values(|c: Vec<String>| strings_view(c@))
}

/// The views of a list of optional strings.
pub open spec fn options_view(v: Seq<Option<String>>) -> Seq<Option<Seq<char>>> {
    v.map_values(
        |o: Option<String>|
            match o {
                Some(s) => Some(s@),
                None => None,
            },
    )
}

/// Calls `scraper::Selector::parse`, `scraper::Html::parse_document`,
/// `Html::select` and, on each element that comes out, `ElementRef::text`.
///
/// Claimed: the call fails exactly when the selector does not parse;
/// otherwise the result is the text nodes of the matching elements, which
/// depends on the document and the selector alone.
#[verifier::external_body]
pub(crate) fn select_text(document: &str, selector: &str) -> (r: Result<Vec<Vec<String>>, String>)
    ensures
        match r {
            Ok(found) => selector_parses(selector@) && chunks_view(found@) == selected_text(
                document@,
                selector@,
            ),
            Err(_) => !selector_parses(selector@),
        },
{
    let parsed = scraper::Selector::parse(selector).map_err(|e| e.to_string())?;
    let html = scraper::Html::parse_document(document);
    Ok(html.select(&parsed).map(|e| e.text().map(|s| s.to_string()).collect()).collect())
}

/// Calls `scraper::Selector::parse`, `scraper::Html::parse_document`,
/// `Html::select` and, on each element that comes out, `ElementRef::attr`.
///
/// Claimed: the call fails exactly when the selector does not parse;
/// otherwise the result is, for each matching element, the value of the
/// attribute or nothing, which depends on the document, the selector and the
/// attribute's name alone.
#[verifier::external_body]
pub(crate) fn select_attribute(document: &str, selector: &str, name: &str) -> (r: Result<
    Vec<Option<String>>,
    String,
>)
    ensures
        match r {
            Ok(found) => selector_parses(selector@) && options_view(found@) == selected_attribute(
                document@,
                selector@,
                name@,
            ),
            Err(_) => !selector_parses(selector@),
        },
{
    let parsed = scraper::Selector::parse(selector).map_err(|e| e.to_string())?;
    let html = scraper::Html::parse_document(document);
    Ok(html.select(&parsed).map(|e| e.attr(name).map(|s| s.to_string())).collect())
}

/// Calls `scraper::Selector::parse`, `scraper::Html::parse_document`,
/// `Html::select` and, on each element that comes out,
/// `ElementRef::inner_html`.
///
/// Claimed: the call fails exactly when the selector does not parse;
/// otherwise the result is the inner HTML of the matching elements, which
/// depends on the document and the selector alone.
#[verifier::external_body]
pub(crate) fn select_inner_html(document: &str, selector: &str) -> (r: Result<Vec<String>, String>)
    ensures
        match r {
            Ok(found) => selector_parses(selector@) && strings_view(found@) == selected_inner_html(
                document@,
                selector@,
            ),
            Err(_) => !selector_parses(selector@),
        },
{
    let parsed = scraper::Selector::parse(selector).map_err(|e| e.to_string())?;
    let html = scraper::Html::parse_document(document);
    Ok(html.select(&parsed).map(|e| e.inner_html()).collect())
}

} // verus!

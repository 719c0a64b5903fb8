//! What one selector extracts from one document.
//!
//! Every kind of selector first selects the matching elements. A selector that
//! is not `multiple` keeps the first of them only. A text selector then joins
//! the text of what it kept; an image or link selector takes an attribute of
//! each; an element selector takes the inner HTML of each.

use vstd::prelude::*;
use crate::html::{
    chunks_view, options_view, select_attribute, select_inner_html, select_text,
    selected_attribute, selected_inner_html, selected_text, selector_parses,
};
use crate::selector_tree::{SelectorNode, SelectorNodeView, strings_view};

verus! {

/// A CSS selector of the tree did not parse.
#[derive(Clone, Debug, PartialEq, Eq)]
pub struct SelectorSyntaxError {
    pub selector: String,
}

/// What is kept of the matches: all of them for a `multiple` selector, else
/// the first.
pub open spec fn retained<T>(found: Seq<T>, multiple: bool) -> Seq<T> {
    if multiple || found.len() == 0 {
        found
    } else {
        found.take(1)
    }
}

/// The values that are there, in their order.
pub open spec fn present(found: Seq<Option<Seq<char>>>) -> Seq<Seq<char>>
    decreases found.len(),
{
    if found.len() == 0 {
        Seq::empty()
    } else {
        match found.last() {
            Some(value) => present(found.drop_last()).push(value),
            None => present(found.drop_last()),
        }
    }
}

/// The parts in a row, with `separator` between each two.
pub open spec fn join(parts: Seq<Seq<char>>, separator: Seq<char>) -> Seq<char>
    decreases parts.len(),
{
    if parts.len() == 0 {
        Seq::empty()
    } else if parts.len() == 1 {
        parts[0]
    } else {
        join(parts.drop_last(), separator) + separator + parts.last()
    }
}

/// What separates the pieces of a text.
pub open spec fn space() -> Seq<char> {
    " "@
}

/// The text of one element: its text nodes, joined by single spaces.
pub open spec fn element_text(chunks: Seq<Seq<char>>) -> Seq<char> {
    join(chunks, space())
}

/// The text of the kept elements, joined by single spaces.
pub open spec fn joined_text(found: Seq<Seq<Seq<char>>>, multiple: bool) -> Seq<char> {
    join(retained(found, multiple).map_values(|c: Seq<Seq<char>>| element_text(c)), space())
}

/// The value of a text selector on a document.
pub open spec fn node_text(document: Seq<char>, node: SelectorNodeView) -> Seq<char> {
    joined_text(selected_text(document, node.selector), node.multiple)
}

/// The name of the attribute that holds an image's address.
pub open spec fn image_attribute() -> Seq<char> {
    "src"@
}

/// The name of the attribute that holds a link's address.
pub open spec fn link_attribute() -> Seq<char> {
    "href"@
}

/// The addresses that an image selector yields on a document: the `src` of
/// each kept element that has one.
pub open spec fn node_images(document: Seq<char>, node: SelectorNodeView) -> Seq<Seq<char>> {
    present(
        retained(selected_attribute(document, node.selector, image_attribute()), node.multiple),
    )
}

/// The addresses that a link selector yields on a document: the `href` of
/// each kept element that has one.
pub open spec fn node_links(document: Seq<char>, node: SelectorNodeView) -> Seq<Seq<char>> {
    present(retained(selected_attribute(document, node.selector, link_attribute()), node.multiple))
}

/// The fragments that an element selector yields on a document: the inner
/// HTML of each kept element.
pub open spec fn node_fragments(document: Seq<char>, node: SelectorNodeView) -> Seq<Seq<char>> {
    retained(selected_inner_html(document, node.selector), node.multiple)
}

/// Joins the parts with single spaces.
pub fn join_with_spaces(parts: &Vec<String>) -> (r: String)
    ensures
        r@ == join(strings_view(parts@), space()),
{
    let ghost all = strings_view(parts@);
    let mut r = String::new();
    let mut i: usize = 0;
    assert(all.take(0) =~= Seq::empty());
    while i < parts.len()
        invariant
            i <= parts@.len(),
            all == strings_view(parts@),
            r@ == join(all.take(i as int), space()),
        decreases parts@.len() - i,
    {
        let ghost before = all.take(i as int);
        let ghost grown = all.take(i + 1);
        assert(grown.drop_last() =~= before);
        assert(grown.last() == parts@[i as int]@);
        if i > 0 {
            r.append(" ");
        } else {
            assert(grown[0] == parts@[0]@);
            assert(Seq::<char>::empty() + parts@[0]@ =~= parts@[0]@);
        }
        r.append(parts[i].as_str());
        i += 1;
    }
    assert(all.take(parts@.len() as int) =~= all);
    r
}

/// The text of the kept elements, joined by single spaces.
pub fn join_text(found: &Vec<Vec<String>>, multiple: bool) -> (r: String)
    ensures
        r@ == joined_text(chunks_view(found@), multiple),
{
    let ghost all = chunks_view(found@);
    let ghost kept = retained(all, multiple);
    let limit: usize = if multiple || found.len() == 0 {
        found.len()
    } else {
        1
    };
    assert(kept =~= all.take(limit as int));
    let mut texts: Vec<String> = Vec::new();
    let mut i: usize = 0;
    while i < limit
        invariant
            i <= limit <= found@.len(),
            all == chunks_view(found@),
            texts@.len() == i,
            forall|j: int| 0 <= j < i ==> (#[trigger] texts@[j])@ == element_text(all[j]),
        decreases limit - i,
    {
        texts.push(join_with_spaces(&found[i]));
        i += 1;
    }
    assert(strings_view(texts@) =~= kept.map_values(|c: Seq<Seq<char>>| element_text(c)));
    join_with_spaces(&texts)
}

/// The values that are there among the kept matches, in their order.
pub fn retain_present(found: Vec<Option<String>>, multiple: bool) -> (r: Vec<String>)
    ensures
        strings_view(r@) == present(retained(options_view(found@), multiple)),
{
    let ghost all = options_view(found@);
    let ghost kept = retained(all, multiple);
    let limit: usize = if multiple || found.len() == 0 {
        found.len()
    } else {
        1
    };
    assert(kept =~= all.take(limit as int));
    let mut values: Vec<String> = Vec::new();
    let mut i: usize = 0;
    assert(all.take(0) =~= Seq::empty());
    while i < limit
        invariant
            i <= limit <= found@.len(),
            all == options_view(found@),
            strings_view(values@) == present(all.take(i as int)),
        decreases limit - i,
    {
        let ghost before = strings_view(values@);
        let ghost grown = all.take(i + 1);
        assert(grown.drop_last() =~= all.take(i as int));
        assert(grown.last() == all[i as int]);
        match &found[i] {
            Some(value) => {
                values.push(value.clone());
                assert(strings_view(values@) =~= before.push(value@));
            },
            None => {},
        }
        i += 1;
    }
    values
}

/// The kept matches: all of them for a `multiple` selector, else the first.
pub fn retain(found: Vec<String>, multiple: bool) -> (r: Vec<String>)
    ensures
        strings_view(r@) == retained(strings_view(found@), multiple),
{
    if multiple || found.len() == 0 {
        found
    } else {
        let ghost all = strings_view(found@);
        let mut found = found;
        found.truncate(1);
        assert(strings_view(found@) =~= all.take(1));
        found
    }
}

/// The value of a text selector on a document. Fails when the selector does
/// not parse, and only then.
pub fn track_text_node(node: &SelectorNode, doc: &str) -> (r: Result<String, SelectorSyntaxError>)
    ensures
        match r {
            Ok(text) => selector_parses(node@.selector) && text@ == node_text(doc@, node@),
            Err(e) => !selector_parses(node@.selector) && e.selector@ == node@.selector,
        },
{
    match select_text(doc, node.selector.as_str()) {
        Ok(found) => Ok(join_text(&found, node.multiple)),
        Err(_) => Err(SelectorSyntaxError { selector: node.selector.clone() }),
    }
}

/// The addresses that an image selector yields on a document. Fails when the
/// selector does not parse, and only then.
pub fn track_image_node(node: &SelectorNode, doc: &str) -> (r: Result<
    Vec<String>,
    SelectorSyntaxError,
>)
    ensures
        match r {
            Ok(urls) => selector_parses(node@.selector) && strings_view(urls@) == node_images(
                doc@,
                node@,
            ),
            Err(e) => !selector_parses(node@.selector) && e.selector@ == node@.selector,
        },
{
    match select_attribute(doc, node.selector.as_str(), "src") {
        Ok(found) => Ok(retain_present(found, node.multiple)),
        Err(_) => Err(SelectorSyntaxError { selector: node.selector.clone() }),
    }
}

/// The addresses that a link selector yields on a document. Fails when the
/// selector does not parse, and only then.
pub fn link_targets(node: &SelectorNode, doc: &str) -> (r: Result<Vec<String>, SelectorSyntaxError>)
    ensures
        match r {
            Ok(urls) => selector_parses(node@.selector) && strings_view(urls@) == node_links(
                doc@,
                node@,
            ),
            Err(e) => !selector_parses(node@.selector) && e.selector@ == node@.selector,
        },
{
    match select_attribute(doc, node.selector.as_str(), "href") {
        Ok(found) => Ok(retain_present(found, node.multiple)),
        Err(_) => Err(SelectorSyntaxError { selector: node.selector.clone() }),
    }
}

/// The fragments that an element selector yields on a document. Fails when
/// the selector does not parse, and only then.
pub fn element_fragments(node: &SelectorNode, doc: &str) -> (r: Result<
    Vec<String>,
    SelectorSyntaxError,
>)
    ensures
        match r {
            Ok(fragments) => selector_parses(node@.selector) && strings_view(fragments@)
                == node_fragments(doc@, node@),
            Err(e) => !selector_parses(node@.selector) && e.selector@ == node@.selector,
        },
{
    match select_inner_html(doc, node.selector.as_str()) {
        Ok(found) => Ok(retain(found, node.multiple)),
        Err(_) => Err(SelectorSyntaxError { selector: node.selector.clone() }),
    }
}

/// A selector that is not `multiple` keeps the first match and nothing else.
pub proof fn lemma_single_keeps_first<T>(found: Seq<T>)
    requires
        found.len() > 0,
    ensures
        retained(found, false) == seq![found[0]],
{
    assert(found.take(1) =~= seq![found[0]]);
}

/// A `multiple` selector keeps every match, in the order of the matches.
pub proof fn lemma_multiple_keeps_all<T>(found: Seq<T>)
    ensures
        retained(found, true) == found,
{
}

/// The values that are there keep their order: those of a first part come
/// before those of a second part.
pub proof fn lemma_present_in_order(first: Seq<Option<Seq<char>>>, second: Seq<Option<Seq<char>>>)
    ensures
        present(first + second) == present(first) + present(second),
    decreases second.len(),
{
    if second.len() == 0 {
        assert(first + second =~= first);
        assert(present(first) + present(second) =~= present(first));
    } else {
        let whole = first + second;
        assert(whole.drop_last() =~= first + second.drop_last());
        assert(whole.last() == second.last());
        lemma_present_in_order(first, second.drop_last());
        match second.last() {
            Some(value) => {
                assert((present(first) + present(second.drop_last())).push(value) =~= present(first)
                    + present(second.drop_last()).push(value));
            },
            None => {},
        }
    }
}

/// The value of a text selector that is not `multiple` is the text of the
/// first matching element.
pub proof fn lemma_single_text(document: Seq<char>, node: SelectorNodeView)
    requires
        !node.multiple,
        selected_text(document, node.selector).len() > 0,
    ensures
        node_text(document, node) == element_text(selected_text(document, node.selector)[0]),
{
    let found = selected_text(document, node.selector);
    lemma_single_keeps_first(found);
    assert(retained(found, false).map_values(|c: Seq<Seq<char>>| element_text(c)) =~= seq![
        element_text(found[0]),
    ]);
}

/// What a value that may be there gives: itself alone, or nothing.
pub open spec fn one_or_none(value: Option<Seq<char>>) -> Seq<Seq<char>> {
    match value {
        Some(v) => seq![v],
        None => Seq::empty(),
    }
}

/// The values of one match that may lack its value.
proof fn lemma_present_of_one(value: Option<Seq<char>>)
    ensures
        present(seq![value]) == one_or_none(value),
{
    let one = seq![value];
    assert(one.drop_last() =~= Seq::empty());
    assert(one.last() == value);
    assert(present(one.drop_last()) =~= Seq::empty());
    match value {
        Some(v) => {
            assert(Seq::<Seq<char>>::empty().push(v) =~= seq![v]);
        },
        None => {},
    }
}

/// A link selector that is not `multiple` yields the address of the first
/// matching element, and nothing where that element has none.
pub proof fn lemma_single_link(document: Seq<char>, node: SelectorNodeView)
    requires
        !node.multiple,
        selected_attribute(document, node.selector, link_attribute()).len() > 0,
    ensures
        node_links(document, node) == one_or_none(
            selected_attribute(document, node.selector, link_attribute())[0],
        ),
{
    let found = selected_attribute(document, node.selector, link_attribute());
    lemma_single_keeps_first(found);
    lemma_present_of_one(found[0]);
}

/// An image selector that is not `multiple` yields the address of the first
/// matching element, and nothing where that element has none.
pub proof fn lemma_single_image(document: Seq<char>, node: SelectorNodeView)
    requires
        !node.multiple,
        selected_attribute(document, node.selector, image_attribute()).len() > 0,
    ensures
        node_images(document, node) == one_or_none(
            selected_attribute(document, node.selector, image_attribute())[0],
        ),
{
    let found = selected_attribute(document, node.selector, image_attribute());
    lemma_single_keeps_first(found);
    lemma_present_of_one(found[0]);
}

/// An element selector that is not `multiple` yields the first matching
/// element alone.
pub proof fn lemma_single_fragment(document: Seq<char>, node: SelectorNodeView)
    requires
        !node.multiple,
        selected_inner_html(document, node.selector).len() > 0,
    ensures
        node_fragments(document, node) == seq![selected_inner_html(document, node.selector)[0]],
{
    lemma_single_keeps_first(selected_inner_html(document, node.selector));
}

} // verus!

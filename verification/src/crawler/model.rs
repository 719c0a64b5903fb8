//! The states of a crawl and the step from one to the next, as contracts see
//! them.

use vstd::prelude::*;
use crate::artifact::{ArtifactView, start_tag};
use crate::extract::{node_fragments, node_images, node_links, node_text};
use crate::html::selector_parses;
use crate::selector_tree::{SelectorNodeView, SelectorType};

verus! {

/// What a crawl asks to be fetched: a URL, and the freshness marker that the
/// access log holds for it, if any.
pub struct FetchRequestView {
    pub url: Seq<char>,
    pub since: Option<Seq<char>>,
}

/// What came of a fetch.
pub enum FetchReplyView {
    /// The document, and its new freshness marker.
    Fresh { body: Seq<char>, marker: Seq<char> },
    /// The document has not changed since the marker of the request.
    Unchanged,
    /// The fetch failed.
    Failed { message: Seq<char> },
}

/// Why a crawl ended without a result.
pub enum CrawlErrorView {
    Fetch { url: Seq<char>, message: Seq<char> },
    SelectorSyntax { selector: Seq<char> },
}

/// What a crawl that succeeds returns.
pub struct CrawlOutputView {
    pub artifacts: Seq<ArtifactView>,
    pub access_log: Map<Seq<char>, Seq<char>>,
}

/// Where a crawl stands with respect to the fetch client.
#[derive(Clone, Copy, Debug, PartialEq, Eq, Structural)]
pub enum Status {
    /// Nothing was asked for yet.
    Start,
    /// The start URL was asked for.
    AwaitingStart,
    /// No reply is awaited.
    Running,
    /// The current URL of the link selector on top was asked for.
    AwaitingLink,
}

/// One level of the walk.
pub enum FrameView {
    /// A list of selectors is evaluated on a document: those before `next` are
    /// done and gave `out`.
    Nodes { nodes: Seq<SelectorNodeView>, document: Seq<char>, next: nat, out: Seq<ArtifactView> },
    /// A link or element selector goes through what it selected: the items
    /// before `next` are done and gave `out`.
    Items { node: SelectorNodeView, items: Seq<Seq<char>>, next: nat, out: Seq<ArtifactView> },
}

/// The state of a crawl.
pub struct CrawlView {
    pub start_url: Seq<char>,
    pub roots: Seq<SelectorNodeView>,
    pub skip: Set<Seq<char>>,
    pub log: Map<Seq<char>, Seq<char>>,
    pub stack: Seq<FrameView>,
    pub status: Status,
}

/// What one step of a crawl gives.
pub enum ProgressView {
    /// The crawl went on by itself.
    Continue(CrawlView),
    /// The crawl waits for the reply to this request.
    Fetch(CrawlView, FetchRequestView),
    /// The crawl has ended.
    Finished(Result<CrawlOutputView, CrawlErrorView>),
}

/// The state in which a crawl starts.
pub open spec fn initial(
    start_url: Seq<char>,
    roots: Seq<SelectorNodeView>,
    skip: Set<Seq<char>>,
    log: Map<Seq<char>, Seq<char>>,
) -> CrawlView {
    CrawlView { start_url, roots, skip, log, stack: Seq::empty(), status: Status::Start }
}

/// The request for `url`: it carries the marker that the log holds for it.
pub open spec fn request_for(log: Map<Seq<char>, Seq<char>>, url: Seq<char>) -> FetchRequestView {
    FetchRequestView {
        url,
        since: if log.contains_key(url) {
            Some(log[url])
        } else {
            None
        },
    }
}

/// The log after `url` was found unchanged: its marker stays; a URL that had
/// none gets the empty marker.
pub open spec fn mark_unchanged(log: Map<Seq<char>, Seq<char>>, url: Seq<char>) -> Map<
    Seq<char>,
    Seq<char>,
> {
    if log.contains_key(url) {
        log
    } else {
        log.insert(url, Seq::empty())
    }
}

/// The artifact that stands for the start of a crawl.
pub open spec fn start_artifact(url: Seq<char>, children: Seq<ArtifactView>) -> ArtifactView {
    ArtifactView { tag: start_tag(), data: Some(url), children }
}

/// An artifact without children.
pub open spec fn leaf_artifact(tag: Seq<char>, data: Seq<char>) -> ArtifactView {
    ArtifactView { tag, data: Some(data), children: Seq::empty() }
}

/// One artifact without children for each value.
pub open spec fn leaf_artifacts(tag: Seq<char>, values: Seq<Seq<char>>) -> Seq<ArtifactView> {
    values.map_values(|v: Seq<char>| leaf_artifact(tag, v))
}

/// The artifact of one item of a link or element selector: a link carries the
/// URL that was followed, an element carries nothing.
pub open spec fn item_artifact(
    node: SelectorNodeView,
    item: Seq<char>,
    children: Seq<ArtifactView>,
) -> ArtifactView {
    ArtifactView {
        tag: node.id,
        data: if node.selector_type == SelectorType::Link {
            Some(item)
        } else {
            None
        },
        children,
    }
}

/// What a crawl returns when its walk is over.
pub open spec fn output(c: CrawlView, children: Seq<ArtifactView>) -> CrawlOutputView {
    CrawlOutputView { artifacts: seq![start_artifact(c.start_url, children)], access_log: c.log }
}

/// The step on the reply to the request for the start URL.
pub open spec fn start_reply(c: CrawlView, reply: FetchReplyView) -> ProgressView {
    match reply {
        FetchReplyView::Fresh { body, marker } => ProgressView::Continue(
            CrawlView {
                log: c.log.insert(c.start_url, marker),
                stack: seq![
                    FrameView::Nodes { nodes: c.roots, document: body, next: 0, out: Seq::empty() },
                ],
                status: Status::Running,
                ..c
            },
        ),
        FetchReplyView::Unchanged => ProgressView::Finished(
            Ok(
                output(
                    CrawlView { log: mark_unchanged(c.log, c.start_url), ..c },
                    Seq::empty(),
                ),
            ),
        ),
        FetchReplyView::Failed { message } => ProgressView::Finished(
            Err(CrawlErrorView::Fetch { url: c.start_url, message }),
        ),
    }
}

/// The URL whose reply a crawl awaits while a link selector is on top.
pub open spec fn awaited_url(c: CrawlView) -> Seq<char>
    recommends
        c.stack.len() > 0,
        c.stack.last() is Items,
{
    c.stack.last()->items[c.stack.last()->Items_next as int]
}

/// The step on the reply to the request for the current URL of the link
/// selector on top.
pub open spec fn link_reply(c: CrawlView, reply: FetchReplyView) -> ProgressView {
    if c.stack.len() > 0 && c.stack.last() is Items {
        let below = c.stack.drop_last();
        let node = c.stack.last()->node;
        let items = c.stack.last()->items;
        let next = c.stack.last()->Items_next;
        let out = c.stack.last()->Items_out;
        let url = items[next as int];
        match reply {
            FetchReplyView::Fresh { body, marker } => ProgressView::Continue(
                CrawlView {
                    log: c.log.insert(url, marker),
                    stack: c.stack.push(
                        FrameView::Nodes {
                            nodes: node.children,
                            document: body,
                            next: 0,
                            out: Seq::empty(),
                        },
                    ),
                    status: Status::Running,
                    ..c
                },
            ),
            FetchReplyView::Unchanged => ProgressView::Continue(
                CrawlView {
                    log: mark_unchanged(c.log, url),
                    stack: below.push(FrameView::Items { node, items, next: next + 1, out }),
                    status: Status::Running,
                    ..c
                },
            ),
            FetchReplyView::Failed { message } => ProgressView::Finished(
                Err(CrawlErrorView::Fetch { url, message }),
            ),
        }
    } else {
        ProgressView::Continue(c)
    }
}

/// The step of a crawl whose top list of selectors is done: `children` is
/// what the list gave. At the bottom the crawl ends; else the children go to
/// the item that they belong to, and the next item is on.
pub open spec fn complete_nodes(
    c: CrawlView,
    below: Seq<FrameView>,
    children: Seq<ArtifactView>,
) -> ProgressView {
    if below.len() == 0 {
        ProgressView::Finished(Ok(output(c, children)))
    } else {
        match below.last() {
            FrameView::Items { node, items, next, out } => ProgressView::Continue(
                CrawlView {
                    stack: below.drop_last().push(
                        FrameView::Items {
                            node,
                            items,
                            next: next + 1,
                            out: out.push(item_artifact(node, items[next as int], children)),
                        },
                    ),
                    ..c
                },
            ),
            FrameView::Nodes { .. } => ProgressView::Continue(c),
        }
    }
}

/// The step of a crawl that evaluates the selector `node` of its top list.
/// A text or image selector adds its artifacts to the list's; a link or
/// element selector opens a level for what it selected. A selector that does
/// not parse ends the crawl.
pub open spec fn eval_node(
    c: CrawlView,
    below: Seq<FrameView>,
    nodes: Seq<SelectorNodeView>,
    document: Seq<char>,
    next: nat,
    out: Seq<ArtifactView>,
) -> ProgressView {
    let node = nodes[next as int];
    if !selector_parses(node.selector) {
        ProgressView::Finished(Err(CrawlErrorView::SelectorSyntax { selector: node.selector }))
    } else {
        match node.selector_type {
            SelectorType::Text => ProgressView::Continue(
                CrawlView {
                    stack: below.push(
                        FrameView::Nodes {
                            nodes,
                            document,
                            next: next + 1,
                            out: out.push(leaf_artifact(node.id, node_text(document, node))),
                        },
                    ),
                    ..c
                },
            ),
            SelectorType::Image => ProgressView::Continue(
                CrawlView {
                    stack: below.push(
                        FrameView::Nodes {
                            nodes,
                            document,
                            next: next + 1,
                            out: out + leaf_artifacts(node.id, node_images(document, node)),
                        },
                    ),
                    ..c
                },
            ),
            SelectorType::Link => ProgressView::Continue(
                CrawlView {
                    stack: c.stack.push(
                        FrameView::Items {
                            node,
                            items: node_links(document, node),
                            next: 0,
                            out: Seq::empty(),
                        },
                    ),
                    ..c
                },
            ),
            SelectorType::Element => ProgressView::Continue(
                CrawlView {
                    stack: c.stack.push(
                        FrameView::Items {
                            node,
                            items: node_fragments(document, node),
                            next: 0,
                            out: Seq::empty(),
                        },
                    ),
                    ..c
                },
            ),
        }
    }
}

/// The step of a crawl whose top selector has gone through all its items:
/// what they gave is added to the artifacts of the list below, and the next
/// selector of that list is on.
pub open spec fn complete_items(
    c: CrawlView,
    below: Seq<FrameView>,
    collected: Seq<ArtifactView>,
) -> ProgressView {
    if below.len() > 0 && below.last() is Nodes {
        ProgressView::Continue(
            CrawlView {
                stack: below.drop_last().push(
                    FrameView::Nodes {
                        nodes: below.last()->nodes,
                        document: below.last()->document,
                        next: below.last()->Nodes_next + 1,
                        out: below.last()->Nodes_out + collected,
                    },
                ),
                ..c
            },
        )
    } else {
        ProgressView::Continue(c)
    }
}

/// The step of a crawl whose top selector begins its item `next`. A fragment
/// of an element selector is evaluated at once. A URL of a link selector that
/// is in the skip set is passed over; any other is asked for.
pub open spec fn begin_item(
    c: CrawlView,
    below: Seq<FrameView>,
    node: SelectorNodeView,
    items: Seq<Seq<char>>,
    next: nat,
    out: Seq<ArtifactView>,
) -> ProgressView {
    let item = items[next as int];
    match node.selector_type {
        SelectorType::Element => ProgressView::Continue(
            CrawlView {
                stack: c.stack.push(
                    FrameView::Nodes {
                        nodes: node.children,
                        document: item,
                        next: 0,
                        out: Seq::empty(),
                    },
                ),
                ..c
            },
        ),
        SelectorType::Link => if c.skip.contains(item) {
            ProgressView::Continue(
                CrawlView {
                    stack: below.push(FrameView::Items { node, items, next: next + 1, out }),
                    ..c
                },
            )
        } else {
            ProgressView::Fetch(
                CrawlView { status: Status::AwaitingLink, ..c },
                request_for(c.log, item),
            )
        },
        _ => ProgressView::Continue(c),
    }
}

/// The step of a crawl that awaits no reply.
pub open spec fn advance(c: CrawlView) -> ProgressView {
    if c.stack.len() == 0 {
        ProgressView::Continue(c)
    } else {
        let below = c.stack.drop_last();
        match c.stack.last() {
            FrameView::Nodes { nodes, document, next, out } => if next >= nodes.len() {
                complete_nodes(c, below, out)
            } else {
                eval_node(c, below, nodes, document, next, out)
            },
            FrameView::Items { node, items, next, out } => if next >= items.len() {
                complete_items(c, below, out)
            } else {
                begin_item(c, below, node, items, next, out)
            },
        }
    }
}

/// One step of a crawl. A reply counts only while one is awaited; while one
/// is awaited and none is given, the crawl asks again and stays as it is.
///
/// A state that is not well formed, which no crawl reaches, stays as it is.
pub open spec fn step(c: CrawlView, reply: Option<FetchReplyView>) -> ProgressView {
    match c.status {
        Status::Start => ProgressView::Fetch(
            CrawlView { status: Status::AwaitingStart, ..c },
            request_for(c.log, c.start_url),
        ),
        Status::AwaitingStart => match reply {
            None => ProgressView::Fetch(c, request_for(c.log, c.start_url)),
            Some(reply) => start_reply(c, reply),
        },
        Status::AwaitingLink => match reply {
            None => ProgressView::Fetch(c, request_for(c.log, awaited_url(c))),
            Some(reply) => link_reply(c, reply),
        },
        Status::Running => advance(c),
    }
}

/// What holds of one level by itself.
pub open spec fn frame_ok(f: FrameView) -> bool {
    match f {
        FrameView::Nodes { nodes, next, .. } => next <= nodes.len(),
        FrameView::Items { node, items, next, .. } => next <= items.len() && (node.selector_type
            == SelectorType::Link || node.selector_type == SelectorType::Element),
    }
}

/// What holds of two levels, one on the other: the upper one belongs to the
/// selector or item that the lower one is at.
pub open spec fn linked(lower: FrameView, upper: FrameView) -> bool {
    match lower {
        FrameView::Nodes { nodes, next, .. } => upper is Items && next < nodes.len()
            && upper->node == nodes[next as int],
        FrameView::Items { node, items, next, .. } => upper is Nodes && next < items.len()
            && upper->nodes == node.children,
    }
}

/// What holds of every state that a crawl reaches.
pub open spec fn well_formed(c: CrawlView) -> bool {
    &&& (c.status == Status::Start || c.status == Status::AwaitingStart) ==> c.stack.len() == 0
    &&& (c.status == Status::Running || c.status == Status::AwaitingLink) ==> c.stack.len() > 0
        && c.stack[0] is Nodes
    &&& forall|i: int| 0 <= i < c.stack.len() ==> frame_ok(#[trigger] c.stack[i])
    &&& forall|i: int| 0 <= i < c.stack.len() - 1 ==> linked(#[trigger] c.stack[i], c.stack[i + 1])
    &&& c.status == Status::AwaitingLink ==> c.stack.last() is Items && c.stack.last()->node.selector_type
        == SelectorType::Link && c.stack.last()->Items_next < c.stack.last()->items.len()
        && !c.skip.contains(awaited_url(c))
}

/// The state after a step that did not end the crawl.
pub open spec fn state_of(p: ProgressView) -> Option<CrawlView> {
    match p {
        ProgressView::Continue(c) => Some(c),
        ProgressView::Fetch(c, _) => Some(c),
        ProgressView::Finished(_) => None,
    }
}

/// The start state is well formed.
pub proof fn lemma_initial_well_formed(
    start_url: Seq<char>,
    roots: Seq<SelectorNodeView>,
    skip: Set<Seq<char>>,
    log: Map<Seq<char>, Seq<char>>,
)
    ensures
        well_formed(initial(start_url, roots, skip, log)),
{
}

/// A step leads from a well-formed state to a well-formed state.
pub proof fn lemma_step_well_formed(c: CrawlView, reply: Option<FetchReplyView>)
    requires
        well_formed(c),
    ensures
        state_of(step(c, reply)) matches Some(next) ==> well_formed(next),
{
    match state_of(step(c, reply)) {
        Some(next) => {
            if c.stack.len() > 0 {
                let n = c.stack.len() as int;
                assert(frame_ok(c.stack[n - 1]));
                if n > 1 {
                    assert(linked(c.stack[n - 2], c.stack[n - 1]));
                    assert(frame_ok(c.stack[n - 2]));
                }
                assert forall|i: int| 0 <= i < next.stack.len() implies frame_ok(
                    #[trigger] next.stack[i],
                ) by {
                    if i < n - 2 {
                        assert(frame_ok(c.stack[i]));
                    }
                }
                assert forall|i: int| 0 <= i < next.stack.len() - 1 implies linked(
                    #[trigger] next.stack[i],
                    next.stack[i + 1],
                ) by {
                    if i < n - 2 {
                        assert(linked(c.stack[i], c.stack[i + 1]));
                    }
                }
            }
        },
        None => {},
    }
}

} // verus!

//! What a crawl comes to, told by the shape of the selector forest.
//!
//! The replies of the fetch client are taken as a list, in the order in which
//! the crawl asks. A walk goes through a list of selectors on a document; a
//! link or element selector goes through what it selected, and walks its
//! children on each item. A walk ends with its artifacts, or stops: because a
//! fetch or a selector failed, or because the replies ran out.

use vstd::prelude::*;
use crate::artifact::ArtifactView;
use crate::crawler::model::{
    CrawlErrorView, CrawlOutputView, CrawlView, FetchReplyView, FetchRequestView, FrameView,
    ProgressView, Status, item_artifact, leaf_artifact, leaf_artifacts, mark_unchanged,
    request_for, start_artifact, step,
};
use crate::extract::{node_fragments, node_images, node_links, node_text};
use crate::html::selector_parses;
use crate::selector_tree::{SelectorNodeView, SelectorType};

verus! {

/// How a walk went.
pub enum Walked {
    /// The walk came to its end: what it extracted, the log after it, and the
    /// replies that it did not use.
    Done {
        artifacts: Seq<ArtifactView>,
        log: Map<Seq<char>, Seq<char>>,
        rest: Seq<FetchReplyView>,
    },
    /// The walk failed.
    Failed(CrawlErrorView),
    /// The replies ran out at this request.
    Starved(FetchRequestView),
}

/// `walked` with `before` in front of its artifacts.
pub open spec fn extend(before: Seq<ArtifactView>, walked: Walked) -> Walked {
    match walked {
        Walked::Done { artifacts, log, rest } => Walked::Done {
            artifacts: before + artifacts,
            log,
            rest,
        },
        stopped => stopped,
    }
}

/// `walked` with its artifacts as the children of the artifact of one item.
pub open spec fn wrap(node: SelectorNodeView, item: Seq<char>, walked: Walked) -> Walked {
    match walked {
        Walked::Done { artifacts, log, rest } => Walked::Done {
            artifacts: seq![item_artifact(node, item, artifacts)],
            log,
            rest,
        },
        stopped => stopped,
    }
}

/// The walk through the selectors of `nodes` from `from` on.
pub open spec fn walk_nodes(
    nodes: Seq<SelectorNodeView>,
    from: nat,
    document: Seq<char>,
    skip: Set<Seq<char>>,
    log: Map<Seq<char>, Seq<char>>,
    replies: Seq<FetchReplyView>,
) -> Walked
    decreases nodes, 0nat, nodes.len() - from,
{
    if from >= nodes.len() {
        Walked::Done { artifacts: Seq::empty(), log, rest: replies }
    } else {
        match walk_node(nodes[from as int], document, skip, log, replies) {
            Walked::Done { artifacts, log, rest } => extend(
                artifacts,
                walk_nodes(nodes, from + 1, document, skip, log, rest),
            ),
            stopped => stopped,
        }
    }
}

/// The walk of one selector on a document.
pub open spec fn walk_node(
    node: SelectorNodeView,
    document: Seq<char>,
    skip: Set<Seq<char>>,
    log: Map<Seq<char>, Seq<char>>,
    replies: Seq<FetchReplyView>,
) -> Walked
    decreases node, 2nat, 0nat,
{
    if !selector_parses(node.selector) {
        Walked::Failed(CrawlErrorView::SelectorSyntax { selector: node.selector })
    } else {
        match node.selector_type {
            SelectorType::Text => Walked::Done {
                artifacts: seq![leaf_artifact(node.id, node_text(document, node))],
                log,
                rest: replies,
            },
            SelectorType::Image => Walked::Done {
                artifacts: leaf_artifacts(node.id, node_images(document, node)),
                log,
                rest: replies,
            },
            SelectorType::Link => walk_items(
                node,
                node_links(document, node),
                0,
                skip,
                log,
                replies,
            ),
            SelectorType::Element => walk_items(
                node,
                node_fragments(document, node),
                0,
                skip,
                log,
                replies,
            ),
        }
    }
}

/// The walk of a link or element selector through its items from `from` on.
pub open spec fn walk_items(
    node: SelectorNodeView,
    items: Seq<Seq<char>>,
    from: nat,
    skip: Set<Seq<char>>,
    log: Map<Seq<char>, Seq<char>>,
    replies: Seq<FetchReplyView>,
) -> Walked
    decreases node, 1nat, items.len() - from,
{
    if from >= items.len() {
        Walked::Done { artifacts: Seq::empty(), log, rest: replies }
    } else {
        match walk_item(node, items[from as int], skip, log, replies) {
            Walked::Done { artifacts, log, rest } => extend(
                artifacts,
                walk_items(node, items, from + 1, skip, log, rest),
            ),
            stopped => stopped,
        }
    }
}

/// The walk of one item. A fragment of an element selector is walked by the
/// selector's children. A URL of a link selector that is in the skip set
/// gives nothing and uses no reply. Any other URL uses the next reply: a
/// fresh document is walked by the selector's children, and its marker goes
/// to the log; an unchanged one gives no artifact and is marked in the log; a
/// failure ends the walk.
pub open spec fn walk_item(
    node: SelectorNodeView,
    item: Seq<char>,
    skip: Set<Seq<char>>,
    log: Map<Seq<char>, Seq<char>>,
    replies: Seq<FetchReplyView>,
) -> Walked
    decreases node, 0nat, 0nat,
{
    match node.selector_type {
        SelectorType::Element => wrap(
            node,
            item,
            walk_nodes(node.children, 0, item, skip, log, replies),
        ),
        SelectorType::Link => if skip.contains(item) {
            Walked::Done { artifacts: Seq::empty(), log, rest: replies }
        } else if replies.len() == 0 {
            Walked::Starved(request_for(log, item))
        } else {
            match replies[0] {
                FetchReplyView::Fresh { body, marker } => wrap(
                    node,
                    item,
                    walk_nodes(
                        node.children,
                        0,
                        body,
                        skip,
                        log.insert(item, marker),
                        replies.drop_first(),
                    ),
                ),
                FetchReplyView::Unchanged => Walked::Done {
                    artifacts: Seq::empty(),
                    log: mark_unchanged(log, item),
                    rest: replies.drop_first(),
                },
                FetchReplyView::Failed { message } => Walked::Failed(
                    CrawlErrorView::Fetch { url: item, message },
                ),
            }
        },
        _ => Walked::Done { artifacts: Seq::empty(), log, rest: replies },
    }
}

/// `walked` with its artifacts as the children of the start artifact.
pub open spec fn under_start(start_url: Seq<char>, walked: Walked) -> Walked {
    match walked {
        Walked::Done { artifacts, log, rest } => Walked::Done {
            artifacts: seq![start_artifact(start_url, artifacts)],
            log,
            rest,
        },
        stopped => stopped,
    }
}

/// What a crawl comes to. The start URL is asked for whatever the skip set
/// holds. A fresh start document is walked by the forest; an unchanged one
/// gives the start artifact alone.
pub open spec fn crawl_of(
    start_url: Seq<char>,
    roots: Seq<SelectorNodeView>,
    skip: Set<Seq<char>>,
    log: Map<Seq<char>, Seq<char>>,
    replies: Seq<FetchReplyView>,
) -> Walked {
    if replies.len() == 0 {
        Walked::Starved(request_for(log, start_url))
    } else {
        match replies[0] {
            FetchReplyView::Fresh { body, marker } => under_start(
                start_url,
                walk_nodes(roots, 0, body, skip, log.insert(start_url, marker), replies.drop_first()),
            ),
            FetchReplyView::Unchanged => Walked::Done {
                artifacts: seq![start_artifact(start_url, Seq::empty())],
                log: mark_unchanged(log, start_url),
                rest: replies.drop_first(),
            },
            FetchReplyView::Failed { message } => Walked::Failed(
                CrawlErrorView::Fetch { url: start_url, message },
            ),
        }
    }
}

/// What the levels of `stack` come to, from the top one down: the top level
/// is walked to its end, and what it gives goes to the level below. Levels
/// that do not lie on each other as those of a crawl do come to nothing.
pub open spec fn unwind(
    start_url: Seq<char>,
    skip: Set<Seq<char>>,
    stack: Seq<FrameView>,
    log: Map<Seq<char>, Seq<char>>,
    replies: Seq<FetchReplyView>,
) -> Walked
    decreases stack.len(), 0nat,
{
    if stack.len() == 0 {
        Walked::Done { artifacts: Seq::empty(), log, rest: replies }
    } else {
        let below = stack.drop_last();
        match stack.last() {
            FrameView::Nodes { nodes, document, next, out } => match walk_nodes(
                nodes,
                next,
                document,
                skip,
                log,
                replies,
            ) {
                Walked::Done { artifacts, log, rest } => hand_up(
                    start_url,
                    skip,
                    below,
                    out + artifacts,
                    log,
                    rest,
                ),
                stopped => stopped,
            },
            FrameView::Items { node, items, next, out } => match walk_items(
                node,
                items,
                next,
                skip,
                log,
                replies,
            ) {
                Walked::Done { artifacts, log, rest } => hand_over(
                    start_url,
                    skip,
                    below,
                    out + artifacts,
                    log,
                    rest,
                ),
                stopped => stopped,
            },
        }
    }
}

/// What the levels of `below` come to once the list of selectors on top of
/// them has given `children`.
pub open spec fn hand_up(
    start_url: Seq<char>,
    skip: Set<Seq<char>>,
    below: Seq<FrameView>,
    children: Seq<ArtifactView>,
    log: Map<Seq<char>, Seq<char>>,
    replies: Seq<FetchReplyView>,
) -> Walked
    decreases below.len(), 1nat,
{
    if below.len() == 0 {
        Walked::Done {
            artifacts: seq![start_artifact(start_url, children)],
            log,
            rest: replies,
        }
    } else {
        match below.last() {
            FrameView::Items { node, items, next, out } => unwind(
                start_url,
                skip,
                below.drop_last().push(
                    FrameView::Items {
                        node,
                        items,
                        next: next + 1,
                        out: out.push(item_artifact(node, items[next as int], children)),
                    },
                ),
                log,
                replies,
            ),
            FrameView::Nodes { .. } => Walked::Done { artifacts: Seq::empty(), log, rest: replies },
        }
    }
}

/// What the levels of `below` come to once the selector on top of them has
/// gone through its items and they have given `collected`.
pub open spec fn hand_over(
    start_url: Seq<char>,
    skip: Set<Seq<char>>,
    below: Seq<FrameView>,
    collected: Seq<ArtifactView>,
    log: Map<Seq<char>, Seq<char>>,
    replies: Seq<FetchReplyView>,
) -> Walked
    decreases below.len(), 1nat,
{
    if below.len() == 0 {
        Walked::Done { artifacts: Seq::empty(), log, rest: replies }
    } else {
        match below.last() {
            FrameView::Nodes { nodes, document, next, out } => unwind(
                start_url,
                skip,
                below.drop_last().push(
                    FrameView::Nodes { nodes, document, next: next + 1, out: out + collected },
                ),
                log,
                replies,
            ),
            FrameView::Items { .. } => Walked::Done { artifacts: Seq::empty(), log, rest: replies },
        }
    }
}

/// What a crawl in the state `c` comes to with the replies `replies`.
pub open spec fn rest_of(c: CrawlView, replies: Seq<FetchReplyView>) -> Walked {
    match c.status {
        Status::Start | Status::AwaitingStart => crawl_of(
            c.start_url,
            c.roots,
            c.skip,
            c.log,
            replies,
        ),
        Status::Running | Status::AwaitingLink => unwind(
            c.start_url,
            c.skip,
            c.stack,
            c.log,
            replies,
        ),
    }
}

/// How a crawl that ended went, where it left the replies `rest` unused.
pub open spec fn ended(r: Result<CrawlOutputView, CrawlErrorView>, rest: Seq<FetchReplyView>) -> Walked {
    match r {
        Ok(output) => Walked::Done { artifacts: output.artifacts, log: output.access_log, rest },
        Err(e) => Walked::Failed(e),
    }
}

/// Whether a crawl awaits a reply.
pub open spec fn awaiting(c: CrawlView) -> bool {
    c.status == Status::AwaitingStart || c.status == Status::AwaitingLink
}

/// How a crawl goes that starts in the state `c` and takes at most `steps`
/// steps, where each reply that it awaits is the next of `replies`. `None`
/// where it has not ended after `steps` steps.
pub open spec fn drive(c: CrawlView, replies: Seq<FetchReplyView>, steps: nat) -> Option<Walked>
    decreases steps,
{
    if steps == 0 {
        None
    } else if awaiting(c) && replies.len() == 0 {
        match step(c, None) {
            ProgressView::Fetch(_, request) => Some(Walked::Starved(request)),
            _ => None,
        }
    } else {
        let reply = if awaiting(c) {
            Some(replies[0])
        } else {
            None
        };
        let rest = if awaiting(c) {
            replies.drop_first()
        } else {
            replies
        };
        match step(c, reply) {
            ProgressView::Continue(next) => drive(next, rest, (steps - 1) as nat),
            ProgressView::Fetch(next, _) => drive(next, rest, (steps - 1) as nat),
            ProgressView::Finished(r) => Some(ended(r, rest)),
        }
    }
}

} // verus!

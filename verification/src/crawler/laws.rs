//! What holds of every crawl.

use vstd::prelude::*;
use crate::crawler::model::{
    CrawlView, FetchReplyView, FrameView, ProgressView, Status, awaited_url, initial,
    lemma_initial_well_formed, lemma_step_well_formed, mark_unchanged, start_artifact,
    state_of, step, well_formed,
};
use crate::artifact::{ArtifactView, start_tag};
use crate::crawler::walk::{
    Walked, crawl_of, walk_item, walk_items, walk_node, walk_nodes, wrap,
};
use crate::extract::{node_fragments, node_links};
use crate::selector_tree::{SelectorNodeView, SelectorType};

verus! {

/// The state after the crawl took one step for each of `replies` in turn, if
/// it did not end before.
pub open spec fn after_steps(c: CrawlView, replies: Seq<Option<FetchReplyView>>) -> Option<
    CrawlView,
>
    decreases replies.len(),
{
    if replies.len() == 0 {
        Some(c)
    } else {
        match after_steps(c, replies.drop_last()) {
            Some(s) => state_of(step(s, replies.last())),
            None => None,
        }
    }
}

/// Every state that a crawl reaches is well formed.
pub proof fn lemma_reachable_well_formed(c: CrawlView, replies: Seq<Option<FetchReplyView>>)
    requires
        well_formed(c),
    ensures
        after_steps(c, replies) matches Some(s) ==> well_formed(s),
    decreases replies.len(),
{
    if replies.len() > 0 {
        lemma_reachable_well_formed(c, replies.drop_last());
        match after_steps(c, replies.drop_last()) {
            Some(s) => {
                lemma_step_well_formed(s, replies.last());
            },
            None => {},
        }
    }
}

/// Neither the selector nor any selector below it is a link selector.
pub open spec fn link_free(node: SelectorNodeView) -> bool
    decreases node,
{
    node.selector_type != SelectorType::Link && forall|i: int|
        0 <= i < node.children.len() ==> link_free(#[trigger] node.children[i])
}

/// No selector of the forest is a link selector.
pub open spec fn forest_link_free(nodes: Seq<SelectorNodeView>) -> bool {
    forall|i: int| 0 <= i < nodes.len() ==> link_free(#[trigger] nodes[i])
}

/// No selector that the crawl has at hand is a link selector.
pub open spec fn state_link_free(c: CrawlView) -> bool {
    &&& forest_link_free(c.roots)
    &&& forall|i: int|
        0 <= i < c.stack.len() ==> match #[trigger] c.stack[i] {
            FrameView::Nodes { nodes, .. } => forest_link_free(nodes),
            FrameView::Items { node, .. } => link_free(node),
        }
}

/// Whether a step asks for the start URL of the crawl, before anything else
/// was fetched.
pub open spec fn asks_for_start(c: CrawlView, p: ProgressView) -> bool {
    p matches ProgressView::Fetch(_, request) && request.url == c.start_url && (c.status
        == Status::Start || c.status == Status::AwaitingStart)
}

/// In a crawl without link selectors, a step asks for nothing but the start
/// URL, and leads to a state without link selectors.
pub proof fn lemma_link_free_step(c: CrawlView, reply: Option<FetchReplyView>)
    requires
        well_formed(c),
        state_link_free(c),
    ensures
        step(c, reply) is Fetch ==> asks_for_start(c, step(c, reply)),
        state_of(step(c, reply)) matches Some(next) ==> state_link_free(next),
{
    match state_of(step(c, reply)) {
        Some(next) => {
            let n = c.stack.len() as int;
            if n > 0 {
                let top = c.stack[n - 1];
                match top {
                    FrameView::Nodes { nodes, next: at, .. } => {
                        if at < nodes.len() {
                            assert(link_free(nodes[at as int]));
                        }
                    },
                    FrameView::Items { node, .. } => {
                        assert(link_free(node));
                    },
                }
            }
            assert forall|i: int| 0 <= i < next.stack.len() implies match #[trigger] next.stack[i] {
                FrameView::Nodes { nodes, .. } => forest_link_free(nodes),
                FrameView::Items { node, .. } => link_free(node),
            } by {
                if i < n - 2 {
                    assert(next.stack[i] == c.stack[i]);
                } else if i < n {
                    let old = c.stack[i];
                    match old {
                        FrameView::Nodes { nodes, .. } => {
                            assert(forest_link_free(nodes));
                        },
                        FrameView::Items { node, .. } => {
                            assert(link_free(node));
                        },
                    }
                }
            }
        },
        None => {},
    }
    if step(c, reply) is Fetch && c.status == Status::Running {
        let n = c.stack.len() as int;
        assert(n > 0);
        match c.stack[n - 1] {
            FrameView::Nodes { .. } => {},
            FrameView::Items { node, .. } => {
                assert(link_free(node));
            },
        }
    }
    if c.status == Status::AwaitingLink {
        let n = c.stack.len() as int;
        match c.stack[n - 1] {
            FrameView::Nodes { .. } => {},
            FrameView::Items { node, .. } => {
                assert(link_free(node));
            },
        }
    }
}

/// A crawl of a forest without link selectors never asks for anything but
/// the start URL, whatever the replies are.
pub proof fn lemma_link_free_crawl(
    start_url: Seq<char>,
    roots: Seq<SelectorNodeView>,
    skip: Set<Seq<char>>,
    log: Map<Seq<char>, Seq<char>>,
    replies: Seq<Option<FetchReplyView>>,
    reply: Option<FetchReplyView>,
)
    requires
        forest_link_free(roots),
    ensures
        after_steps(initial(start_url, roots, skip, log), replies) matches Some(s) ==> {
            &&& well_formed(s)
            &&& state_link_free(s)
            &&& step(s, reply) is Fetch ==> asks_for_start(s, step(s, reply)) && s.start_url
                == start_url
        },
    decreases replies.len(),
{
    let c = initial(start_url, roots, skip, log);
    lemma_initial_well_formed(start_url, roots, skip, log);
    lemma_reachable_well_formed(c, replies);
    if replies.len() == 0 {
        lemma_link_free_step(c, reply);
    } else {
        lemma_link_free_crawl(start_url, roots, skip, log, replies.drop_last(), replies.last());
        match after_steps(c, replies.drop_last()) {
            Some(before) => {
                lemma_link_free_step(before, replies.last());
                match after_steps(c, replies) {
                    Some(s) => {
                        lemma_link_free_step(s, reply);
                    },
                    None => {},
                }
            },
            None => {},
        }
    }
}

/// The step of a crawl at a URL of a link selector that is in the skip set:
/// nothing is asked for, no artifact is added, the log stays as it is, and
/// the next URL is on.
pub proof fn lemma_skipped_url_step(c: CrawlView, reply: Option<FetchReplyView>)
    requires
        well_formed(c),
        c.status == Status::Running,
        c.stack.last() matches FrameView::Items { node, items, next, .. } && node.selector_type
            == SelectorType::Link && next < items.len() && c.skip.contains(items[next as int]),
    ensures
        step(c, reply) matches ProgressView::Continue(after) && after.log == c.log && after.stack
            == c.stack.drop_last().push(
            FrameView::Items {
                node: c.stack.last()->node,
                items: c.stack.last()->items,
                next: c.stack.last()->Items_next + 1,
                out: c.stack.last()->Items_out,
            },
        ),
{
}

/// Whether a state has left the URLs of the skip set alone: it awaits no
/// reply for one of them, and its log holds for each of them, the start URL
/// aside, what the log `before` held.
pub open spec fn skip_respected(c: CrawlView, before: Map<Seq<char>, Seq<char>>) -> bool {
    &&& c.status == Status::AwaitingLink ==> !c.skip.contains(awaited_url(c))
    &&& same_on_skipped(c, c.log, before)
}

/// Whether two logs hold the same for each URL of the skip set, the start
/// URL aside.
pub open spec fn same_on_skipped(
    c: CrawlView,
    log: Map<Seq<char>, Seq<char>>,
    before: Map<Seq<char>, Seq<char>>,
) -> bool {
    forall|url: Seq<char>|
        #![trigger log.contains_key(url)]
        #![trigger before.contains_key(url)]
        c.skip.contains(url) && url != c.start_url ==> (log.contains_key(url)
            <==> before.contains_key(url)) && (log.contains_key(url) ==> log[url] == before[url])
}

/// A step asks for no URL of the skip set, the start URL aside, and changes
/// the log for none of them; neither does the log that the crawl returns.
pub proof fn lemma_skip_step(
    c: CrawlView,
    before: Map<Seq<char>, Seq<char>>,
    reply: Option<FetchReplyView>,
)
    requires
        well_formed(c),
        skip_respected(c, before),
    ensures
        match step(c, reply) {
            ProgressView::Continue(after) => skip_respected(after, before),
            ProgressView::Fetch(after, request) => skip_respected(after, before) && (
            asks_for_start(c, step(c, reply)) || !c.skip.contains(request.url)),
            ProgressView::Finished(Ok(result)) => same_on_skipped(c, result.access_log, before),
            ProgressView::Finished(Err(_)) => true,
        },
{
}

/// In a crawl, whatever the replies are, no URL of the skip set is asked for,
/// the start URL aside, and the log holds for each of them what it held at
/// the start: in every state that the crawl reaches, and in what it returns.
pub proof fn lemma_skip_set_respected(
    start_url: Seq<char>,
    roots: Seq<SelectorNodeView>,
    skip: Set<Seq<char>>,
    log: Map<Seq<char>, Seq<char>>,
    replies: Seq<Option<FetchReplyView>>,
    reply: Option<FetchReplyView>,
)
    ensures
        after_steps(initial(start_url, roots, skip, log), replies) matches Some(s) ==> {
            &&& well_formed(s)
            &&& s.skip == skip
            &&& s.start_url == start_url
            &&& skip_respected(s, log)
            &&& match step(s, reply) {
                ProgressView::Fetch(_, request) => asks_for_start(s, step(s, reply))
                    || !skip.contains(request.url),
                ProgressView::Finished(Ok(result)) => same_on_skipped(s, result.access_log, log),
                _ => true,
            }
        },
    decreases replies.len(),
{
    let c = initial(start_url, roots, skip, log);
    lemma_initial_well_formed(start_url, roots, skip, log);
    lemma_reachable_well_formed(c, replies);
    if replies.len() == 0 {
        lemma_skip_step(c, log, reply);
    } else {
        lemma_skip_set_respected(start_url, roots, skip, log, replies.drop_last(), replies.last());
        match after_steps(c, replies.drop_last()) {
            Some(earlier) => {
                lemma_skip_step(earlier, log, replies.last());
                match after_steps(c, replies) {
                    Some(s) => {
                        lemma_skip_step(s, log, reply);
                    },
                    None => {},
                }
            },
            None => {},
        }
    }
}

/// The step on the reply that a followed URL has not changed: no artifact is
/// added and the next URL is on; the log holds a marker for the URL, the one
/// that it held before if it held one.
pub proof fn lemma_unchanged_link(c: CrawlView)
    requires
        well_formed(c),
        c.status == Status::AwaitingLink,
    ensures
        step(c, Some(FetchReplyView::Unchanged)) matches ProgressView::Continue(after) && {
            &&& after.stack == c.stack.drop_last().push(
                FrameView::Items {
                    node: c.stack.last()->node,
                    items: c.stack.last()->items,
                    next: c.stack.last()->Items_next + 1,
                    out: c.stack.last()->Items_out,
                },
            )
            &&& after.log.contains_key(awaited_url(c))
            &&& after.log == mark_unchanged(c.log, awaited_url(c))
            &&& c.log.contains_key(awaited_url(c)) ==> after.log == c.log
        },
{
}

/// The step on the reply that the start URL has not changed: the crawl ends
/// with the start artifact alone, without children; the log holds a marker
/// for the start URL, the one that it held before if it held one.
pub proof fn lemma_unchanged_start(c: CrawlView)
    requires
        well_formed(c),
        c.status == Status::AwaitingStart,
    ensures
        step(c, Some(FetchReplyView::Unchanged)) matches ProgressView::Finished(Ok(result)) && {
            &&& result.artifacts == seq![start_artifact(c.start_url, Seq::empty())]
            &&& result.access_log.contains_key(c.start_url)
            &&& result.access_log == mark_unchanged(c.log, c.start_url)
            &&& c.log.contains_key(c.start_url) ==> result.access_log == c.log
        },
{
}

/// Whether a walk used no reply and left the log as it was, or failed on a
/// selector.
pub open spec fn walked_alone(
    walked: Walked,
    log: Map<Seq<char>, Seq<char>>,
    replies: Seq<FetchReplyView>,
) -> bool {
    match walked {
        Walked::Done { log: after, rest, .. } => after == log && rest == replies,
        Walked::Failed(e) => e is SelectorSyntax,
        Walked::Starved(_) => false,
    }
}

/// The walk through a forest without link selectors uses no reply and
/// leaves the log as it is.
pub proof fn lemma_link_free_walk(
    nodes: Seq<SelectorNodeView>,
    from: nat,
    document: Seq<char>,
    skip: Set<Seq<char>>,
    log: Map<Seq<char>, Seq<char>>,
    replies: Seq<FetchReplyView>,
)
    requires
        forest_link_free(nodes),
    ensures
        walked_alone(walk_nodes(nodes, from, document, skip, log, replies), log, replies),
    decreases nodes, 0nat, nodes.len() - from,
{
    if from < nodes.len() {
        let node = nodes[from as int];
        assert(link_free(node));
        lemma_link_free_walk_node(node, document, skip, log, replies);
        lemma_link_free_walk(nodes, from + 1, document, skip, log, replies);
    }
}

/// The walk of a selector that is no link selector and has none below it
/// uses no reply and leaves the log as it is.
proof fn lemma_link_free_walk_node(
    node: SelectorNodeView,
    document: Seq<char>,
    skip: Set<Seq<char>>,
    log: Map<Seq<char>, Seq<char>>,
    replies: Seq<FetchReplyView>,
)
    requires
        link_free(node),
    ensures
        walked_alone(walk_node(node, document, skip, log, replies), log, replies),
    decreases node, 2nat, 0nat,
{
    if node.selector_type == SelectorType::Element {
        lemma_link_free_walk_items(
            node,
            node_fragments(document, node),
            0,
            skip,
            log,
            replies,
        );
    }
}

/// The walk of an element selector without link selectors below it through
/// its items uses no reply and leaves the log as it is.
proof fn lemma_link_free_walk_items(
    node: SelectorNodeView,
    items: Seq<Seq<char>>,
    from: nat,
    skip: Set<Seq<char>>,
    log: Map<Seq<char>, Seq<char>>,
    replies: Seq<FetchReplyView>,
)
    requires
        link_free(node),
    ensures
        walked_alone(walk_items(node, items, from, skip, log, replies), log, replies),
    decreases node, 1nat, items.len() - from,
{
    if from < items.len() {
        let item = items[from as int];
        if node.selector_type == SelectorType::Element {
            assert(forest_link_free(node.children));
            lemma_link_free_walk(node.children, 0, item, skip, log, replies);
            assert(walk_item(node, item, skip, log, replies) == wrap(
                node,
                item,
                walk_nodes(node.children, 0, item, skip, log, replies),
            ));
        }
        assert(walked_alone(walk_item(node, item, skip, log, replies), log, replies));
        lemma_link_free_walk_items(node, items, from + 1, skip, log, replies);
    }
}

/// A crawl of a forest without link selectors uses the reply to the request
/// for the start URL and no other.
pub proof fn lemma_link_free_crawl_uses_one_reply(
    start_url: Seq<char>,
    roots: Seq<SelectorNodeView>,
    skip: Set<Seq<char>>,
    log: Map<Seq<char>, Seq<char>>,
    replies: Seq<FetchReplyView>,
)
    requires
        forest_link_free(roots),
        replies.len() > 0,
    ensures
        match crawl_of(start_url, roots, skip, log, replies) {
            Walked::Done { rest, .. } => rest == replies.drop_first(),
            Walked::Failed(_) => true,
            Walked::Starved(_) => false,
        },
{
    match replies[0] {
        FetchReplyView::Fresh { body, marker } => {
            lemma_link_free_walk(
                roots,
                0,
                body,
                skip,
                log.insert(start_url, marker),
                replies.drop_first(),
            );
        },
        _ => {},
    }
}

/// The walk of a URL of a link selector that is in the skip set gives no
/// artifact, uses no reply and leaves the log as it is.
pub proof fn lemma_skipped_url_walk(
    node: SelectorNodeView,
    url: Seq<char>,
    skip: Set<Seq<char>>,
    log: Map<Seq<char>, Seq<char>>,
    replies: Seq<FetchReplyView>,
)
    requires
        node.selector_type == SelectorType::Link,
        skip.contains(url),
    ensures
        walk_item(node, url, skip, log, replies) == (Walked::Done {
            artifacts: Seq::empty(),
            log,
            rest: replies,
        }),
{
}

/// The walk of a URL of a link selector that is found unchanged gives no
/// artifact; the log holds a marker for the URL afterwards, the one that it
/// held before if it held one.
pub proof fn lemma_unchanged_url_walk(
    node: SelectorNodeView,
    url: Seq<char>,
    skip: Set<Seq<char>>,
    log: Map<Seq<char>, Seq<char>>,
    replies: Seq<FetchReplyView>,
)
    requires
        node.selector_type == SelectorType::Link,
        !skip.contains(url),
        replies.len() > 0,
        replies[0] is Unchanged,
    ensures
        walk_item(node, url, skip, log, replies) == (Walked::Done {
            artifacts: Seq::empty(),
            log: mark_unchanged(log, url),
            rest: replies.drop_first(),
        }),
        mark_unchanged(log, url).contains_key(url),
        log.contains_key(url) ==> mark_unchanged(log, url) == log,
{
}

/// Whether an artifact has the shape of what the selector `node` gives: it
/// carries the selector's id; for a text or image selector it has a value
/// and no children; for a link selector its value is a URL that is not in
/// the skip set, for an element selector it has no value, and in both cases
/// its children have the shape of what the selector's children give.
pub open spec fn made_by(a: ArtifactView, node: SelectorNodeView, skip: Set<Seq<char>>) -> bool
    decreases a, 0nat,
{
    &&& a.tag == node.id
    &&& match node.selector_type {
        SelectorType::Text | SelectorType::Image => a.data is Some && a.children.len() == 0,
        SelectorType::Link => (a.data matches Some(url) && !skip.contains(url)) && each_made(
            a.children,
            node.children,
            skip,
        ),
        SelectorType::Element => a.data is None && each_made(a.children, node.children, skip),
    }
}

/// Whether each of the artifacts has the shape of what one of the selectors
/// gives.
pub open spec fn each_made(
    artifacts: Seq<ArtifactView>,
    nodes: Seq<SelectorNodeView>,
    skip: Set<Seq<char>>,
) -> bool
    decreases artifacts, 1nat,
{
    forall|i: int|
        0 <= i < artifacts.len() ==> exists|j: int|
            0 <= j < nodes.len() && made_by(#[trigger] artifacts[i], #[trigger] nodes[j], skip)
}

/// Whether each of the artifacts has the shape of what the selector gives.
pub open spec fn all_made_by(
    artifacts: Seq<ArtifactView>,
    node: SelectorNodeView,
    skip: Set<Seq<char>>,
) -> bool {
    forall|i: int| 0 <= i < artifacts.len() ==> made_by(#[trigger] artifacts[i], node, skip)
}

/// The artifacts of a walk through a list of selectors mirror the selectors:
/// each has the shape of what one of them gives.
pub proof fn lemma_walk_mirrors_nodes(
    nodes: Seq<SelectorNodeView>,
    from: nat,
    document: Seq<char>,
    skip: Set<Seq<char>>,
    log: Map<Seq<char>, Seq<char>>,
    replies: Seq<FetchReplyView>,
)
    ensures
        walk_nodes(nodes, from, document, skip, log, replies) matches Walked::Done {
            artifacts,
            ..
        } ==> each_made(artifacts, nodes, skip),
    decreases nodes, 0nat, nodes.len() - from,
{
    if from < nodes.len() {
        let node = nodes[from as int];
        lemma_walk_mirrors_node(node, document, skip, log, replies);
        match walk_node(node, document, skip, log, replies) {
            Walked::Done { artifacts: first, log: after, rest } => {
                lemma_walk_mirrors_nodes(nodes, from + 1, document, skip, after, rest);
                match walk_nodes(nodes, from + 1, document, skip, after, rest) {
                    Walked::Done { artifacts: more, .. } => {
                        let all = first + more;
                        assert forall|i: int| 0 <= i < all.len() implies exists|j: int|
                            0 <= j < nodes.len() && made_by(
                                #[trigger] all[i],
                                #[trigger] nodes[j],
                                skip,
                            ) by {
                            if i < first.len() {
                                assert(all[i] == first[i]);
                                assert(made_by(all[i], nodes[from as int], skip));
                            } else {
                                assert(all[i] == more[i - first.len()]);
                                let j = choose|j: int|
                                    0 <= j < nodes.len() && made_by(
                                        more[i - first.len()],
                                        #[trigger] nodes[j],
                                        skip,
                                    );
                                assert(made_by(all[i], nodes[j], skip));
                            }
                        }
                    },
                    _ => {},
                }
            },
            _ => {},
        }
    }
}

/// The artifacts of the walk of one selector have the shape of what the
/// selector gives.
proof fn lemma_walk_mirrors_node(
    node: SelectorNodeView,
    document: Seq<char>,
    skip: Set<Seq<char>>,
    log: Map<Seq<char>, Seq<char>>,
    replies: Seq<FetchReplyView>,
)
    ensures
        walk_node(node, document, skip, log, replies) matches Walked::Done { artifacts, .. }
            ==> all_made_by(artifacts, node, skip),
    decreases node, 2nat, 0nat,
{
    match node.selector_type {
        SelectorType::Link => {
            lemma_walk_mirrors_items(
                node,
                node_links(document, node),
                0,
                skip,
                log,
                replies,
            );
        },
        SelectorType::Element => {
            lemma_walk_mirrors_items(
                node,
                node_fragments(document, node),
                0,
                skip,
                log,
                replies,
            );
        },
        _ => {},
    }
}

/// The artifacts of the walk of a selector through its items have the shape
/// of what the selector gives.
proof fn lemma_walk_mirrors_items(
    node: SelectorNodeView,
    items: Seq<Seq<char>>,
    from: nat,
    skip: Set<Seq<char>>,
    log: Map<Seq<char>, Seq<char>>,
    replies: Seq<FetchReplyView>,
)
    ensures
        walk_items(node, items, from, skip, log, replies) matches Walked::Done { artifacts, .. }
            ==> all_made_by(artifacts, node, skip),
    decreases node, 1nat, items.len() - from,
{
    if from < items.len() {
        let item = items[from as int];
        lemma_walk_mirrors_item(node, item, skip, log, replies);
        match walk_item(node, item, skip, log, replies) {
            Walked::Done { artifacts: first, log: after, rest } => {
                lemma_walk_mirrors_items(node, items, from + 1, skip, after, rest);
                match walk_items(node, items, from + 1, skip, after, rest) {
                    Walked::Done { artifacts: more, .. } => {
                        let all = first + more;
                        assert forall|i: int| 0 <= i < all.len() implies made_by(
                            #[trigger] all[i],
                            node,
                            skip,
                        ) by {
                            if i < first.len() {
                                assert(all[i] == first[i]);
                            } else {
                                assert(all[i] == more[i - first.len()]);
                            }
                        }
                    },
                    _ => {},
                }
            },
            _ => {},
        }
    }
}

/// The artifact of the walk of one item has the shape of what the selector
/// gives.
proof fn lemma_walk_mirrors_item(
    node: SelectorNodeView,
    item: Seq<char>,
    skip: Set<Seq<char>>,
    log: Map<Seq<char>, Seq<char>>,
    replies: Seq<FetchReplyView>,
)
    ensures
        walk_item(node, item, skip, log, replies) matches Walked::Done { artifacts, .. }
            ==> all_made_by(artifacts, node, skip),
    decreases node, 0nat, 0nat,
{
    match node.selector_type {
        SelectorType::Element => {
            lemma_walk_mirrors_nodes(node.children, 0, item, skip, log, replies);
        },
        SelectorType::Link => {
            if !skip.contains(item) && replies.len() > 0 {
                match replies[0] {
                    FetchReplyView::Fresh { body, marker } => {
                        lemma_walk_mirrors_nodes(
                            node.children,
                            0,
                            body,
                            skip,
                            log.insert(item, marker),
                            replies.drop_first(),
                        );
                    },
                    _ => {},
                }
            }
        },
        _ => {},
    }
}

/// What a crawl returns mirrors the selector forest: it is the start
/// artifact with the start URL, and the artifacts below it have the shape of
/// what the selectors give. So an artifact of a link selector carries a URL
/// that is not in the skip set, and an artifact of an element selector
/// carries no value.
pub proof fn lemma_crawl_mirrors_forest(
    start_url: Seq<char>,
    roots: Seq<SelectorNodeView>,
    skip: Set<Seq<char>>,
    log: Map<Seq<char>, Seq<char>>,
    replies: Seq<FetchReplyView>,
)
    ensures
        crawl_of(start_url, roots, skip, log, replies) matches Walked::Done { artifacts, .. } ==> {
            &&& artifacts.len() == 1
            &&& artifacts[0].tag == start_tag()
            &&& artifacts[0].data == Some(start_url)
            &&& each_made(artifacts[0].children, roots, skip)
        },
{
    if replies.len() > 0 {
        match replies[0] {
            FetchReplyView::Fresh { body, marker } => {
                lemma_walk_mirrors_nodes(
                    roots,
                    0,
                    body,
                    skip,
                    log.insert(start_url, marker),
                    replies.drop_first(),
                );
            },
            _ => {},
        }
    }
}

} // verus!

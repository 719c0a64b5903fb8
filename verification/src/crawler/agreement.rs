//! The machine and the walk agree: stepping a crawl comes to what the walk
//! through the selector forest says.

use vstd::prelude::*;
use crate::artifact::ArtifactView;
use crate::crawler::effort::{effort, lemma_run_settles, lemma_step_uses_effort, run_of, settled};
use crate::crawler::model::{
    CrawlView, FetchReplyView, FrameView, ProgressView, Status, frame_ok, initial, item_artifact,
    leaf_artifact, lemma_initial_well_formed, lemma_step_well_formed, linked, step, well_formed,
};
use crate::crawler::walk::{
    Walked, awaiting, crawl_of, drive, ended, hand_over, hand_up, rest_of, unwind, walk_item,
    walk_items, walk_node, walk_nodes, wrap,
};
use crate::extract::{node_fragments, node_links, node_text};
use crate::html::selector_parses;
use crate::selector_tree::{SelectorNodeView, SelectorType};

verus! {

/// A list of selectors that is at its end hands up what it has.
proof fn lemma_nodes_done(
    start_url: Seq<char>,
    skip: Set<Seq<char>>,
    stack: Seq<FrameView>,
    log: Map<Seq<char>, Seq<char>>,
    replies: Seq<FetchReplyView>,
)
    requires
        stack.len() > 0,
        stack.last() matches FrameView::Nodes { nodes, next, .. } && next >= nodes.len(),
    ensures
        unwind(start_url, skip, stack, log, replies) == hand_up(
            start_url,
            skip,
            stack.drop_last(),
            stack.last()->Nodes_out,
            log,
            replies,
        ),
{
    let out = stack.last()->Nodes_out;
    assert(out + Seq::<ArtifactView>::empty() =~= out);
}

/// A selector that is through its items hands over what it has.
proof fn lemma_items_done(
    start_url: Seq<char>,
    skip: Set<Seq<char>>,
    stack: Seq<FrameView>,
    log: Map<Seq<char>, Seq<char>>,
    replies: Seq<FetchReplyView>,
)
    requires
        stack.len() > 0,
        stack.last() matches FrameView::Items { items, next, .. } && next >= items.len(),
    ensures
        unwind(start_url, skip, stack, log, replies) == hand_over(
            start_url,
            skip,
            stack.drop_last(),
            stack.last()->Items_out,
            log,
            replies,
        ),
{
    let out = stack.last()->Items_out;
    assert(out + Seq::<ArtifactView>::empty() =~= out);
}

/// A list of selectors comes to the same whether its next selector is still
/// to be walked or was walked and its artifacts were added.
proof fn lemma_nodes_step(
    start_url: Seq<char>,
    skip: Set<Seq<char>>,
    stack: Seq<FrameView>,
    log: Map<Seq<char>, Seq<char>>,
    replies: Seq<FetchReplyView>,
)
    requires
        stack.len() > 0,
        stack.last() matches FrameView::Nodes { nodes, next, .. } && next < nodes.len(),
    ensures
        ({
            let nodes = stack.last()->nodes;
            let document = stack.last()->document;
            let next = stack.last()->Nodes_next;
            let out = stack.last()->Nodes_out;
            match walk_node(nodes[next as int], document, skip, log, replies) {
                Walked::Done { artifacts, log: after, rest } => unwind(
                    start_url,
                    skip,
                    stack,
                    log,
                    replies,
                ) == unwind(
                    start_url,
                    skip,
                    stack.drop_last().push(
                        FrameView::Nodes { nodes, document, next: next + 1, out: out + artifacts },
                    ),
                    after,
                    rest,
                ),
                stopped => unwind(start_url, skip, stack, log, replies) == stopped,
            }
        }),
{
    let nodes = stack.last()->nodes;
    let document = stack.last()->document;
    let next = stack.last()->Nodes_next;
    let out = stack.last()->Nodes_out;
    match walk_node(nodes[next as int], document, skip, log, replies) {
        Walked::Done { artifacts, log: after, rest } => {
            let moved = stack.drop_last().push(
                FrameView::Nodes { nodes, document, next: next + 1, out: out + artifacts },
            );
            assert(moved.drop_last() =~= stack.drop_last());
            match walk_nodes(nodes, next + 1, document, skip, after, rest) {
                Walked::Done { artifacts: more, .. } => {
                    assert(out + (artifacts + more) =~= (out + artifacts) + more);
                },
                _ => {},
            }
        },
        _ => {},
    }
}

/// A selector comes to the same whether its next item is still to be walked
/// or was walked and its artifacts were added.
proof fn lemma_items_step(
    start_url: Seq<char>,
    skip: Set<Seq<char>>,
    stack: Seq<FrameView>,
    log: Map<Seq<char>, Seq<char>>,
    replies: Seq<FetchReplyView>,
)
    requires
        stack.len() > 0,
        stack.last() matches FrameView::Items { items, next, .. } && next < items.len(),
    ensures
        ({
            let node = stack.last()->node;
            let items = stack.last()->items;
            let next = stack.last()->Items_next;
            let out = stack.last()->Items_out;
            match walk_item(node, items[next as int], skip, log, replies) {
                Walked::Done { artifacts, log: after, rest } => unwind(
                    start_url,
                    skip,
                    stack,
                    log,
                    replies,
                ) == unwind(
                    start_url,
                    skip,
                    stack.drop_last().push(
                        FrameView::Items { node, items, next: next + 1, out: out + artifacts },
                    ),
                    after,
                    rest,
                ),
                stopped => unwind(start_url, skip, stack, log, replies) == stopped,
            }
        }),
{
    let node = stack.last()->node;
    let items = stack.last()->items;
    let next = stack.last()->Items_next;
    let out = stack.last()->Items_out;
    match walk_item(node, items[next as int], skip, log, replies) {
        Walked::Done { artifacts, log: after, rest } => {
            let moved = stack.drop_last().push(
                FrameView::Items { node, items, next: next + 1, out: out + artifacts },
            );
            assert(moved.drop_last() =~= stack.drop_last());
            match walk_items(node, items, next + 1, skip, after, rest) {
                Walked::Done { artifacts: more, .. } => {
                    assert(out + (artifacts + more) =~= (out + artifacts) + more);
                },
                _ => {},
            }
        },
        _ => {},
    }
}

/// A level that was opened for the items of a selector comes to what the
/// selector comes to.
proof fn lemma_items_opened(
    start_url: Seq<char>,
    skip: Set<Seq<char>>,
    stack: Seq<FrameView>,
    items: Seq<Seq<char>>,
    log: Map<Seq<char>, Seq<char>>,
    replies: Seq<FetchReplyView>,
)
    requires
        stack.len() > 0,
        stack.last() matches FrameView::Nodes { nodes, next, .. } && next < nodes.len(),
        walk_node(
            stack.last()->nodes[stack.last()->Nodes_next as int],
            stack.last()->document,
            skip,
            log,
            replies,
        ) == walk_items(
            stack.last()->nodes[stack.last()->Nodes_next as int],
            items,
            0,
            skip,
            log,
            replies,
        ),
    ensures
        unwind(
            start_url,
            skip,
            stack.push(
                FrameView::Items {
                    node: stack.last()->nodes[stack.last()->Nodes_next as int],
                    items,
                    next: 0,
                    out: Seq::empty(),
                },
            ),
            log,
            replies,
        ) == unwind(start_url, skip, stack, log, replies),
{
    let nodes = stack.last()->nodes;
    let document = stack.last()->document;
    let next = stack.last()->Nodes_next;
    let out = stack.last()->Nodes_out;
    let node = nodes[next as int];
    let opened = stack.push(FrameView::Items { node, items, next: 0, out: Seq::empty() });
    assert(opened.drop_last() =~= stack);
    lemma_nodes_step(start_url, skip, stack, log, replies);
    match walk_items(node, items, 0, skip, log, replies) {
        Walked::Done { artifacts, log: after, rest } => {
            assert(Seq::<ArtifactView>::empty() + artifacts =~= artifacts);
        },
        _ => {},
    }
}

/// A level that was opened for the children of an item comes to what the
/// item comes to.
proof fn lemma_children_opened(
    start_url: Seq<char>,
    skip: Set<Seq<char>>,
    stack: Seq<FrameView>,
    document: Seq<char>,
    before: Map<Seq<char>, Seq<char>>,
    asked: Seq<FetchReplyView>,
    log: Map<Seq<char>, Seq<char>>,
    replies: Seq<FetchReplyView>,
)
    requires
        stack.len() > 0,
        stack.last() matches FrameView::Items { items, next, .. } && next < items.len(),
        walk_item(
            stack.last()->node,
            stack.last()->items[stack.last()->Items_next as int],
            skip,
            before,
            asked,
        ) == wrap(
            stack.last()->node,
            stack.last()->items[stack.last()->Items_next as int],
            walk_nodes(stack.last()->node.children, 0, document, skip, log, replies),
        ),
    ensures
        unwind(
            start_url,
            skip,
            stack.push(
                FrameView::Nodes {
                    nodes: stack.last()->node.children,
                    document,
                    next: 0,
                    out: Seq::empty(),
                },
            ),
            log,
            replies,
        ) == unwind(start_url, skip, stack, before, asked),
{
    let node = stack.last()->node;
    let items = stack.last()->items;
    let next = stack.last()->Items_next;
    let out = stack.last()->Items_out;
    let opened = stack.push(
        FrameView::Nodes { nodes: node.children, document, next: 0, out: Seq::empty() },
    );
    assert(opened.drop_last() =~= stack);
    lemma_items_step(start_url, skip, stack, before, asked);
    match walk_nodes(node.children, 0, document, skip, log, replies) {
        Walked::Done { artifacts, log: after, rest } => {
            assert(Seq::<ArtifactView>::empty() + artifacts =~= artifacts);
            let one = item_artifact(node, items[next as int], artifacts);
            assert(out.push(one) =~= out + seq![one]);
        },
        _ => {},
    }
}

/// A step of a crawl that awaits no reply leaves what the crawl comes to as
/// it is. Where the step asks for a URL, the crawl without replies starves at
/// that request; where the step ends the crawl, it ends as the walk says.
pub proof fn lemma_advance_agrees(c: CrawlView, replies: Seq<FetchReplyView>)
    requires
        well_formed(c),
        c.status == Status::Running,
    ensures
        match step(c, None) {
            ProgressView::Continue(next) => rest_of(next, replies) == rest_of(c, replies),
            ProgressView::Fetch(next, request) => rest_of(next, replies) == rest_of(c, replies)
                && rest_of(c, Seq::empty()) == Walked::Starved(request),
            ProgressView::Finished(r) => rest_of(c, replies) == ended(r, replies),
        },
{
    let stack = c.stack;
    let below = stack.drop_last();
    assert(stack =~= below.push(stack.last()));
    match stack.last() {
        FrameView::Nodes { nodes, document, next, out } => {
            if next >= nodes.len() {
                lemma_nodes_done(c.start_url, c.skip, stack, c.log, replies);
                if below.len() > 0 {
                    assert(linked(stack[stack.len() - 2], stack[stack.len() - 1]));
                    assert(below.last() == stack[stack.len() - 2]);
                }
            } else {
                let node = nodes[next as int];
                lemma_nodes_step(c.start_url, c.skip, stack, c.log, replies);
                if selector_parses(node.selector) {
                    match node.selector_type {
                        SelectorType::Text => {
                            let leaf = leaf_artifact(
                                node.id,
                                node_text(document, node),
                            );
                            assert(out.push(leaf) =~= out + seq![leaf]);
                        },
                        SelectorType::Image => {},
                        SelectorType::Link => {
                            lemma_items_opened(
                                c.start_url,
                                c.skip,
                                stack,
                                node_links(document, node),
                                c.log,
                                replies,
                            );
                        },
                        SelectorType::Element => {
                            lemma_items_opened(
                                c.start_url,
                                c.skip,
                                stack,
                                node_fragments(document, node),
                                c.log,
                                replies,
                            );
                        },
                    }
                }
            }
        },
        FrameView::Items { node, items, next, out } => {
            assert(frame_ok(stack[stack.len() - 1]));
            if next >= items.len() {
                lemma_items_done(c.start_url, c.skip, stack, c.log, replies);
            } else {
                let item = items[next as int];
                lemma_items_step(c.start_url, c.skip, stack, c.log, replies);
                match node.selector_type {
                    SelectorType::Element => {
                        lemma_children_opened(
                            c.start_url,
                            c.skip,
                            stack,
                            item,
                            c.log,
                            replies,
                            c.log,
                            replies,
                        );
                    },
                    _ => {
                        if c.skip.contains(item) {
                            assert(out + Seq::<ArtifactView>::empty() =~= out);
                        } else {
                            lemma_items_step(
                                c.start_url,
                                c.skip,
                                stack,
                                c.log,
                                Seq::<FetchReplyView>::empty(),
                            );
                        }
                    },
                }
            }
        },
    }
}

/// The step on the reply to the request for a followed URL leaves what the
/// crawl comes to as it is, where the reply is the first of the replies.
pub proof fn lemma_link_reply_agrees(
    c: CrawlView,
    reply: FetchReplyView,
    rest: Seq<FetchReplyView>,
)
    requires
        well_formed(c),
        c.status == Status::AwaitingLink,
    ensures
        match step(c, Some(reply)) {
            ProgressView::Continue(next) => rest_of(next, rest) == rest_of(c, seq![reply] + rest),
            ProgressView::Fetch(_, _) => false,
            ProgressView::Finished(r) => rest_of(c, seq![reply] + rest) == ended(r, rest),
        },
{
    let stack = c.stack;
    let replies = seq![reply] + rest;
    assert(replies[0] == reply);
    assert(replies.drop_first() =~= rest);
    assert(stack =~= stack.drop_last().push(stack.last()));
    let out = stack.last()->Items_out;
    lemma_items_step(c.start_url, c.skip, stack, c.log, replies);
    match reply {
        FetchReplyView::Fresh { body, marker } => {
            let url = stack.last()->items[stack.last()->Items_next as int];
            lemma_children_opened(
                c.start_url,
                c.skip,
                stack,
                body,
                c.log,
                replies,
                c.log.insert(url, marker),
                rest,
            );
        },
        FetchReplyView::Unchanged => {
            assert(out + Seq::<ArtifactView>::empty() =~= out);
        },
        FetchReplyView::Failed { .. } => {},
    }
}

/// The step on the reply to the request for the start URL leaves what the
/// crawl comes to as it is, where the reply is the first of the replies.
pub proof fn lemma_start_reply_agrees(
    c: CrawlView,
    reply: FetchReplyView,
    rest: Seq<FetchReplyView>,
)
    requires
        well_formed(c),
        c.status == Status::AwaitingStart,
    ensures
        match step(c, Some(reply)) {
            ProgressView::Continue(next) => rest_of(next, rest) == rest_of(c, seq![reply] + rest),
            ProgressView::Fetch(_, _) => false,
            ProgressView::Finished(r) => rest_of(c, seq![reply] + rest) == ended(r, rest),
        },
{
    let replies = seq![reply] + rest;
    assert(replies[0] == reply);
    assert(replies.drop_first() =~= rest);
    match reply {
        FetchReplyView::Fresh { body, marker } => {
            let log = c.log.insert(c.start_url, marker);
            let first = FrameView::Nodes {
                nodes: c.roots,
                document: body,
                next: 0,
                out: Seq::empty(),
            };
            let stack = seq![first];
            assert(stack.drop_last() =~= Seq::empty());
            assert(stack.last() == first);
            match walk_nodes(c.roots, 0, body, c.skip, log, rest) {
                Walked::Done { artifacts, .. } => {
                    assert(Seq::<ArtifactView>::empty() + artifacts =~= artifacts);
                },
                _ => {},
            }
        },
        _ => {},
    }
}

/// Stepping a crawl, with each awaited reply taken from the list of replies,
/// comes to what the walk says of the state that the crawl started in.
pub proof fn lemma_drive_agrees(c: CrawlView, replies: Seq<FetchReplyView>, steps: nat)
    requires
        well_formed(c),
    ensures
        drive(c, replies, steps) matches Some(walked) ==> walked == rest_of(c, replies),
    decreases steps,
{
    if steps > 0 {
        if awaiting(c) && replies.len() == 0 {
            if c.status == Status::AwaitingLink {
                assert(c.stack =~= c.stack.drop_last().push(c.stack.last()));
                lemma_items_step(c.start_url, c.skip, c.stack, c.log, replies);
            }
        } else if awaiting(c) {
            let reply = replies[0];
            let rest = replies.drop_first();
            assert(seq![reply] + rest =~= replies);
            lemma_step_well_formed(c, Some(reply));
            if c.status == Status::AwaitingLink {
                lemma_link_reply_agrees(c, reply, rest);
            } else {
                lemma_start_reply_agrees(c, reply, rest);
            }
            match step(c, Some(reply)) {
                ProgressView::Continue(next) => {
                    lemma_drive_agrees(next, rest, (steps - 1) as nat);
                },
                _ => {},
            }
        } else {
            lemma_step_well_formed(c, None);
            if c.status == Status::Running {
                lemma_advance_agrees(c, replies);
            }
            match step(c, None) {
                ProgressView::Continue(next) => {
                    lemma_drive_agrees(next, replies, (steps - 1) as nat);
                },
                ProgressView::Fetch(next, _) => {
                    lemma_drive_agrees(next, replies, (steps - 1) as nat);
                },
                _ => {},
            }
        }
    }
}

/// A crawl that is stepped from its start, with each awaited reply taken from
/// the list of replies, ends as the walk through the selector forest says:
/// with the same artifacts and the same access log, with the same error, or
/// starved at the same request.
pub proof fn lemma_crawl_agrees(
    start_url: Seq<char>,
    roots: Seq<SelectorNodeView>,
    skip: Set<Seq<char>>,
    log: Map<Seq<char>, Seq<char>>,
    replies: Seq<FetchReplyView>,
    steps: nat,
)
    ensures
        drive(initial(start_url, roots, skip, log), replies, steps) matches Some(walked)
            ==> walked == crawl_of(start_url, roots, skip, log, replies),
{
    lemma_initial_well_formed(start_url, roots, skip, log);
    lemma_drive_agrees(initial(start_url, roots, skip, log), replies, steps);
}

/// Whether `p`, reached from the state `c` with the replies `rest` left,
/// agrees with the walk: a request is the one at which the crawl would
/// starve, and an end is the end that the walk says.
pub open spec fn agrees(
    c: CrawlView,
    replies: Seq<FetchReplyView>,
    p: ProgressView,
    rest: Seq<FetchReplyView>,
) -> bool {
    match p {
        ProgressView::Continue(next) => rest_of(next, rest) == rest_of(c, replies),
        ProgressView::Fetch(next, request) => rest_of(next, rest) == rest_of(c, replies) && rest_of(
            next,
            Seq::empty(),
        ) == Walked::Starved(request),
        ProgressView::Finished(r) => rest_of(c, replies) == ended(r, rest),
    }
}

/// Steps that a crawl takes by itself leave what it comes to as it is.
proof fn lemma_settled_agrees(c: CrawlView, replies: Seq<FetchReplyView>, steps: nat)
    requires
        well_formed(c),
        c.status == Status::Running,
    ensures
        agrees(c, replies, settled(ProgressView::Continue(c), steps), replies),
    decreases steps,
{
    if steps > 0 {
        lemma_step_uses_effort(c, None);
        lemma_step_well_formed(c, None);
        lemma_advance_agrees(c, replies);
        lemma_advance_agrees(c, Seq::empty());
        assert(settled(ProgressView::Continue(c), steps) == settled(
            step(c, None),
            (steps - 1) as nat,
        ));
        match step(c, None) {
            ProgressView::Continue(next) => {
                lemma_settled_agrees(next, replies, (steps - 1) as nat);
            },
            _ => {},
        }
    }
}

/// A run of a crawl agrees with the walk: where it ends at a request, the
/// crawl comes to what it came to before, and without replies it starves at
/// that request; where it ends the crawl, it ends as the walk says. A reply
/// that the crawl awaited counts as the first of the replies.
pub proof fn lemma_run_agrees(
    c: CrawlView,
    reply: Option<FetchReplyView>,
    rest: Seq<FetchReplyView>,
)
    requires
        well_formed(c),
    ensures
        agrees(
            c,
            if awaiting(c) && reply is Some {
                seq![reply->Some_0] + rest
            } else {
                rest
            },
            run_of(c, reply),
            rest,
        ),
        !(run_of(c, reply) is Continue),
{
    lemma_run_settles(c, reply);
    lemma_step_uses_effort(c, reply);
    lemma_step_well_formed(c, reply);
    let first = step(c, reply);
    match c.status {
        Status::Running => {
            lemma_advance_agrees(c, rest);
            lemma_advance_agrees(c, Seq::empty());
        },
        Status::AwaitingLink => match reply {
            Some(r) => {
                lemma_link_reply_agrees(c, r, rest);
            },
            None => {
                assert(c.stack =~= c.stack.drop_last().push(c.stack.last()));
                lemma_items_step(c.start_url, c.skip, c.stack, c.log, Seq::empty());
            },
        },
        Status::AwaitingStart => match reply {
            Some(r) => {
                lemma_start_reply_agrees(c, r, rest);
            },
            None => {},
        },
        Status::Start => {},
    }
    match first {
        ProgressView::Continue(next) => {
            lemma_settled_agrees(next, rest, effort(next));
        },
        _ => {},
    }
}

/// How far a crawl is from its next request, at most.
pub open spec fn rank(c: CrawlView) -> nat {
    match c.status {
        Status::AwaitingStart | Status::AwaitingLink => 0,
        Status::Start => 1,
        Status::Running => effort(c) + 1,
    }
}

/// Stepping a crawl comes to an end, whatever the replies are: after some
/// number of steps the crawl has ended or has run out of replies.
pub proof fn lemma_drive_ends(c: CrawlView, replies: Seq<FetchReplyView>)
    requires
        well_formed(c),
    ensures
        exists|steps: nat| drive(c, replies, steps) is Some,
    decreases replies.len(), rank(c),
{
    if awaiting(c) && replies.len() == 0 {
        assert(drive(c, replies, 1) is Some);
    } else {
        let reply = if awaiting(c) {
            Some(replies[0])
        } else {
            None
        };
        let rest = if awaiting(c) {
            replies.drop_first()
        } else {
            replies
        };
        lemma_step_well_formed(c, reply);
        lemma_step_uses_effort(c, reply);
        match step(c, reply) {
            ProgressView::Continue(next) => {
                lemma_drive_ends(next, rest);
                let k = choose|k: nat| drive(next, rest, k) is Some;
                assert(drive(c, replies, k + 1) == drive(next, rest, k));
            },
            ProgressView::Fetch(next, _) => {
                lemma_drive_ends(next, rest);
                let k = choose|k: nat| drive(next, rest, k) is Some;
                assert(drive(c, replies, k + 1) == drive(next, rest, k));
            },
            ProgressView::Finished(_) => {
                assert(drive(c, replies, 1) is Some);
            },
        }
    }
}

/// A crawl that is stepped from its start, with each awaited reply taken from
/// the list of replies, comes to an end, and the end is what the walk through
/// the selector forest says.
pub proof fn lemma_crawl_ends_as_walked(
    start_url: Seq<char>,
    roots: Seq<SelectorNodeView>,
    skip: Set<Seq<char>>,
    log: Map<Seq<char>, Seq<char>>,
    replies: Seq<FetchReplyView>,
)
    ensures
        exists|steps: nat|
            drive(initial(start_url, roots, skip, log), replies, steps) == Some(
                crawl_of(start_url, roots, skip, log, replies),
            ),
{
    let c = initial(start_url, roots, skip, log);
    lemma_initial_well_formed(start_url, roots, skip, log);
    lemma_drive_ends(c, replies);
    let k = choose|k: nat| drive(c, replies, k) is Some;
    lemma_crawl_agrees(start_url, roots, skip, log, replies, k);
}

} // verus!

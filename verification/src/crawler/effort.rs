//! How many steps a crawl can take before it asks for a document or ends.
//!
//! Between two fetches a crawl works on documents that it has at hand, so
//! the number of steps that are left is a matter of the documents and the
//! selectors alone. Every step that goes on by itself uses up one of them.

use vstd::prelude::*;
use crate::crawler::model::{
    CrawlView, FetchReplyView, FrameView, ProgressView, Status, frame_ok, lemma_step_well_formed,
    linked, step, well_formed,
};
use crate::extract::{node_fragments, node_links};
use crate::html::selector_parses;
use crate::selector_tree::{SelectorNodeView, SelectorType};

verus! {

/// The steps that the selectors of `nodes` from `from` on take on a document,
/// and one for the end of the list.
pub open spec fn cost_nodes(nodes: Seq<SelectorNodeView>, from: nat, document: Seq<char>) -> nat
    decreases nodes, 0nat, nodes.len() - from,
{
    if from >= nodes.len() {
        1
    } else {
        cost_node(nodes[from as int], document) + cost_nodes(nodes, from + 1, document)
    }
}

/// The steps that one selector takes on a document, where no URL is asked
/// for.
pub open spec fn cost_node(node: SelectorNodeView, document: Seq<char>) -> nat
    decreases node, 2nat, 0nat,
{
    if !selector_parses(node.selector) {
        1
    } else {
        match node.selector_type {
            SelectorType::Text => 1,
            SelectorType::Image => 1,
            SelectorType::Link => 1 + cost_items(node, node_links(document, node), 0),
            SelectorType::Element => 1 + cost_items(node, node_fragments(document, node), 0),
        }
    }
}

/// The steps that a selector takes on its items from `from` on, and one for
/// the end of the items.
pub open spec fn cost_items(node: SelectorNodeView, items: Seq<Seq<char>>, from: nat) -> nat
    decreases node, 1nat, items.len() - from,
{
    if from >= items.len() {
        1
    } else {
        cost_item(node, items[from as int]) + cost_items(node, items, from + 1)
    }
}

/// The steps that one item takes, where no URL is asked for.
pub open spec fn cost_item(node: SelectorNodeView, item: Seq<char>) -> nat
    decreases node, 0nat, 0nat,
{
    match node.selector_type {
        SelectorType::Element => 1 + cost_nodes(node.children, 0, item),
        _ => 1,
    }
}

/// The steps that the level on top takes.
pub open spec fn cost_on_top(f: FrameView) -> nat {
    match f {
        FrameView::Nodes { nodes, document, next, .. } => cost_nodes(nodes, next, document),
        FrameView::Items { node, items, next, .. } => cost_items(node, items, next),
    }
}

/// The steps that a level takes once the level above it is done.
pub open spec fn cost_below(f: FrameView) -> nat {
    match f {
        FrameView::Nodes { nodes, document, next, .. } => cost_nodes(nodes, next + 1, document),
        FrameView::Items { node, items, next, .. } => cost_items(node, items, next + 1),
    }
}

/// The steps that levels take that all have a level above them.
pub open spec fn cost_waiting(stack: Seq<FrameView>) -> nat
    decreases stack.len(),
{
    if stack.len() == 0 {
        0
    } else {
        cost_waiting(stack.drop_last()) + cost_below(stack.last())
    }
}

/// A bound on the steps that a crawl takes by itself from the state `c`.
pub open spec fn effort(c: CrawlView) -> nat {
    if c.stack.len() == 0 {
        0
    } else {
        cost_waiting(c.stack.drop_last()) + cost_on_top(c.stack.last())
    }
}

/// What the levels `stack` with `f` on them take while waiting.
proof fn lemma_cost_waiting_push(stack: Seq<FrameView>, f: FrameView)
    ensures
        cost_waiting(stack.push(f)) == cost_waiting(stack) + cost_below(f),
{
    assert(stack.push(f).drop_last() =~= stack);
}

/// The level on top takes a step at least.
proof fn lemma_cost_on_top_positive(f: FrameView)
    ensures
        cost_on_top(f) >= 1,
{
    match f {
        FrameView::Nodes { nodes, document, next, .. } => {
            if next < nodes.len() {
                assert(cost_node(nodes[next as int], document) >= 1);
            }
        },
        FrameView::Items { node, items, next, .. } => {
            if next < items.len() {
                assert(cost_item(node, items[next as int]) >= 1);
            }
        },
    }
}

/// A step that goes on by itself leads to a state that awaits no reply. From
/// a state that awaits none, it uses up one step of the effort.
pub proof fn lemma_step_uses_effort(c: CrawlView, reply: Option<FetchReplyView>)
    requires
        well_formed(c),
    ensures
        step(c, reply) matches ProgressView::Continue(next) ==> {
            &&& well_formed(next)
            &&& next.status == Status::Running
            &&& c.status == Status::Running ==> effort(next) + 1 == effort(c)
        },
{
    lemma_step_well_formed(c, reply);
    if c.status == Status::Running {
        let stack = c.stack;
        let below = stack.drop_last();
        let n = stack.len() as int;
        assert(frame_ok(stack[n - 1]));
        assert(stack[0] is Nodes);
        if n > 1 {
            assert(linked(stack[n - 2], stack[n - 1]));
            assert(below.last() == stack[n - 2]);
        }
        match step(c, reply) {
            ProgressView::Continue(next) => {
                let top = next.stack.last();
                match stack.last() {
                    FrameView::Nodes { nodes, document, next: at, out } => {
                        if at >= nodes.len() {
                            assert(n > 1);
                            assert(next.stack.drop_last() =~= below.drop_last());
                            assert(cost_on_top(top) == cost_below(below.last()));
                            assert(cost_nodes(nodes, at, document) == 1);
                        } else {
                            let node = nodes[at as int];
                            assert(cost_nodes(nodes, at, document) == cost_node(node, document)
                                + cost_nodes(nodes, at + 1, document));
                            match node.selector_type {
                                SelectorType::Text => {
                                    assert(next.stack.drop_last() =~= below);
                                    assert(cost_on_top(top) == cost_nodes(nodes, at + 1, document));
                                },
                                SelectorType::Image => {
                                    assert(next.stack.drop_last() =~= below);
                                    assert(cost_on_top(top) == cost_nodes(nodes, at + 1, document));
                                },
                                _ => {
                                    assert(next.stack.drop_last() =~= stack);
                                    assert(stack =~= below.push(stack.last()));
                                    lemma_cost_waiting_push(below, stack.last());
                                    assert(cost_node(node, document) == 1 + cost_on_top(top));
                                },
                            }
                        }
                    },
                    FrameView::Items { node, items, next: at, out } => {
                        if at >= items.len() {
                            assert(next.stack.drop_last() =~= below.drop_last());
                            assert(cost_on_top(top) == cost_below(below.last()));
                            assert(cost_items(node, items, at) == 1);
                        } else {
                            let item = items[at as int];
                            assert(cost_items(node, items, at) == cost_item(node, item)
                                + cost_items(node, items, at + 1));
                            match node.selector_type {
                                SelectorType::Element => {
                                    assert(next.stack.drop_last() =~= stack);
                                    assert(stack =~= below.push(stack.last()));
                                    lemma_cost_waiting_push(below, stack.last());
                                    assert(cost_item(node, item) == 1 + cost_on_top(top));
                                },
                                _ => {
                                    assert(next.stack.drop_last() =~= below);
                                    assert(cost_on_top(top) == cost_items(node, items, at + 1));
                                },
                            }
                        }
                    },
                }
            },
            _ => {},
        }
    }
}

/// What stepping comes to once it no longer goes on by itself, within
/// `steps` steps.
pub open spec fn settled(p: ProgressView, steps: nat) -> ProgressView
    decreases steps,
{
    match p {
        ProgressView::Continue(c) => if steps == 0 {
            p
        } else {
            settled(step(c, None), (steps - 1) as nat)
        },
        _ => p,
    }
}

/// The steps that are left after `p`.
pub open spec fn effort_after(p: ProgressView) -> nat {
    match p {
        ProgressView::Continue(c) => effort(c),
        _ => 0,
    }
}

/// Where a crawl stands when it next asks for a document or ends: the step
/// with `reply`, and then steps without reply for as long as the crawl goes
/// on by itself.
pub open spec fn run_of(c: CrawlView, reply: Option<FetchReplyView>) -> ProgressView {
    settled(step(c, reply), effort_after(step(c, reply)))
}

/// A crawl that awaits no reply has a step to take.
pub proof fn lemma_effort_positive(c: CrawlView)
    requires
        well_formed(c),
        c.status == Status::Running,
    ensures
        effort(c) > 0,
{
    lemma_cost_on_top_positive(c.stack.last());
}

/// Within its effort a crawl comes to a request or to its end.
pub proof fn lemma_settles(c: CrawlView)
    requires
        well_formed(c),
        c.status == Status::Running,
    ensures
        !(settled(ProgressView::Continue(c), effort(c)) is Continue),
    decreases effort(c),
{
    lemma_step_uses_effort(c, None);
    lemma_cost_on_top_positive(c.stack.last());
    let p = step(c, None);
    assert(effort(c) > 0);
    assert(settled(ProgressView::Continue(c), effort(c)) == settled(p, (effort(c) - 1) as nat));
    match p {
        ProgressView::Continue(next) => {
            lemma_settles(next);
            assert(effort(next) == (effort(c) - 1) as nat);
        },
        _ => {},
    }
}

/// A run of a crawl ends at a request or at the end of the crawl.
pub proof fn lemma_run_settles(c: CrawlView, reply: Option<FetchReplyView>)
    requires
        well_formed(c),
    ensures
        !(run_of(c, reply) is Continue),
{
    lemma_step_uses_effort(c, reply);
    match step(c, reply) {
        ProgressView::Continue(next) => {
            lemma_settles(next);
        },
        _ => {},
    }
}

} // verus!

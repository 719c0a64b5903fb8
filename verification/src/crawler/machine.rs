//! The crawl machine itself.

use std::sync::Arc;
use vstd::prelude::*;
use crate::access::{AccessLog, SkipSet};
use crate::artifact::{Artifact, artifacts_view};
use crate::crawler::effort::{
    effort, effort_after, lemma_effort_positive, lemma_run_settles, lemma_step_uses_effort,
    run_of, settled,
};
use crate::crawler::model::{
    CrawlErrorView, CrawlOutputView, CrawlView, FetchReplyView, FetchRequestView, FrameView,
    ProgressView, Status, advance, frame_ok, initial, leaf_artifacts, lemma_step_well_formed,
    linked, mark_unchanged, request_for, step, well_formed,
};
use crate::extract::{element_fragments, link_targets, track_image_node, track_text_node};
use crate::selector_tree::{SelectorNode, SelectorTree, SelectorType, nodes_view, strings_view};

verus! {

/// What a crawl asks to be fetched: a URL, and the freshness marker that the
/// access log holds for it, if any.
#[derive(Clone, Debug, PartialEq, Eq)]
pub struct FetchRequest {
    pub url: String,
    pub since: Option<String>,
}

impl View for FetchRequest {
    type V = FetchRequestView;

    open spec fn view(&self) -> FetchRequestView {
        FetchRequestView {
            url: self.url@,
            since: match self.since {
                Some(marker) => Some(marker@),
                None => None,
            },
        }
    }
}

/// What came of a fetch.
#[derive(Clone, Debug, PartialEq, Eq)]
pub enum FetchReply {
    /// The document, and its new freshness marker.
    Fresh { body: String, marker: String },
    /// The document has not changed since the marker of the request.
    Unchanged,
    /// The fetch failed.
    Failed { message: String },
}

impl View for FetchReply {
    type V = FetchReplyView;

    open spec fn view(&self) -> FetchReplyView {
        match self {
            FetchReply::Fresh { body, marker } => FetchReplyView::Fresh {
                body: body@,
                marker: marker@,
            },
            FetchReply::Unchanged => FetchReplyView::Unchanged,
            FetchReply::Failed { message } => FetchReplyView::Failed { message: message@ },
        }
    }
}

/// The view of a reply that may be there.
pub open spec fn reply_view(reply: Option<FetchReply>) -> Option<FetchReplyView> {
    match reply {
        Some(r) => Some(r@),
        None => None,
    }
}

/// Why a crawl ended without a result.
#[derive(Clone, Debug, PartialEq, Eq)]
pub enum CrawlError {
    /// A fetch failed.
    Fetch { url: String, message: String },
    /// A CSS selector of the tree did not parse.
    SelectorSyntax { selector: String },
}

impl View for CrawlError {
    type V = CrawlErrorView;

    open spec fn view(&self) -> CrawlErrorView {
        match self {
            CrawlError::Fetch { url, message } => CrawlErrorView::Fetch {
                url: url@,
                message: message@,
            },
            CrawlError::SelectorSyntax { selector } => CrawlErrorView::SelectorSyntax {
                selector: selector@,
            },
        }
    }
}

/// What a crawl that succeeds returns: the artifact tree under the start
/// artifact, and the access log as it stands after the crawl.
#[derive(Debug)]
pub struct CrawlOutput {
    pub artifacts: Vec<Artifact>,
    pub access_log: AccessLog,
}

impl View for CrawlOutput {
    type V = CrawlOutputView;

    open spec fn view(&self) -> CrawlOutputView {
        CrawlOutputView { artifacts: artifacts_view(self.artifacts@), access_log: self.access_log@ }
    }
}

/// The view of how a crawl ended.
pub open spec fn outcome_view(r: Result<CrawlOutput, CrawlError>) -> Result<
    CrawlOutputView,
    CrawlErrorView,
> {
    match r {
        Ok(output) => Ok(output@),
        Err(e) => Err(e@),
    }
}

/// One level of the walk: a list of selectors on a document, or a selector
/// on the items that it selected.
enum Frame<'a> {
    Nodes { nodes: &'a Vec<SelectorNode>, document: String, next: usize, out: Vec<Artifact> },
    Items { node: &'a SelectorNode, items: Vec<String>, next: usize, out: Vec<Artifact> },
}

impl<'a> View for Frame<'a> {
    type V = FrameView;

    closed spec fn view(&self) -> FrameView {
        match self {
            Frame::Nodes { nodes, document, next, out } => FrameView::Nodes {
                nodes: nodes_view(nodes@),
                document: document@,
                next: *next as nat,
                out: artifacts_view(out@),
            },
            Frame::Items { node, items, next, out } => FrameView::Items {
                node: node@,
                items: strings_view(items@),
                next: *next as nat,
                out: artifacts_view(out@),
            },
        }
    }
}

/// The views of the levels of a crawl.
spec fn frames_view(v: Seq<Frame>) -> Seq<FrameView> {
    v.map_values(|f: Frame| f@)
}

/// One crawl: a selector tree, a skip set and an access log, and how far the
/// walk has come.
pub struct Crawl<'a> {
    tree: &'a SelectorTree,
    skip: &'a SkipSet,
    log: AccessLog,
    stack: Vec<Frame<'a>>,
    status: Status,
}

impl<'a> View for Crawl<'a> {
    type V = CrawlView;

    closed spec fn view(&self) -> CrawlView {
        CrawlView {
            start_url: self.tree.start_url@,
            roots: nodes_view(self.tree.selectors@),
            skip: self.skip@,
            log: self.log@,
            stack: frames_view(self.stack@),
            status: self.status,
        }
    }
}

/// What one step of a crawl gives.
pub enum Progress<'a> {
    /// The crawl went on by itself; step again.
    Continue(Crawl<'a>),
    /// The crawl waits for the reply to this request; step with the reply.
    Fetch(Crawl<'a>, FetchRequest),
    /// The crawl has ended.
    Finished(Result<CrawlOutput, CrawlError>),
}

impl<'a> View for Progress<'a> {
    type V = ProgressView;

    open spec fn view(&self) -> ProgressView {
        match self {
            Progress::Continue(crawl) => ProgressView::Continue(crawl@),
            Progress::Fetch(crawl, request) => ProgressView::Fetch(crawl@, request@),
            Progress::Finished(r) => ProgressView::Finished(outcome_view(*r)),
        }
    }
}

/// The request for `url`, with the marker that the log holds for it.
fn request_of(log: &AccessLog, url: &String) -> (r: FetchRequest)
    ensures
        r@ == request_for(log@, url@),
{
    FetchRequest { url: url.clone(), since: log.marker(url.as_str()) }
}

/// Marks `url` in the log as found unchanged.
fn note_unchanged(log: &mut AccessLog, url: &String)
    ensures
        final(log)@ == mark_unchanged(old(log)@, url@),
{
    if !log.contains(url.as_str()) {
        log.record(url.clone(), String::new());
    }
}

/// Adds one artifact without children for each value.
fn push_leaves(out: &mut Vec<Artifact>, tag: &String, values: &Vec<String>)
    ensures
        artifacts_view(final(out)@) == artifacts_view(old(out)@) + leaf_artifacts(
            tag@,
            strings_view(values@),
        ),
{
    let ghost before = artifacts_view(out@);
    let ghost all = leaf_artifacts(tag@, strings_view(values@));
    let mut i: usize = 0;
    assert(artifacts_view(out@) =~= before + all.take(0));
    while i < values.len()
        invariant
            i <= values@.len(),
            all == leaf_artifacts(tag@, strings_view(values@)),
            artifacts_view(out@) == before + all.take(i as int),
        decreases values@.len() - i,
    {
        let ghost done = artifacts_view(out@);
        let leaf = Artifact::leaf(tag.clone(), Arc::new(values[i].clone()));
        assert(leaf@ == all[i as int]);
        out.push(leaf);
        assert(artifacts_view(out@) =~= done.push(leaf@));
        assert(before + all.take(i + 1) =~= (before + all.take(i as int)).push(all[i as int]));
        i += 1;
    }
    assert(all.take(values@.len() as int) =~= all);
}

impl<'a> Crawl<'a> {
    #[verifier::type_invariant]
    spec fn inv(&self) -> bool {
        well_formed(self@)
    }

    /// A crawl of `tree` that leaves out the URLs in `skip` and starts with
    /// the access log `log`.
    pub fn new(tree: &'a SelectorTree, skip: &'a SkipSet, log: AccessLog) -> (r: Crawl<'a>)
        ensures
            r@ == initial(tree@.start_url, tree@.selectors, skip@, log@),
    {
        let r = Crawl { tree, skip, log, stack: Vec::new(), status: Status::Start };
        assert(r@.stack =~= Seq::empty());
        r
    }

    /// Where the crawl stands with respect to the fetch client.
    pub fn status(&self) -> (r: Status)
        ensures
            r == self@.status,
    {
        self.status
    }

    /// Takes one step. While a reply is awaited, `reply` is the reply; a step
    /// without one asks again. While none is awaited, `reply` is not looked
    /// at.
    pub fn step(self, reply: Option<FetchReply>) -> (r: Progress<'a>)
        ensures
            r@ == step(self@, reply_view(reply)),
    {
        proof {
            use_type_invariant(&self);
            lemma_step_well_formed(self@, reply_view(reply));
        }
        let ghost c = self@;
        let Crawl { tree, skip, log, stack, status } = self;
        match status {
            Status::Start => {
                let request = request_of(&log, &tree.start_url);
                Progress::Fetch(
                    Crawl { tree, skip, log, stack, status: Status::AwaitingStart },
                    request,
                )
            },
            Status::AwaitingStart => match reply {
                None => {
                    let request = request_of(&log, &tree.start_url);
                    Progress::Fetch(Crawl { tree, skip, log, stack, status }, request)
                },
                Some(reply) => Self::on_start_reply(tree, skip, log, reply, Ghost(c)),
            },
            Status::AwaitingLink => match reply {
                None => {
                    let request = match &stack[stack.len() - 1] {
                        Frame::Items { items, next, .. } => request_of(&log, &items[*next]),
                        Frame::Nodes { .. } => unreached(),
                    };
                    Progress::Fetch(Crawl { tree, skip, log, stack, status }, request)
                },
                Some(reply) => Self::on_link_reply(tree, skip, log, stack, reply, Ghost(c)),
            },
            Status::Running => Self::walk_on(tree, skip, log, stack, Ghost(c)),
        }
    }

    /// Takes the step with `reply`, and then steps for as long as the crawl
    /// goes on by itself: until it asks for a document or ends.
    pub fn run(self, reply: Option<FetchReply>) -> (r: Progress<'a>)
        ensures
            r@ == run_of(self@, reply_view(reply)),
            !(r@ is Continue),
    {
        proof {
            use_type_invariant(&self);
            lemma_step_uses_effort(self@, reply_view(reply));
            lemma_run_settles(self@, reply_view(reply));
        }
        let ghost target = run_of(self@, reply_view(reply));
        let mut progress = self.step(reply);
        loop
            invariant
                target == run_of(self@, reply_view(reply)),
                settled(progress@, effort_after(progress@)) == target,
                !(target is Continue),
                progress@ matches ProgressView::Continue(c) ==> well_formed(c) && c.status
                    == Status::Running,
            decreases
                    (if progress@ is Continue {
                        effort_after(progress@) + 1
                    } else {
                        0
                    }),
        {
            let ghost now = progress@;
            match progress {
                Progress::Continue(crawl) => {
                    proof {
                        lemma_effort_positive(crawl@);
                        lemma_step_uses_effort(crawl@, None);
                        assert(settled(ProgressView::Continue(crawl@), effort(crawl@)) == settled(
                            step(crawl@, None),
                            (effort(crawl@) - 1) as nat,
                        ));
                    }
                    progress = crawl.step(None);
                },
                ended => {
                    assert(ended@ == now);
                    assert(settled(now, effort_after(now)) == now);
                    return ended;
                },
            }
        }
    }

    /// The step on the reply to the request for the start URL.
    fn on_start_reply(
        tree: &'a SelectorTree,
        skip: &'a SkipSet,
        log: AccessLog,
        reply: FetchReply,
        Ghost(c): Ghost<CrawlView>,
    ) -> (r: Progress<'a>)
        requires
            well_formed(c),
            c.status == Status::AwaitingStart,
            c.start_url == tree.start_url@,
            c.roots == nodes_view(tree.selectors@),
            c.skip == skip@,
            c.log == log@,
        ensures
            r@ == step(c, Some(reply@)),
    {
        proof {
            lemma_step_well_formed(c, Some(reply@));
        }
        let mut log = log;
        match reply {
            FetchReply::Fresh { body, marker } => {
                log.record(tree.start_url.clone(), marker);
                let mut stack: Vec<Frame<'a>> = Vec::new();
                let frame = Frame::Nodes {
                    nodes: &tree.selectors,
                    document: body,
                    next: 0,
                    out: Vec::new(),
                };
                assert(frame@ == (FrameView::Nodes {
                    nodes: c.roots,
                    document: body@,
                    next: 0,
                    out: Seq::empty(),
                })) by {
                    assert(artifacts_view(Seq::<Artifact>::empty()) =~= Seq::empty());
                }
                stack.push(frame);
                assert(frames_view(stack@) =~= seq![frame@]);
                Progress::Continue(Crawl { tree, skip, log, stack, status: Status::Running })
            },
            FetchReply::Unchanged => {
                note_unchanged(&mut log, &tree.start_url);
                let start = Artifact::node(
                    "source_url".to_owned(),
                    Some(Arc::new(tree.start_url.clone())),
                    Vec::new(),
                );
                assert(artifacts_view(Seq::<Artifact>::empty()) =~= Seq::empty());
                let mut artifacts: Vec<Artifact> = Vec::new();
                artifacts.push(start);
                assert(artifacts_view(artifacts@) =~= seq![start@]);
                Progress::Finished(Ok(CrawlOutput { artifacts, access_log: log }))
            },
            FetchReply::Failed { message } => Progress::Finished(
                Err(CrawlError::Fetch { url: tree.start_url.clone(), message }),
            ),
        }
    }

    /// The step on the reply to the request for the current URL of the link
    /// selector on top.
    fn on_link_reply(
        tree: &'a SelectorTree,
        skip: &'a SkipSet,
        log: AccessLog,
        stack: Vec<Frame<'a>>,
        reply: FetchReply,
        Ghost(c): Ghost<CrawlView>,
    ) -> (r: Progress<'a>)
        requires
            well_formed(c),
            c.status == Status::AwaitingLink,
            c.start_url == tree.start_url@,
            c.roots == nodes_view(tree.selectors@),
            c.skip == skip@,
            c.log == log@,
            c.stack == frames_view(stack@),
        ensures
            r@ == step(c, Some(reply@)),
    {
        proof {
            lemma_step_well_formed(c, Some(reply@));
        }
        let mut log = log;
        let mut stack = stack;
        let ghost whole = stack@;
        let top = stack.pop();
        assert(frames_view(stack@) =~= c.stack.drop_last());
        assert(top == Some(whole.last()));
        assert(whole.last()@ == c.stack.last());
        match top {
            Some(Frame::Items { node, items, next, out }) => {
                match reply {
                    FetchReply::Fresh { body, marker } => {
                        log.record(items[next].clone(), marker);
                        let below = Frame::Items { node, items, next, out };
                        let above = Frame::Nodes {
                            nodes: &node.children,
                            document: body,
                            next: 0,
                            out: Vec::new(),
                        };
                        proof {
                            node.lemma_children_view();
                            assert(artifacts_view(Seq::<Artifact>::empty()) =~= Seq::empty());
                        }
                        stack.push(below);
                        stack.push(above);
                        assert(frames_view(stack@) =~= c.stack.push(above@));
                        Progress::Continue(
                            Crawl { tree, skip, log, stack, status: Status::Running },
                        )
                    },
                    FetchReply::Unchanged => {
                        note_unchanged(&mut log, &items[next]);
                        let count = items.len();
                        assert(next < count);
                        let frame = Frame::Items { node, items, next: next + 1, out };
                        stack.push(frame);
                        assert(frames_view(stack@) =~= c.stack.drop_last().push(frame@));
                        Progress::Continue(
                            Crawl { tree, skip, log, stack, status: Status::Running },
                        )
                    },
                    FetchReply::Failed { message } => Progress::Finished(
                        Err(CrawlError::Fetch { url: items[next].clone(), message }),
                    ),
                }
            },
            _ => unreached(),
        }
    }

    /// The step of a crawl that awaits no reply: the level on top says what
    /// is done.
    fn walk_on(
        tree: &'a SelectorTree,
        skip: &'a SkipSet,
        log: AccessLog,
        stack: Vec<Frame<'a>>,
        Ghost(c): Ghost<CrawlView>,
    ) -> (r: Progress<'a>)
        requires
            well_formed(c),
            c.status == Status::Running,
            c.start_url == tree.start_url@,
            c.roots == nodes_view(tree.selectors@),
            c.skip == skip@,
            c.log == log@,
            c.stack == frames_view(stack@),
        ensures
            r@ == advance(c),
    {
        let mut stack = stack;
        let ghost whole = stack@;
        let top = stack.pop();
        assert(frames_view(stack@) =~= c.stack.drop_last());
        assert(top == Some(whole.last()));
        assert(whole.last()@ == c.stack.last());
        match top {
            Some(Frame::Nodes { nodes, document, next, out }) => {
                if next >= nodes.len() {
                    Self::finish_nodes(tree, skip, log, stack, out, Ghost(c))
                } else {
                    Self::evaluate(tree, skip, log, stack, nodes, document, next, out, Ghost(c))
                }
            },
            Some(Frame::Items { node, items, next, out }) => {
                if next >= items.len() {
                    Self::finish_items(tree, skip, log, stack, out, Ghost(c))
                } else {
                    Self::begin(tree, skip, log, stack, node, items, next, out, Ghost(c))
                }
            },
            None => unreached(),
        }
    }

    /// The step of a crawl whose top list of selectors is done and has given
    /// `children`.
    fn finish_nodes(
        tree: &'a SelectorTree,
        skip: &'a SkipSet,
        log: AccessLog,
        below: Vec<Frame<'a>>,
        children: Vec<Artifact>,
        Ghost(c): Ghost<CrawlView>,
    ) -> (r: Progress<'a>)
        requires
            well_formed(c),
            c.status == Status::Running,
            c.start_url == tree.start_url@,
            c.roots == nodes_view(tree.selectors@),
            c.skip == skip@,
            c.log == log@,
            c.stack.len() > 0,
            c.stack.drop_last() == frames_view(below@),
            c.stack.last() matches FrameView::Nodes { nodes, next, out, .. } && next >= nodes.len()
                && out == artifacts_view(children@),
        ensures
            r@ == advance(c),
    {
        proof {
            lemma_step_well_formed(c, None);
        }
        let mut stack = below;
        let ghost rest = stack@;
        let top = stack.pop();
        match top {
            None => {
                let start = Artifact::node(
                    "source_url".to_owned(),
                    Some(Arc::new(tree.start_url.clone())),
                    children,
                );
                let mut artifacts: Vec<Artifact> = Vec::new();
                artifacts.push(start);
                assert(artifacts_view(artifacts@) =~= seq![start@]);
                Progress::Finished(Ok(CrawlOutput { artifacts, access_log: log }))
            },
            Some(Frame::Items { node, items, next, out }) => {
                assert(frames_view(stack@) =~= c.stack.drop_last().drop_last());
                assert(rest.last()@ == c.stack.drop_last().last());
                assert(c.stack.drop_last().last() == c.stack[c.stack.len() - 2]);
                assert(next < items@.len()) by {
                    assert(linked_pair(c, c.stack.len() - 2));
                }
                let data = match node.selector_type {
                    SelectorType::Link => Some(Arc::new(items[next].clone())),
                    _ => None,
                };
                let artifact = Artifact::node(node.id.clone(), data, children);
                let count = items.len();
                assert(next < count);
                let mut out = out;
                let ghost before = artifacts_view(out@);
                out.push(artifact);
                assert(artifacts_view(out@) =~= before.push(artifact@));
                let frame = Frame::Items { node, items, next: next + 1, out };
                stack.push(frame);
                assert(frames_view(stack@) =~= c.stack.drop_last().drop_last().push(frame@));
                Progress::Continue(Crawl { tree, skip, log, stack, status: Status::Running })
            },
            Some(Frame::Nodes { .. }) => {
                proof {
                    assert(rest.last()@ == c.stack.drop_last().last());
                    assert(c.stack.drop_last().last() == c.stack[c.stack.len() - 2]);
                    assert(linked_pair(c, c.stack.len() - 2));
                }
                unreached()
            },
        }
    }

    /// The step of a crawl that evaluates the selector at `next` of its top
    /// list.
    fn evaluate(
        tree: &'a SelectorTree,
        skip: &'a SkipSet,
        log: AccessLog,
        below: Vec<Frame<'a>>,
        nodes: &'a Vec<SelectorNode>,
        document: String,
        next: usize,
        out: Vec<Artifact>,
        Ghost(c): Ghost<CrawlView>,
    ) -> (r: Progress<'a>)
        requires
            well_formed(c),
            c.status == Status::Running,
            c.start_url == tree.start_url@,
            c.roots == nodes_view(tree.selectors@),
            c.skip == skip@,
            c.log == log@,
            c.stack.len() > 0,
            c.stack.drop_last() == frames_view(below@),
            next < nodes@.len(),
            c.stack.last() == (FrameView::Nodes {
                nodes: nodes_view(nodes@),
                document: document@,
                next: next as nat,
                out: artifacts_view(out@),
            }),
        ensures
            r@ == advance(c),
    {
        proof {
            lemma_step_well_formed(c, None);
            assert(c.stack =~= c.stack.drop_last().push(c.stack.last()));
        }
        let mut stack = below;
        let mut out = out;
        let count = nodes.len();
        assert(next < count);
        let node = &nodes[next];
        assert(node@ == nodes_view(nodes@)[next as int]);
        match node.selector_type {
            SelectorType::Text => match track_text_node(node, document.as_str()) {
                Ok(text) => {
                    let leaf = Artifact::leaf(node.id.clone(), Arc::new(text));
                    let ghost before = artifacts_view(out@);
                    out.push(leaf);
                    assert(artifacts_view(out@) =~= before.push(leaf@));
                    let frame = Frame::Nodes { nodes, document, next: next + 1, out };
                    stack.push(frame);
                    assert(frames_view(stack@) =~= c.stack.drop_last().push(frame@));
                    Progress::Continue(Crawl { tree, skip, log, stack, status: Status::Running })
                },
                Err(e) => Progress::Finished(
                    Err(CrawlError::SelectorSyntax { selector: e.selector }),
                ),
            },
            SelectorType::Image => match track_image_node(node, document.as_str()) {
                Ok(urls) => {
                    push_leaves(&mut out, &node.id, &urls);
                    let frame = Frame::Nodes { nodes, document, next: next + 1, out };
                    stack.push(frame);
                    assert(frames_view(stack@) =~= c.stack.drop_last().push(frame@));
                    Progress::Continue(Crawl { tree, skip, log, stack, status: Status::Running })
                },
                Err(e) => Progress::Finished(
                    Err(CrawlError::SelectorSyntax { selector: e.selector }),
                ),
            },
            SelectorType::Link => match link_targets(node, document.as_str()) {
                Ok(urls) => {
                    let lower = Frame::Nodes { nodes, document, next, out };
                    let upper = Frame::Items { node, items: urls, next: 0, out: Vec::new() };
                    assert(artifacts_view(Seq::<Artifact>::empty()) =~= Seq::empty());
                    stack.push(lower);
                    stack.push(upper);
                    assert(frames_view(stack@) =~= c.stack.push(upper@));
                    Progress::Continue(Crawl { tree, skip, log, stack, status: Status::Running })
                },
                Err(e) => Progress::Finished(
                    Err(CrawlError::SelectorSyntax { selector: e.selector }),
                ),
            },
            SelectorType::Element => match element_fragments(node, document.as_str()) {
                Ok(fragments) => {
                    let lower = Frame::Nodes { nodes, document, next, out };
                    let upper = Frame::Items { node, items: fragments, next: 0, out: Vec::new() };
                    assert(artifacts_view(Seq::<Artifact>::empty()) =~= Seq::empty());
                    stack.push(lower);
                    stack.push(upper);
                    assert(frames_view(stack@) =~= c.stack.push(upper@));
                    Progress::Continue(Crawl { tree, skip, log, stack, status: Status::Running })
                },
                Err(e) => Progress::Finished(
                    Err(CrawlError::SelectorSyntax { selector: e.selector }),
                ),
            },
        }
    }

    /// The step of a crawl whose top selector has gone through its items and
    /// has collected `collected`.
    fn finish_items(
        tree: &'a SelectorTree,
        skip: &'a SkipSet,
        log: AccessLog,
        below: Vec<Frame<'a>>,
        collected: Vec<Artifact>,
        Ghost(c): Ghost<CrawlView>,
    ) -> (r: Progress<'a>)
        requires
            well_formed(c),
            c.status == Status::Running,
            c.start_url == tree.start_url@,
            c.roots == nodes_view(tree.selectors@),
            c.skip == skip@,
            c.log == log@,
            c.stack.len() > 0,
            c.stack.drop_last() == frames_view(below@),
            c.stack.last() matches FrameView::Items { items, next, out, .. } && next >= items.len()
                && out == artifacts_view(collected@),
        ensures
            r@ == advance(c),
    {
        proof {
            lemma_step_well_formed(c, None);
            assert(c.stack[0] is Nodes);
        }
        let mut stack = below;
        let mut collected = collected;
        let ghost rest = stack@;
        let top = stack.pop();
        match top {
            Some(Frame::Nodes { nodes, document, next, out }) => {
                assert(frames_view(stack@) =~= c.stack.drop_last().drop_last());
                assert(rest.last()@ == c.stack.drop_last().last());
                assert(c.stack.drop_last().last() == c.stack[c.stack.len() - 2]);
                assert(next < nodes@.len()) by {
                    assert(linked_pair(c, c.stack.len() - 2));
                }
                let count = nodes.len();
                assert(next < count);
                let mut out = out;
                let ghost before = artifacts_view(out@);
                let ghost added = artifacts_view(collected@);
                out.append(&mut collected);
                assert(artifacts_view(out@) =~= before + added);
                let frame = Frame::Nodes { nodes, document, next: next + 1, out };
                stack.push(frame);
                assert(frames_view(stack@) =~= c.stack.drop_last().drop_last().push(frame@));
                Progress::Continue(Crawl { tree, skip, log, stack, status: Status::Running })
            },
            Some(Frame::Items { .. }) => {
                proof {
                    assert(rest.last()@ == c.stack.drop_last().last());
                    assert(c.stack.drop_last().last() == c.stack[c.stack.len() - 2]);
                    assert(linked_pair(c, c.stack.len() - 2));
                }
                unreached()
            },
            None => unreached(),
        }
    }

    /// The step of a crawl whose top selector begins its item at `next`.
    fn begin(
        tree: &'a SelectorTree,
        skip: &'a SkipSet,
        log: AccessLog,
        below: Vec<Frame<'a>>,
        node: &'a SelectorNode,
        items: Vec<String>,
        next: usize,
        out: Vec<Artifact>,
        Ghost(c): Ghost<CrawlView>,
    ) -> (r: Progress<'a>)
        requires
            well_formed(c),
            c.status == Status::Running,
            c.start_url == tree.start_url@,
            c.roots == nodes_view(tree.selectors@),
            c.skip == skip@,
            c.log == log@,
            c.stack.len() > 0,
            c.stack.drop_last() == frames_view(below@),
            next < items@.len(),
            c.stack.last() == (FrameView::Items {
                node: node@,
                items: strings_view(items@),
                next: next as nat,
                out: artifacts_view(out@),
            }),
        ensures
            r@ == advance(c),
    {
        proof {
            lemma_step_well_formed(c, None);
            assert(c.stack =~= c.stack.drop_last().push(c.stack.last()));
            assert(frame_ok(c.stack[c.stack.len() - 1]));
        }
        let mut stack = below;
        let count = items.len();
        assert(next < count);
        match node.selector_type {
            SelectorType::Element => {
                let document = items[next].clone();
                let lower = Frame::Items { node, items, next, out };
                let upper = Frame::Nodes {
                    nodes: &node.children,
                    document,
                    next: 0,
                    out: Vec::new(),
                };
                proof {
                    node.lemma_children_view();
                    assert(artifacts_view(Seq::<Artifact>::empty()) =~= Seq::empty());
                }
                stack.push(lower);
                stack.push(upper);
                assert(frames_view(stack@) =~= c.stack.push(upper@));
                Progress::Continue(Crawl { tree, skip, log, stack, status: Status::Running })
            },
            SelectorType::Link => {
                if skip.contains(items[next].as_str()) {
                    let frame = Frame::Items { node, items, next: next + 1, out };
                    stack.push(frame);
                    assert(frames_view(stack@) =~= c.stack.drop_last().push(frame@));
                    Progress::Continue(Crawl { tree, skip, log, stack, status: Status::Running })
                } else {
                    let request = request_of(&log, &items[next]);
                    let frame = Frame::Items { node, items, next, out };
                    stack.push(frame);
                    assert(frames_view(stack@) =~= c.stack);
                    Progress::Fetch(
                        Crawl { tree, skip, log, stack, status: Status::AwaitingLink },
                        request,
                    )
                }
            },
            _ => unreached(),
        }
    }
}

/// The two levels at `i` and above it belong together.
spec fn linked_pair(c: CrawlView, i: int) -> bool {
    linked(c.stack[i], c.stack[i + 1])
}

} // verus!

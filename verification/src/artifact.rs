//! The result tree of a crawl.

use std::sync::Arc;
use vstd::prelude::*;

verus! {

/// One node of the result tree, as contracts see it.
pub struct ArtifactView {
    pub tag: Seq<char>,
    pub data: Option<Seq<char>>,
    pub children: Seq<ArtifactView>,
}

/// One node of the result tree: the id of the selector that it came from, the
/// value that was extracted, if the selector yields one, and what the
/// selector's children extracted.
#[derive(Debug, PartialEq, Eq)]
pub struct Artifact {
    pub tag: String,
    pub data: Option<Arc<String>>,
    pub children: Vec<Artifact>,
}

impl View for Artifact {
    type V = ArtifactView;

    open spec fn view(&self) -> ArtifactView
        decreases self,
    {
        ArtifactView {
            tag: self.tag@,
            data: match self.data {
                Some(d) => Some(d@),
                None => None,
            },
            children: Seq::new(
                self.children@.len(),
                |i: int|
                    if 0 <= i < self.children@.len() {
                        self.children@[i].view()
                    } else {
                        arbitrary()
                    },
            ),
        }
    }
}

/// The views of a list of artifacts.
pub open spec fn artifacts_view(v: Seq<Artifact>) -> Seq<ArtifactView> {
    v.map_values(|a: Artifact| a@)
}

/// The tag of the artifact that stands for the start of a crawl.
pub open spec fn start_tag() -> Seq<char> {
    "source_url"@
}

impl Artifact {
    /// The children of an artifact's view are the views of its children.
    pub proof fn lemma_children_view(&self)
        ensures
            self@.children == artifacts_view(self.children@),
    {
        reveal_with_fuel(<Artifact as View>::view, 2);
        assert(self@.children =~= artifacts_view(self.children@));
    }

    /// An artifact without children that carries `data`.
    pub fn leaf(tag: String, data: Arc<String>) -> (r: Artifact)
        ensures
            r@ == (ArtifactView { tag: tag@, data: Some(data@), children: Seq::empty() }),
    {
        let r = Artifact { tag, data: Some(data), children: Vec::new() };
        proof {
            r.lemma_children_view();
            assert(r@.children =~= Seq::empty());
        }
        r
    }

    /// An artifact with children.
    pub fn node(tag: String, data: Option<Arc<String>>, children: Vec<Artifact>) -> (r: Artifact)
        ensures
            r@ == (ArtifactView {
                tag: tag@,
                data: match data {
                    Some(d) => Some(d@),
                    None => None,
                },
                children: artifacts_view(children@),
            }),
    {
        let r = Artifact { tag, data, children };
        proof {
            r.lemma_children_view();
        }
        r
    }
}

} // verus!

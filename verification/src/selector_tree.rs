//! Selector definitions and the forest built from them.
//!
//! A definition is a flat list of records, each naming the ids of the records it
//! hangs under. Building starts at a parent id and collects, in the order of the
//! list, every record that names it; each such record becomes a node whose own
//! children are built the same way from its id.

use vstd::prelude::*;
use crate::text::same;

verus! {

/// The kind of extraction that a selector performs.
#[derive(Clone, Copy, Debug, PartialEq, Eq, Structural)]
pub enum SelectorType {
    Text,
    Link,
    Image,
    Element,
}

impl SelectorType {
    /// The kind that a type name of a definition stands for.
    pub open spec fn from_name(name: Seq<char>) -> Option<SelectorType> {
        if name == "SelectorText"@ {
            Some(SelectorType::Text)
        } else if name == "SelectorLink"@ {
            Some(SelectorType::Link)
        } else if name == "SelectorImage"@ {
            Some(SelectorType::Image)
        } else if name == "SelectorElement"@ {
            Some(SelectorType::Element)
        } else {
            None
        }
    }

    /// Reads a type name. An unknown name is refused, and the error carries it.
    pub fn from_str(s: &str) -> (r: Result<SelectorType, BuildError>)
        ensures
            match r {
                Ok(kind) => Self::from_name(s@) == Some(kind),
                Err(e) => Self::from_name(s@) is None && e@ == (BuildErrorView::InvalidSelectorType {
                    value: s@,
                }),
            },
    {
        if same(s, "SelectorText") {
            Ok(SelectorType::Text)
        } else if same(s, "SelectorLink") {
            Ok(SelectorType::Link)
        } else if same(s, "SelectorImage") {
            Ok(SelectorType::Image)
        } else if same(s, "SelectorElement") {
            Ok(SelectorType::Element)
        } else {
            Err(BuildError::InvalidSelectorType { value: s.to_owned() })
        }
    }
}

/// Why a definition does not describe a selector forest.
#[derive(Clone, Debug, PartialEq, Eq)]
pub enum BuildError {
    /// A record that belongs to the forest has a type name that is not known.
    InvalidSelectorType { value: String },
    /// A record would be placed under a node with its own id, so that the
    /// forest would never end.
    CyclicReference { id: String },
    /// The definition names no start URL.
    MissingStartUrl,
}

pub enum BuildErrorView {
    InvalidSelectorType { value: Seq<char> },
    CyclicReference { id: Seq<char> },
    MissingStartUrl,
}

impl View for BuildError {
    type V = BuildErrorView;

    open spec fn view(&self) -> BuildErrorView {
        match self {
            BuildError::InvalidSelectorType { value } => BuildErrorView::InvalidSelectorType {
                value: value@,
            },
            BuildError::CyclicReference { id } => BuildErrorView::CyclicReference { id: id@ },
            BuildError::MissingStartUrl => BuildErrorView::MissingStartUrl,
        }
    }
}

/// The views of a list of strings.
pub open spec fn strings_view(v: Seq<String>) -> Seq<Seq<char>> {
    v.map_values(|s: String| s@)
}

/// One record of a definition, as contracts see it.
pub struct RawSelectorView {
    pub id: Seq<char>,
    pub kind_name: Seq<char>,
    pub selector: Seq<char>,
    pub multiple: bool,
    pub parent_selectors: Seq<Seq<char>>,
    pub delay: i32,
}

/// One record of a definition.
#[derive(Clone, Debug, PartialEq, Eq)]
pub struct RawSelector {
    pub id: String,
    pub kind_name: String,
    pub selector: String,
    pub multiple: bool,
    pub parent_selectors: Vec<String>,
    pub delay: i32,
}

impl View for RawSelector {
    type V = RawSelectorView;

    open spec fn view(&self) -> RawSelectorView {
        RawSelectorView {
            id: self.id@,
            kind_name: self.kind_name@,
            selector: self.selector@,
            multiple: self.multiple,
            parent_selectors: strings_view(self.parent_selectors@),
            delay: self.delay,
        }
    }
}

impl RawSelector {
    pub fn new(
        id: String,
        kind_name: String,
        selector: String,
        multiple: bool,
        parent_selectors: Vec<String>,
        delay: i32,
    ) -> (r: RawSelector)
        ensures
            r@ == (RawSelectorView {
                id: id@,
                kind_name: kind_name@,
                selector: selector@,
                multiple,
                parent_selectors: strings_view(parent_selectors@),
                delay,
            }),
    {
        RawSelector { id, kind_name, selector, multiple, parent_selectors, delay }
    }

    /// Whether this record names `parent` among the ids it hangs under.
    pub fn has_parent(&self, parent: &String) -> (r: bool)
        ensures
            r == self@.parent_selectors.contains(parent@),
    {
        let mut i: usize = 0;
        while i < self.parent_selectors.len()
            invariant
                i <= self.parent_selectors.len(),
                forall|j: int| 0 <= j < i ==> self@.parent_selectors[j] != parent@,
            decreases self.parent_selectors.len() - i,
        {
            if self.parent_selectors[i] == *parent {
                assert(self@.parent_selectors[i as int] == parent@);
                return true;
            }
            i += 1;
        }
        false
    }
}

/// The views of a list of records.
pub open spec fn records_view(v: Seq<RawSelector>) -> Seq<RawSelectorView> {
    v.map_values(|r: RawSelector| r@)
}

/// A definition as it is read: a name, the start URLs and the flat list of
/// records.
#[derive(Clone, Debug, PartialEq, Eq)]
pub struct SiteMap {
    pub id: String,
    pub start_url: Vec<String>,
    pub selectors: Vec<RawSelector>,
}

pub struct SiteMapView {
    pub id: Seq<char>,
    pub start_url: Seq<Seq<char>>,
    pub selectors: Seq<RawSelectorView>,
}

impl View for SiteMap {
    type V = SiteMapView;

    open spec fn view(&self) -> SiteMapView {
        SiteMapView {
            id: self.id@,
            start_url: strings_view(self.start_url@),
            selectors: records_view(self.selectors@),
        }
    }
}

impl SiteMap {
    pub fn new(id: String, start_url: Vec<String>, selectors: Vec<RawSelector>) -> (r: SiteMap)
        ensures
            r@ == (SiteMapView {
                id: id@,
                start_url: strings_view(start_url@),
                selectors: records_view(selectors@),
            }),
    {
        SiteMap { id, start_url, selectors }
    }
}

/// One node of the selector forest, as contracts see it.
pub struct SelectorNodeView {
    pub id: Seq<char>,
    pub selector_type: SelectorType,
    pub selector: Seq<char>,
    pub multiple: bool,
    pub children: Seq<SelectorNodeView>,
}

/// One extraction rule together with the rules evaluated on what it yields.
#[derive(Debug, PartialEq, Eq)]
pub struct SelectorNode {
    pub id: String,
    pub selector_type: SelectorType,
    pub selector: String,
    pub multiple: bool,
    pub children: Vec<SelectorNode>,
}

impl View for SelectorNode {
    type V = SelectorNodeView;

    open spec fn view(&self) -> SelectorNodeView
        decreases self,
    {
        SelectorNodeView {
            id: self.id@,
            selector_type: self.selector_type,
            selector: self.selector@,
            multiple: self.multiple,
            children: Seq::new(
                self.children@.len(),
                |i: int|
                    if 0 <= i < self.children@.len() {
                        self.children@[i].view()
                    } else {
                        arbitrary()
                    },
            ),
        }
    }
}

/// The views of a list of nodes.
pub open spec fn nodes_view(v: Seq<SelectorNode>) -> Seq<SelectorNodeView> {
    v.map_values(|n: SelectorNode| n@)
}

impl SelectorNode {
    /// The children of a node's view are the views of its children.
    pub proof fn lemma_children_view(&self)
        ensures
            self@.children == nodes_view(self.children@),
    {
        reveal_with_fuel(<SelectorNode as View>::view, 2);
        assert(self@.children =~= nodes_view(self.children@));
    }
}

/// The id that the records at the top of a forest hang under.
pub open spec fn root_marker() -> Seq<char> {
    "_root"@
}

/// The records that name `parent`, in the order of the definition.
pub open spec fn children_of(records: Seq<RawSelectorView>, parent: Seq<char>) -> Seq<
    RawSelectorView,
> {
    records.filter(|r: RawSelectorView| r.parent_selectors.contains(parent))
}

/// The type name of the first record whose type is not known, if there is one.
pub open spec fn first_invalid_type(records: Seq<RawSelectorView>) -> Option<Seq<char>>
    decreases records.len(),
{
    if records.len() == 0 {
        None
    } else if SelectorType::from_name(records[0].kind_name) is None {
        Some(records[0].kind_name)
    } else {
        first_invalid_type(records.drop_first())
    }
}

/// The node that a record with a known type becomes, given its children.
pub open spec fn node_of(raw: RawSelectorView, children: Seq<SelectorNodeView>) -> SelectorNodeView
    recommends
        SelectorType::from_name(raw.kind_name) is Some,
{
    SelectorNodeView {
        id: raw.id,
        selector_type: SelectorType::from_name(raw.kind_name).unwrap(),
        selector: raw.selector,
        multiple: raw.multiple,
        children,
    }
}

/// The forest under `parent`. `path` holds the ids from the top of the forest
/// down to `parent`; `depth` bounds how many more levels may follow.
///
/// The records that name `parent` are read first, and the first unknown type
/// name among them is an error. Then each of them, in order, gets its children.
pub open spec fn forest_under(
    records: Seq<RawSelectorView>,
    parent: Seq<char>,
    path: Seq<Seq<char>>,
    depth: nat,
) -> Result<Seq<SelectorNodeView>, BuildErrorView>
    decreases depth, 1nat, 0nat,
{
    let level = children_of(records, parent);
    match first_invalid_type(level) {
        Some(value) => Err(BuildErrorView::InvalidSelectorType { value }),
        None => subtrees(records, level, path, depth),
    }
}

/// The nodes for the records `level`, all of a known type, each with its
/// children. A record whose id is already on `path` would repeat below itself
/// without end, and is an error.
pub open spec fn subtrees(
    records: Seq<RawSelectorView>,
    level: Seq<RawSelectorView>,
    path: Seq<Seq<char>>,
    depth: nat,
) -> Result<Seq<SelectorNodeView>, BuildErrorView>
    decreases depth, 0nat, level.len(),
{
    if level.len() == 0 {
        Ok(Seq::empty())
    } else {
        let first = level[0];
        if path.contains(first.id) || depth == 0 {
            Err(BuildErrorView::CyclicReference { id: first.id })
        } else {
            match forest_under(records, first.id, path.push(first.id), (depth - 1) as nat) {
                Err(e) => Err(e),
                Ok(children) => match subtrees(records, level.drop_first(), path, depth) {
                    Err(e) => Err(e),
                    Ok(rest) => Ok(seq![node_of(first, children)] + rest),
                },
            }
        }
    }
}

/// The forest that a definition describes under `parent`, or the reason why it
/// describes none. No path through a forest without repeated ids is longer than
/// the definition, which bounds the depth.
pub open spec fn selector_forest(records: Seq<RawSelectorView>, parent: Seq<char>) -> Result<
    Seq<SelectorNodeView>,
    BuildErrorView,
> {
    forest_under(records, parent, seq![parent], records.len())
}

/// The views of a list of borrowed records.
pub open spec fn refs_view(v: Seq<&RawSelector>) -> Seq<RawSelectorView> {
    v.map_values(|r: &RawSelector| r@)
}

/// What a build returned, as contracts see it.
pub open spec fn build_view(r: Result<Vec<SelectorNode>, BuildError>) -> Result<
    Seq<SelectorNodeView>,
    BuildErrorView,
> {
    match r {
        Ok(nodes) => Ok(nodes_view(nodes@)),
        Err(e) => Err(e@),
    }
}

/// `done` followed by what `rest` holds, where `rest` holds nodes.
pub open spec fn after(
    done: Seq<SelectorNodeView>,
    rest: Result<Seq<SelectorNodeView>, BuildErrorView>,
) -> Result<Seq<SelectorNodeView>, BuildErrorView> {
    match rest {
        Ok(nodes) => Ok(done + nodes),
        Err(e) => Err(e),
    }
}

/// The records that name `parent`, in the order of the list.
fn collect_children<'a>(records: &'a Vec<RawSelector>, parent: &String) -> (level: Vec<
    &'a RawSelector,
>)
    ensures
        refs_view(level@) == children_of(records_view(records@), parent@),
{
    let mut level: Vec<&'a RawSelector> = Vec::new();
    let mut i: usize = 0;
    proof {
        reveal(Seq::filter);
        assert(records_view(records@.take(0)) =~= Seq::empty());
    }
    while i < records.len()
        invariant
            i <= records.len(),
            refs_view(level@) == children_of(records_view(records@.take(i as int)), parent@),
        decreases records.len() - i,
    {
        let ghost before = refs_view(level@);
        let raw = &records[i];
        if raw.has_parent(parent) {
            level.push(raw);
            assert(refs_view(level@) =~= before.push(raw@));
        }
        proof {
            let grown = records_view(records@.take(i + 1));
            assert(grown.drop_last() =~= records_view(records@.take(i as int)));
            assert(grown.last() == raw@);
            reveal(Seq::filter);
        }
        i += 1;
    }
    assert(records@.take(records.len() as int) =~= records@);
    level
}

/// The kind of each record of a level, or the first type name that is not
/// known.
fn check_types(level: &Vec<&RawSelector>) -> (r: Result<Vec<SelectorType>, BuildError>)
    ensures
        match r {
            Ok(kinds) => {
                &&& first_invalid_type(refs_view(level@)) is None
                &&& kinds@.len() == level@.len()
                &&& forall|i: int|
                    0 <= i < level@.len() ==> SelectorType::from_name(level@[i]@.kind_name)
                        == Some(#[trigger] kinds@[i])
            },
            Err(e) => first_invalid_type(refs_view(level@)) matches Some(value) && e@ == (
            BuildErrorView::InvalidSelectorType { value }),
        },
{
    let mut kinds: Vec<SelectorType> = Vec::new();
    let mut i: usize = 0;
    assert(refs_view(level@).skip(0) =~= refs_view(level@));
    while i < level.len()
        invariant
            i <= level.len(),
            kinds@.len() == i,
            first_invalid_type(refs_view(level@)) == first_invalid_type(
                refs_view(level@).skip(i as int),
            ),
            forall|j: int|
                0 <= j < i ==> SelectorType::from_name(level@[j]@.kind_name) == Some(
                    #[trigger] kinds@[j],
                ),
        decreases level.len() - i,
    {
        let ghost rest = refs_view(level@).skip(i as int);
        assert(rest[0] == level@[i as int]@);
        assert(rest.drop_first() =~= refs_view(level@).skip(i + 1));
        match SelectorType::from_str(level[i].kind_name.as_str()) {
            Ok(kind) => {
                kinds.push(kind);
            },
            Err(e) => {
                return Err(e);
            },
        }
        i += 1;
    }
    Ok(kinds)
}

/// Whether `id` is on the path.
fn on_path(path: &Vec<String>, id: &String) -> (r: bool)
    ensures
        r == strings_view(path@).contains(id@),
{
    let mut i: usize = 0;
    while i < path.len()
        invariant
            i <= path.len(),
            forall|j: int| 0 <= j < i ==> strings_view(path@)[j] != id@,
        decreases path.len() - i,
    {
        if path[i] == *id {
            assert(strings_view(path@)[i as int] == id@);
            return true;
        }
        i += 1;
    }
    false
}

/// Builds the forest under `parent`, to the given depth. The path is the
/// same after the call as before.
fn build_under(
    records: &Vec<RawSelector>,
    parent: &String,
    path: &mut Vec<String>,
    depth: usize,
) -> (r: Result<Vec<SelectorNode>, BuildError>)
    ensures
        build_view(r) == forest_under(
            records_view(records@),
            parent@,
            strings_view(old(path)@),
            depth as nat,
        ),
        strings_view(final(path)@) == strings_view(old(path)@),
    decreases depth,
{
    let level = collect_children(records, parent);
    let kinds = match check_types(&level) {
        Ok(kinds) => kinds,
        Err(e) => {
            return Err(e);
        },
    };
    let ghost all = records_view(records@);
    let ghost here = strings_view(path@);
    let mut nodes: Vec<SelectorNode> = Vec::new();
    let mut i: usize = 0;
    assert(refs_view(level@).skip(0) =~= refs_view(level@));
    assert(nodes_view(nodes@) =~= Seq::empty());
    assert(after(Seq::empty(), subtrees(all, refs_view(level@), here, depth as nat)) =~= subtrees(
        all,
        refs_view(level@),
        here,
        depth as nat,
    )) by {
        let whole = subtrees(all, refs_view(level@), here, depth as nat);
        if whole is Ok {
            assert(Seq::<SelectorNodeView>::empty() + whole->Ok_0 =~= whole->Ok_0);
        }
    }
    while i < level.len()
        invariant
            i <= level.len(),
            kinds@.len() == level@.len(),
            all == records_view(records@),
            here == strings_view(old(path)@),
            strings_view(path@) == here,
            refs_view(level@) == children_of(all, parent@),
            first_invalid_type(refs_view(level@)) is None,
            forall|j: int|
                0 <= j < level@.len() ==> SelectorType::from_name(level@[j]@.kind_name) == Some(
                    #[trigger] kinds@[j],
                ),
            subtrees(all, refs_view(level@), here, depth as nat) == after(
                nodes_view(nodes@),
                subtrees(all, refs_view(level@).skip(i as int), here, depth as nat),
            ),
        decreases level.len() - i,
    {
        let raw = level[i];
        let ghost rest = refs_view(level@).skip(i as int);
        let ghost done = nodes_view(nodes@);
        assert(rest[0] == raw@);
        assert(rest.drop_first() =~= refs_view(level@).skip(i + 1));
        if on_path(path, &raw.id) || depth == 0 {
            return Err(BuildError::CyclicReference { id: raw.id.clone() });
        }
        path.push(raw.id.clone());
        assert(strings_view(path@) =~= here.push(raw@.id));
        let built = build_under(records, &raw.id, path, depth - 1);
        let ghost deeper = path@;
        assert(deeper.len() == strings_view(deeper).len());
        path.pop();
        assert(strings_view(path@) =~= here) by {
            assert(path@.len() == here.len());
            assert forall|j: int| 0 <= j < here.len() implies strings_view(path@)[j] == here[j] by {
                assert(strings_view(deeper)[j] == here.push(raw@.id)[j]);
            }
        }
        let children = match built {
            Ok(children) => children,
            Err(e) => {
                return Err(e);
            },
        };
        let node = SelectorNode {
            id: raw.id.clone(),
            selector_type: kinds[i],
            selector: raw.selector.clone(),
            multiple: raw.multiple,
            children,
        };
        proof {
            node.lemma_children_view();
        }
        assert(node@ == node_of(raw@, nodes_view(children@)));
        nodes.push(node);
        proof {
            assert(nodes_view(nodes@) =~= done.push(node@));
            let tail = subtrees(all, rest.drop_first(), here, depth as nat);
            if tail is Ok {
                assert(done + (seq![node@] + tail->Ok_0) =~= done.push(node@) + tail->Ok_0);
            }
        }
        i += 1;
    }
    proof {
        assert(refs_view(level@).skip(level@.len() as int) =~= Seq::empty());
        assert(nodes_view(nodes@) + Seq::<SelectorNodeView>::empty() =~= nodes_view(nodes@));
    }
    Ok(nodes)
}

/// Builds the forest under `parent_id` from the flat list of records.
///
/// Children keep the order of the list. A record that hangs under no id of the
/// forest is left out. The build fails on the first unknown type name that it
/// reads, and on a record that would hang below itself.
pub fn build_selector_node(raw_selectors: &Vec<RawSelector>, parent_id: &String) -> (r: Result<
    Vec<SelectorNode>,
    BuildError,
>)
    ensures
        build_view(r) == selector_forest(records_view(raw_selectors@), parent_id@),
{
    let mut path: Vec<String> = Vec::new();
    path.push(parent_id.clone());
    assert(strings_view(path@) =~= seq![parent_id@]);
    build_under(raw_selectors, parent_id, &mut path, raw_selectors.len())
}

impl SelectorNode {
    /// The forest of a definition: the nodes under the root marker.
    pub fn new(sitemap: SiteMap) -> (r: Result<Vec<SelectorNode>, BuildError>)
        ensures
            build_view(r) == selector_forest(sitemap@.selectors, root_marker()),
    {
        let root = "_root".to_owned();
        build_selector_node(&sitemap.selectors, &root)
    }

    /// The node of one record, without children. An unknown type name is refused.
    pub fn from_raw(raw: &RawSelector) -> (r: Result<SelectorNode, BuildError>)
        ensures
            match r {
                Ok(node) => SelectorType::from_name(raw@.kind_name) is Some && node@ == node_of(
                    raw@,
                    Seq::empty(),
                ),
                Err(e) => SelectorType::from_name(raw@.kind_name) is None && e@ == (
                BuildErrorView::InvalidSelectorType { value: raw@.kind_name }),
            },
    {
        match SelectorType::from_str(raw.kind_name.as_str()) {
            Ok(kind) => {
                let node = SelectorNode {
                    id: raw.id.clone(),
                    selector_type: kind,
                    selector: raw.selector.clone(),
                    multiple: raw.multiple,
                    children: Vec::new(),
                };
                proof {
                    node.lemma_children_view();
                }
                assert(node@.children =~= Seq::empty());
                Ok(node)
            },
            Err(e) => Err(e),
        }
    }
}

/// A crawl specification: a name, the URL to start from and the selector forest.
#[derive(Debug, PartialEq, Eq)]
pub struct SelectorTree {
    pub id: String,
    pub start_url: String,
    pub selectors: Vec<SelectorNode>,
}

pub struct SelectorTreeView {
    pub id: Seq<char>,
    pub start_url: Seq<char>,
    pub selectors: Seq<SelectorNodeView>,
}

impl View for SelectorTree {
    type V = SelectorTreeView;

    open spec fn view(&self) -> SelectorTreeView {
        SelectorTreeView {
            id: self.id@,
            start_url: self.start_url@,
            selectors: nodes_view(self.selectors@),
        }
    }
}

/// The crawl specification that a definition describes: its first start URL and
/// the forest under the root marker.
pub open spec fn selector_tree_of(sitemap: SiteMapView) -> Result<SelectorTreeView, BuildErrorView> {
    if sitemap.start_url.len() == 0 {
        Err(BuildErrorView::MissingStartUrl)
    } else {
        match selector_forest(sitemap.selectors, root_marker()) {
            Err(e) => Err(e),
            Ok(selectors) => Ok(
                SelectorTreeView { id: sitemap.id, start_url: sitemap.start_url[0], selectors },
            ),
        }
    }
}

impl SelectorTree {
    /// Builds the crawl specification of a definition.
    pub fn from_sitemap(sitemap: SiteMap) -> (r: Result<SelectorTree, BuildError>)
        ensures
            match r {
                Ok(tree) => selector_tree_of(sitemap@) == Ok::<_, BuildErrorView>(tree@),
                Err(e) => selector_tree_of(sitemap@) == Err::<SelectorTreeView, _>(e@),
            },
    {
        if sitemap.start_url.len() == 0 {
            return Err(BuildError::MissingStartUrl);
        }
        let start_url = sitemap.start_url[0].clone();
        let id = sitemap.id.clone();
        match SelectorNode::new(sitemap) {
            Ok(selectors) => Ok(SelectorTree { id, start_url, selectors }),
            Err(e) => Err(e),
        }
    }
}

/// The ids of the records, in the order of the definition.
pub open spec fn record_ids(records: Seq<RawSelectorView>) -> Seq<Seq<char>> {
    records.map_values(|r: RawSelectorView| r.id)
}

/// What holds of the path wherever a build from the top of a path has come:
/// no id is on it twice, and every id but the first is the id of a record.
pub open spec fn path_ok(records: Seq<RawSelectorView>, path: Seq<Seq<char>>) -> bool {
    &&& path.len() > 0
    &&& path.no_duplicates()
    &&& forall|i: int| 1 <= i < path.len() ==> record_ids(records).contains(#[trigger] path[i])
}

/// A path is no longer than the definition, the id at its top aside.
proof fn lemma_path_bounded(records: Seq<RawSelectorView>, path: Seq<Seq<char>>)
    requires
        path_ok(records, path),
    ensures
        path.len() <= records.len() + 1,
{
    let ids = record_ids(records);
    let tail = path.subrange(1, path.len() as int);
    assert(tail.no_duplicates()) by {
        assert forall|i: int, j: int|
            0 <= i < tail.len() && 0 <= j < tail.len() && i != j implies tail[i] != tail[j] by {
            assert(tail[i] == path[i + 1]);
            assert(tail[j] == path[j + 1]);
        }
    }
    assert(tail.to_set().subset_of(ids.to_set())) by {
        assert forall|id: Seq<char>| tail.to_set().contains(id) implies ids.to_set().contains(
            id,
        ) by {
            let i = choose|i: int| 0 <= i < tail.len() && tail[i] == id;
            assert(tail[i] == path[i + 1]);
        }
    }
    tail.unique_seq_to_set();
    ids.lemma_cardinality_of_set();
    vstd::seq_lib::seq_to_set_is_finite(ids);
    vstd::set_lib::lemma_len_subset(tail.to_set(), ids.to_set());
}

/// The records that name a parent are records of the definition.
proof fn lemma_children_are_records(records: Seq<RawSelectorView>, parent: Seq<char>)
    ensures
        forall|i: int|
            0 <= i < children_of(records, parent).len() ==> records.contains(
                #[trigger] children_of(records, parent)[i],
            ),
{
    let level = children_of(records, parent);
    assert forall|i: int| 0 <= i < level.len() implies records.contains(#[trigger] level[i]) by {
        assert(level.contains(level[i]));
        records.lemma_filter_contains_rev(
            |r: RawSelectorView| r.parent_selectors.contains(parent),
            level[i],
        );
    }
}

/// With a depth that leaves room for every record that is not on the path
/// yet, more depth changes nothing of the forest under `parent`.
proof fn lemma_forest_depth(
    records: Seq<RawSelectorView>,
    parent: Seq<char>,
    path: Seq<Seq<char>>,
    depth: nat,
    more: nat,
)
    requires
        path_ok(records, path),
        depth + path.len() >= records.len() + 1,
        more >= depth,
    ensures
        forest_under(records, parent, path, depth) == forest_under(records, parent, path, more),
    decreases depth, 1nat, 0nat,
{
    lemma_children_are_records(records, parent);
    lemma_subtrees_depth(records, children_of(records, parent), path, depth, more);
}

/// With a depth that leaves room for every record that is not on the path
/// yet, more depth changes nothing of the nodes of a level.
proof fn lemma_subtrees_depth(
    records: Seq<RawSelectorView>,
    level: Seq<RawSelectorView>,
    path: Seq<Seq<char>>,
    depth: nat,
    more: nat,
)
    requires
        path_ok(records, path),
        depth + path.len() >= records.len() + 1,
        more >= depth,
        forall|i: int| 0 <= i < level.len() ==> records.contains(#[trigger] level[i]),
    ensures
        subtrees(records, level, path, depth) == subtrees(records, level, path, more),
    decreases depth, 0nat, level.len(),
{
    if level.len() > 0 {
        let first = level[0];
        if !path.contains(first.id) {
            let longer = path.push(first.id);
            assert(path_ok(records, longer)) by {
                assert(records.contains(first));
                let at = choose|at: int| 0 <= at < records.len() && records[at] == first;
                assert(record_ids(records)[at] == first.id);
                assert forall|i: int, j: int|
                    0 <= i < longer.len() && 0 <= j < longer.len() && i != j implies longer[i]
                    != longer[j] by {
                    if i < path.len() {
                        assert(path.contains(longer[i]));
                    }
                    if j < path.len() {
                        assert(path.contains(longer[j]));
                    }
                }
            }
            lemma_path_bounded(records, longer);
            assert(depth > 0);
            lemma_forest_depth(
                records,
                first.id,
                longer,
                (depth - 1) as nat,
                (more - 1) as nat,
            );
            assert forall|i: int| 0 <= i < level.drop_first().len() implies records.contains(
                #[trigger] level.drop_first()[i],
            ) by {
                assert(level.drop_first()[i] == level[i + 1]);
            }
            lemma_subtrees_depth(records, level.drop_first(), path, depth, more);
        }
    }
}

/// The depth to which a forest is built is never what ends the build: with
/// any greater depth the forest of a definition is the same. A build fails
/// for a record below itself only where the record is below itself.
pub proof fn lemma_depth_suffices(records: Seq<RawSelectorView>, parent: Seq<char>, more: nat)
    requires
        more >= records.len(),
    ensures
        forest_under(records, parent, seq![parent], more) == selector_forest(records, parent),
{
    let path = seq![parent];
    assert(path_ok(records, path));
    lemma_forest_depth(records, parent, path, records.len(), more);
}

} // verus!

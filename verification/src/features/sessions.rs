//! Sessions: the layout and the open files of a project, restored on the next
//! start. A session records the tree of panes, the file tabs of each with
//! their caret and viewport, and which pane and tab are active. Tabs without a
//! file are not recorded. A file that is gone is skipped when a session is
//! restored, and a pane that is left without tabs collapses.

use vstd::prelude::*;
use vstd::string::*;

use crate::features::context::Ctx;
use crate::geometry::above_zero;
use crate::paths::{join, joined};
use crate::project_search::{sha256_of, ContentFingerprint};
use crate::text::{optional_text, same_text};

verus! {

broadcast use vstd::string::group_string_axioms;

pub const VERSION: u32 = 1;

/// A recorded session.
#[derive(Clone, Debug, PartialEq)]
pub struct Session {
    pub version: u32,
    pub layout: Node,
    /// Indexed by the numbers of panes in `layout`.
    pub panes: Vec<PaneSession>,
    pub active_pane: usize,
}

/// The recorded tree of panes.
#[derive(Debug, PartialEq)]
pub enum Node {
    Pane(usize),
    Split { axis: SplitAxis, ratio: u16, first: Box<Node>, second: Box<Node> },
}

#[derive(Clone, Copy, Debug, PartialEq, Eq, Structural)]
pub enum SplitAxis {
    Horizontal,
    Vertical,
}

/// A recorded pane.
#[derive(Clone, Debug, PartialEq)]
pub struct PaneSession {
    pub tabs: Vec<Tab>,
    pub active: usize,
}

/// A recorded tab.
#[derive(Clone, Debug, PartialEq)]
pub struct Tab {
    pub path: String,
    pub row: u32,
    pub column: u32,
    pub top_row: usize,
}

/// The number of a pane.
#[derive(Clone, Copy, Debug, PartialEq, Eq, Hash, PartialOrd, Ord, Structural)]
pub struct PaneId(pub u64);

#[derive(Clone, Copy, Debug, PartialEq, Eq, Structural)]
pub enum Axis {
    Horizontal,
    Vertical,
}

/// The tree of panes.
#[derive(Debug, PartialEq)]
pub enum LayoutNode {
    Pane(PaneId),
    Split { axis: Axis, ratio: u16, first: Box<LayoutNode>, second: Box<LayoutNode> },
}

impl Clone for Node {
    fn clone(&self) -> (copy: Self)
        ensures
            copy == *self,
        decreases self,
    {
        match self {
            Node::Pane(index) => Node::Pane(*index),
            Node::Split { axis, ratio, first, second } => Node::Split {
                axis: *axis,
                ratio: *ratio,
                first: Box::new((&**first).clone()),
                second: Box::new((&**second).clone()),
            },
        }
    }
}

/// The plain values of a [`Tab`].
pub struct TabView {
    pub path: Seq<char>,
    pub row: u32,
    pub column: u32,
    pub top_row: usize,
}

impl View for Tab {
    type V = TabView;

    open spec fn view(&self) -> TabView {
        TabView {
            path: self.path@,
            row: self.row,
            column: self.column,
            top_row: self.top_row,
        }
    }
}

/// The plain values of some tabs.
pub open spec fn tab_views(list: Seq<Tab>) -> Seq<TabView> {
    Seq::new(list.len(), |i: int| list[i]@)
}

/// The plain values of a [`PaneSession`].
pub struct PaneView {
    pub tabs: Seq<TabView>,
    pub active: usize,
}

impl View for PaneSession {
    type V = PaneView;

    open spec fn view(&self) -> PaneView {
        PaneView { tabs: tab_views(self.tabs@), active: self.active }
    }
}

/// The plain values of some panes.
pub open spec fn pane_views(list: Seq<PaneSession>) -> Seq<PaneView> {
    Seq::new(list.len(), |i: int| list[i]@)
}

/// The plain values of a [`Session`].
pub struct SessionView {
    pub version: u32,
    pub layout: Node,
    pub panes: Seq<PaneView>,
    pub active_pane: usize,
}

impl View for Session {
    type V = SessionView;

    open spec fn view(&self) -> SessionView {
        SessionView {
            version: self.version,
            layout: self.layout,
            panes: pane_views(self.panes@),
            active_pane: self.active_pane,
        }
    }
}

/// The axis of a split that is restored.
pub open spec fn restored_axis(axis: SplitAxis) -> Axis {
    match axis {
        SplitAxis::Horizontal => Axis::Horizontal,
        SplitAxis::Vertical => Axis::Vertical,
    }
}

/// The axis of a split that is recorded.
pub open spec fn recorded_axis(axis: Axis) -> SplitAxis {
    match axis {
        Axis::Horizontal => SplitAxis::Horizontal,
        Axis::Vertical => SplitAxis::Vertical,
    }
}

/// The tree over the panes that came back, with the sibling of every pane that
/// did not in the place of their split.
pub open spec fn built(node: Node, ids: Seq<Option<PaneId>>) -> Option<LayoutNode>
    decreases node,
{
    match node {
        Node::Pane(index) => if index < ids.len() {
            match ids[index as int] {
                Some(id) => Some(LayoutNode::Pane(id)),
                None => None,
            }
        } else {
            None
        },
        Node::Split { axis, ratio, first, second } => match (
            built(*first, ids),
            built(*second, ids),
        ) {
            (Some(first), Some(second)) => Some(
                LayoutNode::Split {
                    axis: restored_axis(axis),
                    ratio,
                    first: Box::new(first),
                    second: Box::new(second),
                },
            ),
            (Some(only), None) => Some(only),
            (None, Some(only)) => Some(only),
            (None, None) => None,
        },
    }
}

/// Rebuilds the tree over the panes that came back, lifting the sibling of
/// every pane that did not.
pub fn build(node: &Node, ids: &[Option<PaneId>]) -> (layout: Option<LayoutNode>)
    ensures
        layout == built(*node, ids@),
    decreases *node,
{
    match node {
        Node::Pane(index) => if *index < ids.len() {
            match ids[*index] {
                Some(id) => Some(LayoutNode::Pane(id)),
                None => None,
            }
        } else {
            None
        },
        Node::Split { axis, ratio, first, second } => {
            let left = build(first, ids);
            let right = build(second, ids);
            match (left, right) {
                (Some(left), Some(right)) => Some(
                    LayoutNode::Split {
                        axis: match axis {
                            SplitAxis::Horizontal => Axis::Horizontal,
                            SplitAxis::Vertical => Axis::Vertical,
                        },
                        ratio: *ratio,
                        first: Box::new(left),
                        second: Box::new(right),
                    },
                ),
                (Some(only), None) => Some(only),
                (None, Some(only)) => Some(only),
                (None, None) => None,
            }
        },
    }
}

/// The place of a pane in a list.
pub open spec fn pane_index(order: Seq<PaneId>, id: PaneId) -> int
    decreases order.len(),
{
    if order.len() == 0 || order[0] == id {
        0
    } else {
        1 + pane_index(order.drop_first(), id)
    }
}

/// The panes of a tree, from the first to the last.
pub open spec fn leaves(node: LayoutNode) -> Seq<PaneId>
    decreases node,
{
    match node {
        LayoutNode::Pane(id) => seq![id],
        LayoutNode::Split { first, second, .. } => leaves(*first) + leaves(*second),
    }
}

/// The tree as it is recorded, by the places of the panes in a list.
pub open spec fn recorded(node: LayoutNode, order: Seq<PaneId>) -> Node
    decreases node,
{
    match node {
        LayoutNode::Pane(id) => Node::Pane(pane_index(order, id) as usize),
        LayoutNode::Split { axis, ratio, first, second } => Node::Split {
            axis: recorded_axis(axis),
            ratio,
            first: Box::new(recorded(*first, order)),
            second: Box::new(recorded(*second, order)),
        },
    }
}

proof fn lemma_pane_index(order: Seq<PaneId>, id: PaneId)
    requires
        order.contains(id),
    ensures
        0 <= pane_index(order, id) < order.len(),
        order[pane_index(order, id)] == id,
    decreases order.len(),
{
    if order[0] != id {
        let k = choose|k: int| 0 <= k < order.len() && order[k] == id;
        assert(order.drop_first()[k - 1] == id);
        lemma_pane_index(order.drop_first(), id);
    }
}

/// Whether all panes of a tree are in a list.
pub open spec fn lists_panes(order: Seq<PaneId>, node: LayoutNode) -> bool {
    forall|k: int| 0 <= k < leaves(node).len() ==> order.contains(#[trigger] leaves(node)[k])
}

proof fn lemma_lists_both(order: Seq<PaneId>, first: LayoutNode, second: LayoutNode, node: LayoutNode)
    requires
        lists_panes(order, node),
        leaves(node) == leaves(first) + leaves(second),
    ensures
        lists_panes(order, first),
        lists_panes(order, second),
{
    assert forall|k: int| 0 <= k < leaves(first).len() implies order.contains(
        #[trigger] leaves(first)[k],
    ) by {
        assert(leaves(node)[k] == leaves(first)[k]);
    }
    assert forall|k: int| 0 <= k < leaves(second).len() implies order.contains(
        #[trigger] leaves(second)[k],
    ) by {
        assert(leaves(node)[leaves(first).len() + k] == leaves(second)[k]);
    }
}

fn find_pane(order: &Vec<PaneId>, id: PaneId) -> (index: usize)
    requires
        order@.contains(id),
    ensures
        index == pane_index(order@, id),
        index < order@.len(),
{
    let mut i: usize = 0;
    assert(order@.skip(0) =~= order@);
    while i < order.len() && order[i] != id
        invariant
            i <= order@.len(),
            pane_index(order@, id) == i + pane_index(order@.skip(i as int), id),
        decreases order@.len() - i,
    {
        assert(order@.skip(i as int).drop_first() =~= order@.skip(i + 1));
        i += 1;
    }
    proof {
        lemma_pane_index(order@, id);
    }
    i
}

/// The tree as it is recorded, by the places of the panes in a list.
pub fn node_of(node: &LayoutNode, order: &Vec<PaneId>) -> (result: Node)
    requires
        lists_panes(order@, *node),
    ensures
        result == recorded(*node, order@),
    decreases *node,
{
    match node {
        LayoutNode::Pane(id) => {
            assert(leaves(*node)[0] == *id);
            Node::Pane(find_pane(order, *id))
        },
        LayoutNode::Split { axis, ratio, first, second } => {
            proof {
                lemma_lists_both(order@, **first, **second, *node);
            }
            let left = node_of(first, order);
            let right = node_of(second, order);
            Node::Split {
                axis: match axis {
                    Axis::Horizontal => SplitAxis::Horizontal,
                    Axis::Vertical => SplitAxis::Vertical,
                },
                ratio: *ratio,
                first: Box::new(left),
                second: Box::new(right),
            }
        },
    }
}

/// The panes of a list, all of which came back.
pub open spec fn all_back(order: Seq<PaneId>) -> Seq<Option<PaneId>> {
    Seq::new(order.len(), |i: int| Some(order[i]))
}

/// A tree that is recorded, and restored with all its panes, is as it was.
pub proof fn recorded_layouts_come_back(node: LayoutNode, order: Seq<PaneId>)
    requires
        lists_panes(order, node),
        order.len() <= usize::MAX,
    ensures
        built(recorded(node, order), all_back(order)) == Some(node),
    decreases node,
{
    match node {
        LayoutNode::Pane(id) => {
            assert(leaves(node)[0] == id);
            lemma_pane_index(order, id);
        },
        LayoutNode::Split { axis, ratio, first, second } => {
            lemma_lists_both(order, *first, *second, node);
            recorded_layouts_come_back(*first, order);
            recorded_layouts_come_back(*second, order);
        },
    }
}

/// The panes of a recorded tree that came back, from the first to the last.
pub open spec fn surviving(node: Node, ids: Seq<Option<PaneId>>) -> Seq<PaneId>
    decreases node,
{
    match node {
        Node::Pane(index) => if index < ids.len() && ids[index as int] is Some {
            seq![ids[index as int]->0]
        } else {
            Seq::empty()
        },
        Node::Split { first, second, .. } => surviving(*first, ids) + surviving(*second, ids),
    }
}

/// A tree that is restored holds the panes that came back, and no others, in
/// the order that they were in; where none came back there is no tree.
pub proof fn restored_layouts_hold_what_came_back(node: Node, ids: Seq<Option<PaneId>>)
    ensures
        match built(node, ids) {
            Some(layout) => leaves(layout) == surviving(node, ids) && leaves(layout).len() > 0,
            None => surviving(node, ids).len() == 0,
        },
    decreases node,
{
    match node {
        Node::Pane(index) => {},
        Node::Split { axis, ratio, first, second } => {
            restored_layouts_hold_what_came_back(*first, ids);
            restored_layouts_hold_what_came_back(*second, ids);
            if built(*first, ids) is None {
                assert(surviving(*first, ids) + surviving(*second, ids) =~= surviving(
                    *second,
                    ids,
                ));
            }
            if built(*second, ids) is None {
                assert(surviving(*first, ids) + surviving(*second, ids) =~= surviving(*first, ids));
            }
        },
    }
}

/// A tab with its caret and viewport at the start.
pub open spec fn unplaced(tab: TabView) -> TabView {
    TabView { row: 0, column: 0, top_row: 0, ..tab }
}

/// A pane with the carets and viewports of its tabs at the start.
pub open spec fn unplaced_pane(pane: PaneView) -> PaneView {
    PaneView { tabs: Seq::new(pane.tabs.len(), |i: int| unplaced(pane.tabs[i])), ..pane }
}

/// What must change for a session to be written before the end: all of it but
/// carets and viewports.
pub open spec fn shape(session: SessionView) -> SessionView {
    SessionView {
        panes: Seq::new(session.panes.len(), |i: int| unplaced_pane(session.panes[i])),
        ..session
    }
}

fn pane_shape(pane: &PaneSession) -> (result: PaneSession)
    ensures
        result@ == unplaced_pane(pane@),
{
    let mut tabs: Vec<Tab> = Vec::new();
    let mut i: usize = 0;
    while i < pane.tabs.len()
        invariant
            i <= pane.tabs@.len(),
            tab_views(tabs@) =~= unplaced_pane(pane@).tabs.take(i as int),
        decreases pane.tabs@.len() - i,
    {
        let tab = Tab { path: pane.tabs[i].path.clone(), row: 0, column: 0, top_row: 0 };
        let ghost before = tabs@;
        tabs.push(tab);
        assert(tab_views(tabs@) =~= tab_views(before).push(tab@));
        i += 1;
    }
    assert(unplaced_pane(pane@).tabs.take(i as int) =~= unplaced_pane(pane@).tabs);
    PaneSession { tabs, active: pane.active }
}

/// The session with carets and viewports at the start.
pub fn shape_key(session: &Session) -> (result: Session)
    ensures
        result@ == shape(session@),
{
    let mut panes: Vec<PaneSession> = Vec::new();
    let mut i: usize = 0;
    while i < session.panes.len()
        invariant
            i <= session.panes@.len(),
            pane_views(panes@) =~= shape(session@).panes.take(i as int),
        decreases session.panes@.len() - i,
    {
        let pane = pane_shape(&session.panes[i]);
        let ghost before = panes@;
        panes.push(pane);
        assert(pane_views(panes@) =~= pane_views(before).push(pane@));
        i += 1;
    }
    assert(shape(session@).panes.take(i as int) =~= shape(session@).panes);
    Session {
        version: session.version,
        layout: session.layout.clone(),
        panes,
        active_pane: session.active_pane,
    }
}

fn same_node(a: &Node, b: &Node) -> (same: bool)
    ensures
        same == (*a == *b),
    decreases *a,
{
    match (a, b) {
        (Node::Pane(left), Node::Pane(right)) => *left == *right,
        (
            Node::Split { axis, ratio, first, second },
            Node::Split { axis: other_axis, ratio: other_ratio, first: other, second: last },
        ) => *axis == *other_axis && *ratio == *other_ratio && same_node(first, other)
            && same_node(second, last),
        _ => false,
    }
}

fn same_tabs(a: &Vec<Tab>, b: &Vec<Tab>) -> (same: bool)
    ensures
        same == (tab_views(a@) == tab_views(b@)),
{
    if a.len() != b.len() {
        assert(tab_views(a@).len() != tab_views(b@).len());
        return false;
    }
    let mut i: usize = 0;
    while i < a.len()
        invariant
            i <= a@.len() == b@.len(),
            forall|k: int| 0 <= k < i ==> tab_views(a@)[k] == tab_views(b@)[k],
        decreases a@.len() - i,
    {
        assert(tab_views(a@)[i as int] == a@[i as int]@ && tab_views(b@)[i as int]
            == b@[i as int]@);
        if !(same_text(a[i].path.as_str(), b[i].path.as_str()) && a[i].row == b[i].row
            && a[i].column == b[i].column && a[i].top_row == b[i].top_row) {
            return false;
        }
        i += 1;
    }
    assert(tab_views(a@) =~= tab_views(b@));
    true
}

fn same_session(a: &Session, b: &Session) -> (same: bool)
    ensures
        same == (a@ == b@),
{
    if a.version != b.version || a.active_pane != b.active_pane || !same_node(&a.layout, &b.layout)
        || a.panes.len() != b.panes.len() {
        assert(a@.panes.len() != b@.panes.len() || a@.layout != b@.layout || a@.version
            != b@.version || a@.active_pane != b@.active_pane);
        return false;
    }
    let mut i: usize = 0;
    while i < a.panes.len()
        invariant
            i <= a.panes@.len() == b.panes@.len(),
            forall|k: int| 0 <= k < i ==> a@.panes[k] == b@.panes[k],
        decreases a.panes@.len() - i,
    {
        assert(a@.panes[i as int] == a.panes@[i as int]@ && b@.panes[i as int]
            == b.panes@[i as int]@);
        if a.panes[i].active != b.panes[i].active || !same_tabs(&a.panes[i].tabs, &b.panes[i].tabs) {
            return false;
        }
        i += 1;
    }
    assert(a@.panes =~= b@.panes);
    true
}

/// What is known of a tab when a session is recorded.
#[derive(Debug)]
pub enum TabFacts {
    /// Its document is gone.
    Missing,
    /// Its document has no file.
    Scratch,
    File(Tab),
}

/// What is known of a pane when a session is recorded.
#[derive(Debug)]
pub struct PaneFacts {
    pub id: PaneId,
    pub tabs: Vec<TabFacts>,
    pub active_index: usize,
}

/// The first tabs of a pane as they are recorded.
pub open spec fn recorded_tabs(facts: PaneFacts, count: int) -> (Seq<TabView>, int)
    decreases count,
{
    if count <= 0 {
        (Seq::empty(), 0)
    } else {
        let (tabs, active) = recorded_tabs(facts, count - 1);
        let here = count - 1 == facts.active_index;
        match facts.tabs@[count - 1] {
            TabFacts::Missing => (tabs, active),
            TabFacts::Scratch => (
                tabs,
                if here {
                    above_zero(tabs.len() - 1)
                } else {
                    active
                },
            ),
            TabFacts::File(tab) => (
                tabs.push(tab@),
                if here {
                    tabs.len() as int
                } else {
                    active
                },
            ),
        }
    }
}

/// A pane as it is recorded.
pub open spec fn recorded_pane(facts: PaneFacts) -> PaneView {
    let (tabs, active) = recorded_tabs(facts, facts.tabs@.len() as int);
    PaneView { tabs, active: active as usize }
}

/// The panes of some facts.
pub open spec fn fact_ids(list: Seq<PaneFacts>) -> Seq<PaneId> {
    Seq::new(list.len(), |i: int| list[i].id)
}

/// The session that is recorded.
pub open spec fn recorded_session(
    list: Seq<PaneFacts>,
    root: LayoutNode,
    active: PaneId,
) -> SessionView {
    SessionView {
        version: VERSION,
        layout: recorded(root, fact_ids(list)),
        panes: Seq::new(list.len(), |i: int| recorded_pane(list[i])),
        active_pane: pane_index(fact_ids(list), active) as usize,
    }
}

fn record_pane(facts: &PaneFacts) -> (pane: PaneSession)
    ensures
        pane@ == recorded_pane(*facts),
{
    let mut tabs: Vec<Tab> = Vec::new();
    let mut active: usize = 0;
    let mut i: usize = 0;
    assert(tab_views(tabs@) =~= Seq::<TabView>::empty());
    while i < facts.tabs.len()
        invariant
            i <= facts.tabs@.len(),
            tabs@.len() <= i,
            recorded_tabs(*facts, i as int) == (tab_views(tabs@), active as int),
        decreases facts.tabs@.len() - i,
    {
        let here = i == facts.active_index;
        let ghost before = tabs@;
        match &facts.tabs[i] {
            TabFacts::Missing => {},
            TabFacts::Scratch => {
                if here {
                    active = tabs.len().saturating_sub(1);
                }
            },
            TabFacts::File(tab) => {
                if here {
                    active = tabs.len();
                }
                let copy = Tab {
                    path: tab.path.clone(),
                    row: tab.row,
                    column: tab.column,
                    top_row: tab.top_row,
                };
                tabs.push(copy);
                assert(tab_views(tabs@) =~= tab_views(before).push(tab@));
            },
        }
        i += 1;
    }
    PaneSession { tabs, active }
}

/// Records the panes, their tree, and the active one.
pub fn record(panes: &Vec<PaneFacts>, root: &LayoutNode, active: PaneId) -> (session: Session)
    requires
        lists_panes(fact_ids(panes@), *root),
        fact_ids(panes@).contains(active),
    ensures
        session@ == recorded_session(panes@, *root, active),
{
    let mut order: Vec<PaneId> = Vec::new();
    let mut list: Vec<PaneSession> = Vec::new();
    let mut i: usize = 0;
    while i < panes.len()
        invariant
            i <= panes@.len(),
            order@ =~= fact_ids(panes@).take(i as int),
            pane_views(list@) =~= Seq::new(i as nat, |k: int| recorded_pane(panes@[k])),
        decreases panes@.len() - i,
    {
        order.push(panes[i].id);
        let pane = record_pane(&panes[i]);
        let ghost before = list@;
        list.push(pane);
        assert(pane_views(list@) =~= pane_views(before).push(pane@));
        i += 1;
    }
    assert(order@ =~= fact_ids(panes@));
    Session {
        version: VERSION,
        layout: node_of(root, &order),
        panes: list,
        active_pane: find_pane(&order, active),
    }
}

/// The document that each tab of a session was opened as, or none where its
/// file is gone or could not be opened.
pub type Opened = Vec<Vec<Option<u64>>>;

/// A pane that came back.
#[derive(Debug, PartialEq, Eq)]
pub struct RestoredPane {
    pub id: PaneId,
    pub items: Vec<u64>,
    pub active: usize,
}

/// The plain values of a [`RestoredPane`].
pub struct BackPane {
    pub id: PaneId,
    pub items: Seq<u64>,
    pub active: int,
}

impl View for RestoredPane {
    type V = BackPane;

    open spec fn view(&self) -> BackPane {
        BackPane { id: self.id, items: self.items@, active: self.active as int }
    }
}

/// The plain values of some panes.
pub open spec fn back_panes(list: Seq<RestoredPane>) -> Seq<BackPane> {
    Seq::new(list.len(), |i: int| list[i]@)
}

/// The documents that came back, and where the one at an index is among them.
pub open spec fn back_items(opened: Seq<Option<u64>>, active: int) -> (Seq<u64>, Option<int>)
    decreases opened.len(),
{
    if opened.len() == 0 {
        (Seq::empty(), None)
    } else {
        let (items, found) = back_items(opened.drop_last(), active);
        match opened.last() {
            None => (items, found),
            Some(item) => (
                items.push(item),
                if opened.len() - 1 == active {
                    Some(items.len() as int)
                } else {
                    found
                },
            ),
        }
    }
}

/// The pane at an index, if any of its documents came back.
pub open spec fn back_pane(opened: Seq<Option<u64>>, active: int, index: int) -> Option<BackPane> {
    let (items, found) = back_items(opened, active);
    if items.len() == 0 {
        None
    } else {
        Some(
            BackPane {
                id: PaneId((index + 1) as u64),
                items,
                active: match found {
                    Some(found) => found,
                    None => items.len() - 1,
                },
            },
        )
    }
}

/// What came of the first panes of a session.
pub struct Recovery {
    pub ids: Seq<Option<PaneId>>,
    pub panes: Seq<BackPane>,
    pub restored: int,
    pub skipped: int,
}

pub open spec fn recovery(session: SessionView, opened: Seq<Seq<Option<u64>>>, count: int) -> Recovery
    decreases count,
{
    if count <= 0 {
        Recovery { ids: Seq::empty(), panes: Seq::empty(), restored: 0, skipped: 0 }
    } else {
        let before = recovery(session, opened, count - 1);
        let list = opened[count - 1];
        let active = session.panes[count - 1].active as int;
        let items = back_items(list, active).0;
        let restored = before.restored + items.len();
        let skipped = before.skipped + (list.len() - items.len());
        match back_pane(list, active, count - 1) {
            Some(pane) => Recovery {
                ids: before.ids.push(Some(pane.id)),
                panes: before.panes.push(pane),
                restored,
                skipped,
            },
            None => Recovery { ids: before.ids.push(None), restored, skipped, ..before },
        }
    }
}

/// The first pane of a tree.
pub open spec fn first_leaf(node: LayoutNode) -> PaneId
    decreases node,
{
    match node {
        LayoutNode::Pane(id) => id,
        LayoutNode::Split { first, .. } => first_leaf(*first),
    }
}

fn first_pane(node: &LayoutNode) -> (id: PaneId)
    ensures
        id == first_leaf(*node),
    decreases *node,
{
    match node {
        LayoutNode::Pane(id) => *id,
        LayoutNode::Split { first, .. } => first_pane(first),
    }
}

/// The pane that is active in a tree that was restored.
pub open spec fn back_active(ids: Seq<Option<PaneId>>, active: int, root: LayoutNode) -> PaneId {
    if active < ids.len() && ids[active] is Some {
        ids[active]->0
    } else {
        first_leaf(root)
    }
}

/// The panes of a session that came back, and their tree.
#[derive(Debug, PartialEq)]
pub struct Workspace {
    pub root: LayoutNode,
    pub panes: Vec<RestoredPane>,
    pub active_pane: PaneId,
}

/// What a restore came to; there is no workspace where no tab came back, or
/// where the layout was refused.
#[derive(Debug, PartialEq)]
pub struct Restored {
    pub workspace: Option<Workspace>,
    pub restored: usize,
    pub skipped: usize,
}

fn take_items(opened: &Vec<Option<u64>>, active: usize) -> (result: (Vec<u64>, Option<usize>))
    ensures
        result.0@ == back_items(opened@, active as int).0,
        match result.1 {
            Some(found) => back_items(opened@, active as int).1 == Some(found as int),
            None => back_items(opened@, active as int).1 is None,
        },
        result.0@.len() <= opened@.len(),
{
    let mut items: Vec<u64> = Vec::new();
    let mut found: Option<usize> = None;
    let mut i: usize = 0;
    assert(opened@.take(0) =~= Seq::<Option<u64>>::empty());
    while i < opened.len()
        invariant
            i <= opened@.len(),
            items@.len() <= i,
            items@ == back_items(opened@.take(i as int), active as int).0,
            match found {
                Some(found) => back_items(opened@.take(i as int), active as int).1 == Some(
                    found as int,
                ),
                None => back_items(opened@.take(i as int), active as int).1 is None,
            },
        decreases opened@.len() - i,
    {
        proof {
            assert(opened@.take(i + 1).drop_last() =~= opened@.take(i as int));
        }
        if let Some(item) = opened[i] {
            if i == active {
                found = Some(items.len());
            }
            items.push(item);
        }
        i += 1;
    }
    assert(opened@.take(i as int) =~= opened@);
    (items, found)
}

/// The plain values of what was opened.
pub open spec fn opened_view(opened: Seq<Vec<Option<u64>>>) -> Seq<Seq<Option<u64>>> {
    Seq::new(opened.len(), |i: int| opened[i]@)
}

/// How many tabs there are in the first of some panes.
pub open spec fn tab_count(opened: Seq<Seq<Option<u64>>>, count: int) -> int
    decreases count,
{
    if count <= 0 {
        0
    } else {
        tab_count(opened, count - 1) + opened[count - 1].len()
    }
}

proof fn lemma_tab_count(opened: Seq<Seq<Option<u64>>>, a: int, b: int)
    requires
        a <= b,
    ensures
        tab_count(opened, a) <= tab_count(opened, b),
    decreases b - a,
{
    if a < b {
        lemma_tab_count(opened, a, b - 1);
    }
}

/// Rebuilds the panes of a session from what its tabs were opened as.
pub fn arrange(session: &Session, opened: &Opened) -> (result: Restored)
    requires
        opened@.len() == session.panes@.len(),
        tab_count(opened_view(opened@), opened@.len() as int) <= usize::MAX,
    ensures
        ({
            let all = recovery(session@, opened_view(opened@), opened@.len() as int);
            match built(session.layout, all.ids) {
                Some(root) => {
                    &&& result.workspace is Some
                    &&& result.workspace->0.root == root
                    &&& back_panes(result.workspace->0.panes@) == all.panes
                    &&& result.workspace->0.active_pane == back_active(
                        all.ids,
                        session.active_pane as int,
                        root,
                    )
                    &&& result.restored == all.restored
                    &&& result.skipped == all.skipped
                },
                None => result.workspace is None && result.restored == 0 && result.skipped
                    == all.skipped,
            }
        }),
{
    let ghost view = opened_view(opened@);
    let mut ids: Vec<Option<PaneId>> = Vec::new();
    let mut panes: Vec<RestoredPane> = Vec::new();
    let mut restored: usize = 0;
    let mut skipped: usize = 0;
    let mut i: usize = 0;
    assert(back_panes(panes@) =~= Seq::<BackPane>::empty());
    while i < opened.len()
        invariant
            i <= opened@.len() == session.panes@.len(),
            view == opened_view(opened@),
            tab_count(view, opened@.len() as int) <= usize::MAX,
            restored + skipped == tab_count(view, i as int),
            recovery(session@, view, i as int) == (Recovery {
                ids: ids@,
                panes: back_panes(panes@),
                restored: restored as int,
                skipped: skipped as int,
            }),
        decreases opened@.len() - i,
    {
        proof {
            lemma_tab_count(view, i + 1, opened@.len() as int);
            assert(view[i as int] == opened@[i as int]@);
            assert(session@.panes[i as int] == session.panes@[i as int]@);
        }
        let ghost before = panes@;
        let ghost before_ids = ids@;
        let (items, found) = take_items(&opened[i], session.panes[i].active);
        restored += items.len();
        skipped += opened[i].len() - items.len();
        if items.len() == 0 {
            ids.push(None);
        } else {
            let id = PaneId(i as u64 + 1);
            let active: usize = match found {
                Some(found) => found,
                None => items.len() - 1,
            };
            let pane = RestoredPane { id, items, active };
            panes.push(pane);
            assert(back_panes(panes@) =~= back_panes(before).push(pane@));
            ids.push(Some(id));
        }
        i += 1;
    }
    match build(&session.layout, ids.as_slice()) {
        Some(root) => {
            let active = session.active_pane;
            let active_pane = if active < ids.len() {
                match ids[active] {
                    Some(id) => id,
                    None => first_pane(&root),
                }
            } else {
                first_pane(&root)
            };
            Restored { workspace: Some(Workspace { root, panes, active_pane }), restored, skipped }
        },
        None => Restored { workspace: None, restored: 0, skipped },
    }
}

/// Restores a session from what its tabs were opened as. `accepted` tells
/// whether the workspace took the layout; where it did not, nothing came back.
pub fn restore(session: &Session, opened: &Opened, accepted: bool) -> (result: Restored)
    requires
        opened@.len() == session.panes@.len(),
        tab_count(opened_view(opened@), opened@.len() as int) <= usize::MAX,
    ensures
        ({
            let all = recovery(session@, opened_view(opened@), opened@.len() as int);
            match built(session.layout, all.ids) {
                Some(root) if accepted => {
                    &&& result.workspace is Some
                    &&& result.workspace->0.root == root
                    &&& back_panes(result.workspace->0.panes@) == all.panes
                    &&& result.workspace->0.active_pane == back_active(
                        all.ids,
                        session.active_pane as int,
                        root,
                    )
                    &&& result.restored == all.restored
                    &&& result.skipped == all.skipped
                },
                _ => result.workspace is None && result.restored == 0 && result.skipped
                    == all.skipped,
            }
        }),
{
    let arranged = arrange(session, opened);
    if accepted {
        arranged
    } else {
        Restored { workspace: None, restored: 0, skipped: arranged.skipped }
    }
}

/// A hexadecimal digit.
pub open spec fn hex_digit(n: int) -> char {
    "0123456789abcdef"@[n]
}

/// Bytes in hexadecimal digits, two for each.
pub open spec fn hex_text(bytes: Seq<u8>) -> Seq<char>
    decreases bytes.len(),
{
    if bytes.len() == 0 {
        Seq::empty()
    } else {
        let byte = bytes.last() as int;
        hex_text(bytes.drop_last()).push(hex_digit(byte / 16)).push(hex_digit(byte % 16))
    }
}

/// Bytes in hexadecimal digits, two for each.
pub fn hex_string(bytes: &[u8]) -> (text: String)
    ensures
        text@ == hex_text(bytes@),
{
    let digits = "0123456789abcdef";
    proof {
        reveal_strlit("0123456789abcdef");
    }
    let mut text = String::new();
    let mut i: usize = 0;
    assert(bytes@.take(0) =~= Seq::<u8>::empty());
    assert(text@ =~= Seq::<char>::empty());
    while i < bytes.len()
        invariant
            i <= bytes@.len(),
            digits@ == "0123456789abcdef"@,
            digits@.len() == 16,
            text@ == hex_text(bytes@.take(i as int)),
        decreases bytes@.len() - i,
    {
        assert(bytes@.take(i + 1).drop_last() =~= bytes@.take(i as int));
        let byte = bytes[i] as usize;
        text.push(digits.get_char(byte / 16));
        text.push(digits.get_char(byte % 16));
        i += 1;
    }
    assert(bytes@.take(i as int) =~= bytes@);
    text
}

/// The file of the session of a project, by the canonical path of its root.
pub open spec fn session_file(data_dir: Seq<char>, root: Seq<char>) -> Seq<char> {
    joined(
        joined(data_dir, "zec-sessions"@),
        hex_text(sha256_of(vstd::utf8::encode_utf8(root))) + ".json"@,
    )
}

/// What is kept of the session of a project.
pub struct Ledger {
    pub file: Option<Seq<char>>,
    /// The shape of what was written last.
    pub written: Option<SessionView>,
}

impl Ledger {
    /// Whether a session is to be written though the end is not near.
    pub open spec fn stale(self, session: SessionView) -> bool {
        self.file is Some && self.written != Some(shape(session))
    }
}

/// The session of a project.
#[derive(Debug)]
pub struct Sessions {
    file: Option<String>,
    written: Option<Session>,
}

impl View for Sessions {
    type V = Ledger;

    closed spec fn view(&self) -> Ledger {
        Ledger {
            file: optional_text(self.file),
            written: match self.written {
                Some(session) => Some(session@),
                None => None,
            },
        }
    }
}

impl Default for Sessions {
    fn default() -> (sessions: Self)
        ensures
            sessions@ == (Ledger { file: None, written: None }),
    {
        Sessions { file: None, written: None }
    }
}

impl Sessions {
    /// Chooses the file for the project whose root has this canonical path.
    pub fn bind(&mut self, data_dir: &str, root: &str)
        ensures
            final(self)@ == (Ledger { file: Some(session_file(data_dir@, root@)), ..old(self)@ }),
    {
        let digest = ContentFingerprint::for_bytes(root.as_bytes()).sha256;
        let mut name = hex_string(digest.as_slice());
        name.append(".json");
        let directory = join(data_dir, "zec-sessions");
        self.file = Some(join(directory.as_str(), name.as_str()));
    }

    /// The stored session, if it can be restored: `stored` is what the file
    /// holds, if it can be read.
    pub fn load(&self, stored: Option<Session>) -> (session: Option<Session>)
        ensures
            session == match stored {
                Some(stored) if self@.file is Some && stored.version == VERSION => Some(stored),
                _ => None,
            },
    {
        if self.file.is_none() {
            return None;
        }
        match stored {
            Some(session) => if session.version == VERSION {
                Some(session)
            } else {
                None
            },
            None => None,
        }
    }

    /// The file of the session.
    pub fn file(&self) -> (file: &Option<String>)
        ensures
            optional_text(*file) == self@.file,
    {
        &self.file
    }

    /// Whether the session is to be written now: its tabs or its layout have
    /// changed.
    pub fn sync(&self, session: &Session) -> (write: bool)
        ensures
            write == self@.stale(session@),
    {
        if self.file.is_none() {
            return false;
        }
        match &self.written {
            Some(written) => !same_session(written, &shape_key(session)),
            None => true,
        }
    }

    /// Whether the session is to be written at the end, carets and viewports
    /// included.
    pub fn finish(&self) -> (write: bool)
        ensures
            write == (self@.file is Some),
    {
        self.file.is_some()
    }

    /// Ends a write of the session.
    pub fn write(&mut self, session: &Session, result: Result<(), String>, ctx: &mut Ctx)
        ensures
            ({
                if old(self)@.file is None {
                    final(self)@ == old(self)@ && final(ctx)@ == old(ctx)@
                } else {
                    match result {
                        Ok(_) => final(self)@ == (Ledger {
                            written: Some(shape(session@)),
                            ..old(self)@
                        }) && final(ctx)@ == old(ctx)@,
                        Err(error) => final(self)@ == old(self)@ && final(ctx)@ == old(ctx)@.said(
                            "session save failed: "@ + error@,
                        ),
                    }
                }
            }),
    {
        if self.file.is_none() {
            return;
        }
        match result {
            Ok(_) => {
                self.written = Some(shape_key(session));
            },
            Err(error) => {
                let mut text = "session save failed: ".to_string();
                text.append(error.as_str());
                ctx.say(text.as_str());
            },
        }
    }
}

/// Carets and viewports alone do not cause a write; another set of tabs, or
/// another layout, does.
pub proof fn only_the_shape_causes_a_write(ledger: Ledger, a: SessionView, b: SessionView)
    requires
        ledger.file is Some,
    ensures
        ({
            let after = Ledger { written: Some(shape(a)), ..ledger };
            after.stale(b) <==> shape(a) != shape(b)
        }),
        shape(shape(a)) == shape(a),
{
    let once = shape(a);
    let twice = shape(once);
    assert forall|i: int| 0 <= i < once.panes.len() implies twice.panes[i] == once.panes[i] by {
        assert(twice.panes[i].tabs =~= once.panes[i].tabs);
    }
    assert(twice.panes =~= once.panes);
}

/// Every tab of a session is either restored or skipped.
pub proof fn every_tab_is_accounted_for(
    session: SessionView,
    opened: Seq<Seq<Option<u64>>>,
    count: int,
)
    requires
        0 <= count <= opened.len(),
    ensures
        ({
            let all = recovery(session, opened, count);
            &&& all.restored + all.skipped == tab_count(opened, count)
            &&& all.ids.len() == count
            &&& 0 <= all.restored
        }),
    decreases count,
{
    if count > 0 {
        every_tab_is_accounted_for(session, opened, count - 1);
    }
}

/// How many of some tabs have a file.
pub open spec fn file_count(list: Seq<TabFacts>) -> int
    decreases list.len(),
{
    if list.len() == 0 {
        0
    } else {
        file_count(list.drop_last()) + if list.last() is File {
            1int
        } else {
            0
        }
    }
}

proof fn lemma_recorded_tabs(facts: PaneFacts, count: int)
    requires
        0 <= count <= facts.tabs@.len(),
    ensures
        ({
            let (tabs, active) = recorded_tabs(facts, count);
            let list = facts.tabs@.take(count);
            &&& tabs == list.filter(|tab: TabFacts| tab is File).map_values(
                |tab: TabFacts| tab->File_0@,
            )
            &&& tabs.len() == file_count(list) <= count
            &&& 0 <= active
            &&& count <= facts.active_index ==> active == 0
            &&& facts.active_index < count ==> {
                let here = facts.tabs@[facts.active_index as int];
                let before = file_count(facts.tabs@.take(facts.active_index as int));
                &&& before <= tabs.len()
                &&& here matches TabFacts::File(tab) ==> active == before && active < tabs.len()
                    && tabs[active] == tab@
                &&& here is Scratch ==> active == if before == 0 {
                    0
                } else {
                    before - 1
                }
                &&& here is Missing ==> active == 0
            }
        }),
    decreases count,
{
    let is_file = |tab: TabFacts| tab is File;
    let plain = |tab: TabFacts| tab->File_0@;
    let list = facts.tabs@.take(count);
    reveal(Seq::filter);
    if count == 0 {
        assert(list.filter(is_file).map_values(plain) =~= Seq::<TabView>::empty());
    } else {
        lemma_recorded_tabs(facts, count - 1);
        let front = facts.tabs@.take(count - 1);
        assert(list.drop_last() =~= front);
        assert(list.last() == facts.tabs@[count - 1]);
        let (tabs, active) = recorded_tabs(facts, count - 1);
        if list.last() is File {
            assert(list.filter(is_file) =~= front.filter(is_file).push(list.last()));
            assert(list.filter(is_file).map_values(plain) =~= tabs.push(list.last()->File_0@));
        } else {
            assert(list.filter(is_file) =~= front.filter(is_file));
        }
    }
}

/// A recorded pane has the tabs with a file, in their order, each with its
/// path, caret and viewport. The tab that is active comes first among those
/// recorded as often as files stand before it: where it has a file, the very tab
/// is recorded there. Where its document has no file, the file before it is
/// active, or else the first.
pub proof fn recorded_panes_keep_their_active_tab(facts: PaneFacts)
    requires
        facts.tabs@.len() <= usize::MAX,
    ensures
        ({
            let pane = recorded_pane(facts);
            let here = facts.tabs@[facts.active_index as int];
            let before = file_count(facts.tabs@.take(facts.active_index as int));
            &&& pane.tabs == facts.tabs@.filter(|tab: TabFacts| tab is File).map_values(
                |tab: TabFacts| tab->File_0@,
            )
            &&& facts.active_index < facts.tabs@.len() && here is File ==> {
                &&& pane.active == before
                &&& pane.active < pane.tabs.len()
                &&& pane.tabs[pane.active as int] == here->File_0@
            }
            &&& facts.active_index < facts.tabs@.len() && here is Scratch ==> pane.active == (
            if before == 0 {
                0
            } else {
                before - 1
            })
            &&& pane.tabs.len() > 0 ==> pane.active < pane.tabs.len()
        }),
{
    let count = facts.tabs@.len() as int;
    assert(facts.tabs@.take(count) =~= facts.tabs@);
    lemma_recorded_tabs(facts, count);
    if facts.active_index < count {
        lemma_file_count(facts.tabs@, facts.active_index as int, count);
    }
}

proof fn lemma_file_count(list: Seq<TabFacts>, a: int, b: int)
    requires
        0 <= a <= b <= list.len(),
    ensures
        0 <= file_count(list.take(a)) <= file_count(list.take(b)),
        file_count(list.take(b)) <= b,
    decreases b,
{
    if a < b {
        lemma_file_count(list, a, b - 1);
        assert(list.take(b).drop_last() =~= list.take(b - 1));
    } else if a > 0 {
        lemma_file_count(list, a - 1, b - 1);
        assert(list.take(a).drop_last() =~= list.take(a - 1));
    }
}

/// Tabs that only have files are all recorded, and where all of them are opened
/// again, the pane comes back with the same documents, and the one that was
/// active is active again.
pub proof fn panes_of_files_come_back(facts: PaneFacts, opened: Seq<Option<u64>>, index: int)
    requires
        0 < facts.tabs@.len() <= usize::MAX,
        facts.active_index < facts.tabs@.len(),
        forall|i: int| 0 <= i < facts.tabs@.len() ==> #[trigger] facts.tabs@[i] is File,
        opened.len() == facts.tabs@.len(),
        forall|i: int| 0 <= i < opened.len() ==> #[trigger] opened[i] is Some,
        0 <= index < u64::MAX,
    ensures
        ({
            let pane = recorded_pane(facts);
            let back = back_pane(opened, pane.active as int, index);
            &&& pane.tabs.len() == facts.tabs@.len()
            &&& forall|i: int|
                0 <= i < pane.tabs.len() ==> #[trigger] pane.tabs[i] == facts.tabs@[i]->File_0@
            &&& pane.active == facts.active_index
            &&& back is Some
            &&& back->0.items.len() == opened.len()
            &&& forall|i: int| 0 <= i < opened.len() ==> #[trigger] back->0.items[i] == opened[i]->0
            &&& back->0.active == facts.active_index
        }),
{
    recorded_panes_keep_their_active_tab(facts);
    lemma_all_files(facts, facts.tabs@.len() as int);
    lemma_all_files(facts, facts.active_index as int);
    assert(facts.tabs@.take(facts.tabs@.len() as int) =~= facts.tabs@);
    documents_that_came_back_keep_their_order(opened, facts.active_index as int, index);
    lemma_all_back(opened, facts.active_index as int);
}

proof fn lemma_all_files(facts: PaneFacts, count: int)
    requires
        0 <= count <= facts.tabs@.len(),
        forall|i: int| 0 <= i < facts.tabs@.len() ==> #[trigger] facts.tabs@[i] is File,
    ensures
        file_count(facts.tabs@.take(count)) == count,
        recorded_tabs(facts, count).0.len() == count,
        forall|i: int|
            0 <= i < count ==> #[trigger] recorded_tabs(facts, count).0[i]
                == facts.tabs@[i]->File_0@,
    decreases count,
{
    if count > 0 {
        lemma_all_files(facts, count - 1);
        assert(facts.tabs@.take(count).drop_last() =~= facts.tabs@.take(count - 1));
    }
}

/// How many of some documents came back.
pub open spec fn back_count(opened: Seq<Option<u64>>) -> int
    decreases opened.len(),
{
    if opened.len() == 0 {
        0
    } else {
        back_count(opened.drop_last()) + if opened.last() is Some {
            1int
        } else {
            0
        }
    }
}

proof fn lemma_all_back(opened: Seq<Option<u64>>, active: int)
    requires
        forall|i: int| 0 <= i < opened.len() ==> #[trigger] opened[i] is Some,
        0 <= active < opened.len(),
    ensures
        back_items(opened, active).0.len() == opened.len(),
        forall|i: int|
            0 <= i < opened.len() ==> #[trigger] back_items(opened, active).0[i] == opened[i]->0,
        back_items(opened, active).1 == Some(active),
{
    lemma_back_prefix(opened, active, opened.len() as int);
    assert(opened.take(opened.len() as int) =~= opened);
}

proof fn lemma_back_prefix(opened: Seq<Option<u64>>, active: int, count: int)
    requires
        forall|i: int| 0 <= i < opened.len() ==> #[trigger] opened[i] is Some,
        0 <= count <= opened.len(),
        0 <= active < opened.len(),
    ensures
        ({
            let (items, found) = back_items(opened.take(count), active);
            &&& items.len() == count
            &&& forall|i: int| 0 <= i < count ==> #[trigger] items[i] == opened[i]->0
            &&& found == if active < count {
                Some(active)
            } else {
                None
            }
        }),
    decreases count,
{
    if count > 0 {
        lemma_back_prefix(opened, active, count - 1);
        assert(opened.take(count).drop_last() =~= opened.take(count - 1));
        assert(opened.take(count).last() == opened[count - 1]);
    }
}

proof fn lemma_back_items(opened: Seq<Option<u64>>, active: int, count: int)
    requires
        0 <= count <= opened.len(),
    ensures
        ({
            let (items, found) = back_items(opened.take(count), active);
            let list = opened.take(count);
            &&& items == list.filter(|item: Option<u64>| item is Some).map_values(
                |item: Option<u64>| item->0,
            )
            &&& items.len() == back_count(list)
            &&& 0 <= active < count && opened[active] is Some ==> {
                &&& found == Some(back_count(opened.take(active)))
                &&& 0 <= back_count(opened.take(active)) < items.len()
                &&& items[back_count(opened.take(active))] == opened[active]->0
            }
            &&& !(0 <= active < count && opened[active] is Some) ==> found is None
        }),
    decreases count,
{
    let is_back = |item: Option<u64>| item is Some;
    let plain = |item: Option<u64>| item->0;
    let list = opened.take(count);
    reveal(Seq::filter);
    if count == 0 {
        assert(list.filter(is_back).map_values(plain) =~= Seq::<u64>::empty());
    } else {
        lemma_back_items(opened, active, count - 1);
        let front = opened.take(count - 1);
        assert(list.drop_last() =~= front);
        assert(list.last() == opened[count - 1]);
        let items = back_items(front, active).0;
        if list.last() is Some {
            assert(list.filter(is_back) =~= front.filter(is_back).push(list.last()));
            assert(list.filter(is_back).map_values(plain) =~= items.push(list.last()->0));
        } else {
            assert(list.filter(is_back) =~= front.filter(is_back));
        }
        if active == count - 1 {
            assert(opened.take(active) =~= front);
        }
    }
}

/// A pane comes back where any of its documents does, with those that did, in
/// their order, and under the number behind its place. The document that was
/// active is active again; where it did not come back, the last one is.
pub proof fn documents_that_came_back_keep_their_order(
    opened: Seq<Option<u64>>,
    active: int,
    index: int,
)
    requires
        0 <= index < u64::MAX,
    ensures
        ({
            let items = opened.filter(|item: Option<u64>| item is Some).map_values(
                |item: Option<u64>| item->0,
            );
            match back_pane(opened, active, index) {
                Some(pane) => {
                    &&& pane.items == items && items.len() > 0
                    &&& pane.id.0 == index + 1
                    &&& 0 <= pane.active < items.len()
                    &&& 0 <= active < opened.len() && opened[active] is Some ==> pane.active
                        == back_count(opened.take(active)) && items[pane.active]
                        == opened[active]->0
                    &&& !(0 <= active < opened.len() && opened[active] is Some) ==> pane.active
                        == items.len() - 1
                },
                None => items.len() == 0,
            }
        }),
{
    assert(opened.take(opened.len() as int) =~= opened);
    lemma_back_items(opened, active, opened.len() as int);
}

/// The session names the pane that is active by its place among the panes, and
/// has one recorded pane for each.
pub proof fn recorded_sessions_name_the_active_pane(
    list: Seq<PaneFacts>,
    root: LayoutNode,
    active: PaneId,
)
    requires
        fact_ids(list).contains(active),
        list.len() <= usize::MAX,
    ensures
        ({
            let session = recorded_session(list, root, active);
            &&& session.panes.len() == list.len()
            &&& session.active_pane < list.len()
            &&& list[session.active_pane as int].id == active
            &&& forall|i: int| 0 <= i < session.active_pane ==> (#[trigger] list[i]).id != active
            &&& forall|i: int|
                0 <= i < list.len() ==> #[trigger] session.panes[i] == recorded_pane(list[i])
        }),
{
    lemma_pane_index(fact_ids(list), active);
    lemma_pane_index_first(fact_ids(list), active);
    assert forall|i: int| 0 <= i < pane_index(fact_ids(list), active) implies (#[trigger] list[i]).id
        != active by {
        assert(fact_ids(list)[i] != active);
    }
}

proof fn lemma_pane_index_first(order: Seq<PaneId>, id: PaneId)
    ensures
        forall|i: int| 0 <= i < pane_index(order, id) && i < order.len() ==> order[i] != id,
    decreases order.len(),
{
    if order.len() > 0 && order[0] != id {
        lemma_pane_index_first(order.drop_first(), id);
        assert forall|i: int| 0 <= i < pane_index(order, id) && i < order.len() implies order[i]
            != id by {
            if i > 0 {
                assert(order[i] == order.drop_first()[i - 1]);
            }
        }
    }
}

/// A split comes back along the axis that it had, and so it is recorded: a
/// horizontal one as horizontal, with its share of the room and its sides in
/// their places.
pub proof fn splits_keep_their_axis(
    axis: Axis,
    ratio: u16,
    first: LayoutNode,
    second: LayoutNode,
    order: Seq<PaneId>,
    ids: Seq<Option<PaneId>>,
)
    ensures
        ({
            let node = LayoutNode::Split {
                axis,
                ratio,
                first: Box::new(first),
                second: Box::new(second),
            };
            &&& recorded(node, order) matches Node::Split {
                axis: own,
                ratio: share,
                first: left,
                second: right,
            } && (own is Horizontal <==> axis is Horizontal) && share == ratio && *left == recorded(
                first,
                order,
            ) && *right == recorded(second, order)
            &&& built(recorded(first, order), ids) is Some && built(recorded(second, order), ids)
                is Some ==> built(recorded(node, order), ids) == Some(
                LayoutNode::Split {
                    axis,
                    ratio,
                    first: Box::new(built(recorded(first, order), ids)->0),
                    second: Box::new(built(recorded(second, order), ids)->0),
                },
            )
        }),
{
}

/// The pane that was active is active again, where it came back; else the first
/// one of the tree is.
pub proof fn the_active_pane_comes_back(ids: Seq<Option<PaneId>>, active: int, root: LayoutNode)
    requires
        0 <= active,
    ensures
        ({
            let id = back_active(ids, active, root);
            &&& active < ids.len() && ids[active] is Some ==> ids[active] == Some(id)
            &&& !(active < ids.len() && ids[active] is Some) ==> leaves(root)[0] == id
        }),
{
    lemma_first_leaf(root);
}

proof fn lemma_first_leaf(root: LayoutNode)
    ensures
        leaves(root).len() > 0,
        leaves(root)[0] == first_leaf(root),
    decreases root,
{
    if let LayoutNode::Split { first, second, .. } = root {
        lemma_first_leaf(*first);
    }
}

/// What came of each pane of a session stands at its place: the number that it
/// came back under, or none. The panes that came back are listed in their order.
pub proof fn panes_come_back_in_their_order(
    session: SessionView,
    opened: Seq<Seq<Option<u64>>>,
    count: int,
    i: int,
)
    requires
        0 <= i < count <= opened.len() < u64::MAX,
    ensures
        ({
            let all = recovery(session, opened, count);
            let back = exists|k: int| 0 <= k < opened[i].len() && #[trigger] opened[i][k] is Some;
            &&& all.ids.len() == count
            &&& all.ids[i] is Some <==> back
            &&& all.ids[i] matches Some(id) ==> id.0 == i + 1 && exists|k: int|
                0 <= k < all.panes.len() && (#[trigger] all.panes[k]).id == id && Some(all.panes[k])
                    == back_pane(opened[i], session.panes[i].active as int, i)
        }),
    decreases count,
{
    let all = recovery(session, opened, count);
    let before = recovery(session, opened, count - 1);
    every_tab_is_accounted_for(session, opened, count - 1);
    documents_that_came_back_keep_their_order(opened[i], session.panes[i].active as int, i);
    lemma_any_back(opened[i], session.panes[i].active as int);
    if i < count - 1 {
        panes_come_back_in_their_order(session, opened, count - 1, i);
        if let Some(id) = before.ids[i] {
            let k = choose|k: int|
                0 <= k < before.panes.len() && (#[trigger] before.panes[k]).id == id && Some(
                    before.panes[k],
                ) == back_pane(opened[i], session.panes[i].active as int, i);
            assert(all.panes[k] == before.panes[k]);
        }
    } else if back_pane(opened[i], session.panes[i].active as int, i) is Some {
        assert(all.panes[before.panes.len() as int] == all.panes.last());
    }
}

proof fn lemma_any_back(opened: Seq<Option<u64>>, active: int)
    ensures
        back_items(opened, active).0.len() > 0 <==> exists|k: int|
            0 <= k < opened.len() && #[trigger] opened[k] is Some,
    decreases opened.len(),
{
    if opened.len() > 0 {
        let front = opened.drop_last();
        lemma_any_back(front, active);
        if opened.last() is Some {
            assert(opened[opened.len() - 1] is Some);
        }
        if exists|k: int| 0 <= k < front.len() && #[trigger] front[k] is Some {
            let k = choose|k: int| 0 <= k < front.len() && #[trigger] front[k] is Some;
            assert(opened[k] is Some);
        }
        if exists|k: int| 0 <= k < opened.len() && #[trigger] opened[k] is Some {
            let k = choose|k: int| 0 <= k < opened.len() && #[trigger] opened[k] is Some;
            if k < front.len() {
                assert(front[k] is Some);
            }
        }
    }
}

/// Two sessions have one shape just where they differ in carets and viewports
/// alone: the same layout, the same active pane, and in each pane the same files
/// in the same order with the same one active.
pub proof fn shapes_tell_tabs_and_layout(a: SessionView, b: SessionView)
    ensures
        shape(a) == shape(b) <==> {
            &&& a.version == b.version && a.layout == b.layout && a.active_pane == b.active_pane
            &&& a.panes.len() == b.panes.len()
            &&& forall|i: int|
                0 <= i < a.panes.len() ==> (#[trigger] a.panes[i]).active == b.panes[i].active
                    && a.panes[i].tabs.len() == b.panes[i].tabs.len()
            &&& forall|i: int, k: int|
                0 <= i < a.panes.len() && 0 <= k < a.panes[i].tabs.len() ==> (
                #[trigger] a.panes[i].tabs[k]).path == b.panes[i].tabs[k].path
        },
{
    let alike = {
        &&& a.version == b.version && a.layout == b.layout && a.active_pane == b.active_pane
        &&& a.panes.len() == b.panes.len()
        &&& forall|i: int|
            0 <= i < a.panes.len() ==> (#[trigger] a.panes[i]).active == b.panes[i].active
                && a.panes[i].tabs.len() == b.panes[i].tabs.len()
        &&& forall|i: int, k: int|
            0 <= i < a.panes.len() && 0 <= k < a.panes[i].tabs.len() ==> (
            #[trigger] a.panes[i].tabs[k]).path == b.panes[i].tabs[k].path
    };
    if alike {
        assert forall|i: int| 0 <= i < a.panes.len() implies shape(a).panes[i] == shape(
            b,
        ).panes[i] by {
            assert(a.panes[i].active == b.panes[i].active);
            assert forall|k: int| 0 <= k < a.panes[i].tabs.len() implies shape(
                a,
            ).panes[i].tabs[k] == shape(b).panes[i].tabs[k] by {
                assert(a.panes[i].tabs[k].path == b.panes[i].tabs[k].path);
            }
            assert(shape(a).panes[i].tabs =~= shape(b).panes[i].tabs);
        }
        assert(shape(a).panes =~= shape(b).panes);
    }
    if shape(a) == shape(b) {
        assert(shape(a).panes.len() == a.panes.len() && shape(b).panes.len() == b.panes.len());
        assert forall|i: int| 0 <= i < a.panes.len() implies (#[trigger] a.panes[i]).active
            == b.panes[i].active && a.panes[i].tabs.len() == b.panes[i].tabs.len() by {
            assert(shape(a).panes[i] == shape(b).panes[i]);
            assert(shape(a).panes[i].tabs.len() == a.panes[i].tabs.len());
            assert(shape(b).panes[i].tabs.len() == b.panes[i].tabs.len());
        }
        assert forall|i: int, k: int|
            0 <= i < a.panes.len() && 0 <= k < a.panes[i].tabs.len() implies (
        #[trigger] a.panes[i].tabs[k]).path == b.panes[i].tabs[k].path by {
            assert(shape(a).panes[i] == shape(b).panes[i]);
            assert(shape(a).panes[i].tabs[k].path == a.panes[i].tabs[k].path);
            assert(a.panes[i].tabs.len() == b.panes[i].tabs.len());
            assert(shape(b).panes[i].tabs[k].path == b.panes[i].tabs[k].path);
        }
    }
}

/// The value of a hexadecimal digit.
pub open spec fn digit_value(c: char) -> int {
    if '0' <= c <= '9' {
        c as int - '0' as int
    } else {
        c as int - 'a' as int + 10
    }
}

/// Bytes in hexadecimal digits can be read again: two digits for each, the
/// greater one first.
pub proof fn hexadecimal_digits_tell_the_bytes(bytes: Seq<u8>)
    ensures
        hex_text(bytes).len() == 2 * bytes.len(),
        forall|i: int|
            0 <= i < bytes.len() ==> #[trigger] bytes[i] == 16 * digit_value(hex_text(bytes)[2 * i])
                + digit_value(hex_text(bytes)[2 * i + 1]),
        forall|i: int|
            0 <= i < 2 * bytes.len() ==> '0' <= #[trigger] hex_text(bytes)[i] <= '9' || 'a'
                <= hex_text(bytes)[i] <= 'f',
    decreases bytes.len(),
{
    reveal_strlit("0123456789abcdef");
    if bytes.len() > 0 {
        let front = bytes.drop_last();
        let byte = bytes.last() as int;
        hexadecimal_digits_tell_the_bytes(front);
        let text = hex_text(bytes);
        assert(forall|i: int| 0 <= i < 2 * front.len() ==> text[i] == hex_text(front)[i]);
        let n = front.len() as int;
        assert(text[2 * n] == hex_digit(byte / 16));
        assert(text[2 * n + 1] == hex_digit(byte % 16));
        assert(digit_value(hex_digit(byte / 16)) == byte / 16);
        assert(digit_value(hex_digit(byte % 16)) == byte % 16);
        assert forall|i: int| 0 <= i < bytes.len() implies #[trigger] bytes[i] == 16
            * digit_value(text[2 * i]) + digit_value(text[2 * i + 1]) by {
            if i < front.len() {
                assert(bytes[i] == front[i]);
            }
        }
    }
}

/// How many documents some panes have.
pub open spec fn documents_in(panes: Seq<BackPane>) -> int
    decreases panes.len(),
{
    if panes.len() == 0 {
        0
    } else {
        documents_in(panes.drop_last()) + panes.last().items.len()
    }
}

/// What is told to have come back are the documents of the panes that did.
pub proof fn documents_that_came_back_are_counted(
    session: SessionView,
    opened: Seq<Seq<Option<u64>>>,
    count: int,
)
    requires
        0 <= count <= opened.len(),
    ensures
        recovery(session, opened, count).restored == documents_in(
            recovery(session, opened, count).panes,
        ),
    decreases count,
{
    if count > 0 {
        documents_that_came_back_are_counted(session, opened, count - 1);
        let before = recovery(session, opened, count - 1);
        let active = session.panes[count - 1].active as int;
        if let Some(pane) = back_pane(opened[count - 1], active, count - 1) {
            assert(before.panes.push(pane).drop_last() =~= before.panes);
        }
    }
}

} // verus!

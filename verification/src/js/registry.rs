//! Node ids, listeners and dirty bits.

use crate::dom::kept::{sweep, swept};
use crate::dom::node::{links_ok, opt_seq, Dom, NodePtr};
use crate::js::custom_elements::{empty_registry, CeRegistry, CeView, Handle};
use crate::text::text_eq;
use std::collections::BTreeMap;
use vstd::prelude::*;

verus! {

broadcast use vstd::std_specs::btree::group_btree_axioms;

/// Why the render document has to be built anew.
#[derive(Debug, Clone, Copy, PartialEq, Eq, Structural)]
pub enum SnapshotRebuildReason {
    /// A change could not be carried over to it.
    SyncOperationFailed,
}

/// A listener for events of one type on one node.
#[derive(Debug)]
pub struct Listener {
    pub node_id: u32,
    pub event_type: String,
    pub callback: Handle,
}

/// The view of [`Listener`].
pub struct ListenerView {
    pub node_id: u32,
    pub event_type: Seq<char>,
    pub callback: Handle,
}

impl View for Listener {
    type V = ListenerView;

    open spec fn view(&self) -> ListenerView {
        ListenerView {
            node_id: self.node_id,
            event_type: self.event_type@,
            callback: self.callback,
        }
    }
}

/// The views of a list of listeners.
pub open spec fn listener_views(s: Seq<Listener>) -> Seq<ListenerView> {
    s.map_values(|l: Listener| l@)
}

/// A record of what an observer is told.
#[derive(Debug)]
pub enum ObserverRecord {
    ChildList { target_id: u32, added: Vec<u32>, removed: Vec<u32> },
    Attribute { target_id: u32, name: String },
}

/// The view of [`ObserverRecord`].
pub enum RecordView {
    ChildList { target_id: u32, added: Seq<u32>, removed: Seq<u32> },
    Attribute { target_id: u32, name: Seq<char> },
}

impl View for ObserverRecord {
    type V = RecordView;

    open spec fn view(&self) -> RecordView {
        match self {
            ObserverRecord::ChildList { target_id, added, removed } => RecordView::ChildList {
                target_id: *target_id,
                added: added@,
                removed: removed@,
            },
            ObserverRecord::Attribute { target_id, name } => RecordView::Attribute {
                target_id: *target_id,
                name: name@,
            },
        }
    }
}

/// What script knows of the document.
#[derive(Debug)]
pub struct NodeRegistry {
    nodes: BTreeMap<u32, NodePtr>,
    reverse_nodes: BTreeMap<usize, u32>,
    next_id: u32,
    style_dirty: bool,
    layout_dirty: bool,
    listeners: Vec<Listener>,
    mo_next: u32,
    snapshot_rebuild_reason: Option<SnapshotRebuildReason>,
    document: Option<NodePtr>,
    native_ce_reactions: bool,
    ce_registry: CeRegistry,
}

/// The ids of nodes.
#[verifier::ext_equal]
pub struct Ids {
    pub nodes: Map<u32, NodePtr>,
    pub ids: Map<usize, u32>,
    pub next_id: u32,
}

/// The view of [`NodeRegistry`].
#[verifier::ext_equal]
pub struct RegistryView {
    pub ids: Ids,
    pub style_dirty: bool,
    pub layout_dirty: bool,
    pub listeners: Seq<ListenerView>,
    pub next_observer: u32,
    pub rebuild: Option<SnapshotRebuildReason>,
    pub document: Option<NodePtr>,
    pub native_ce_reactions: bool,
    pub ce: CeView,
}

impl View for NodeRegistry {
    type V = RegistryView;

    closed spec fn view(&self) -> RegistryView {
        RegistryView {
            ids: Ids {
                nodes: self.nodes@,
                ids: self.reverse_nodes@,
                next_id: self.next_id,
            },
            style_dirty: self.style_dirty,
            layout_dirty: self.layout_dirty,
            listeners: listener_views(self.listeners@),
            next_observer: self.mo_next,
            rebuild: self.snapshot_rebuild_reason,
            document: self.document,
            native_ce_reactions: self.native_ce_reactions,
            ce: self.ce_registry@,
        }
    }
}

/// Whether every id names one node and every node has one id, all of them
/// given out before the next one.
pub open spec fn ids_ok(v: Ids) -> bool {
    &&& v.next_id >= 1
    &&& forall|id: u32| #[trigger]
        v.nodes.contains_key(id) ==> 1 <= id < v.next_id && v.ids.contains_key(v.nodes[id])
            && v.ids[v.nodes[id]] == id
    &&& forall|n: usize| #[trigger]
        v.ids.contains_key(n) ==> v.nodes.contains_key(v.ids[n]) && v.nodes[v.ids[n]] == n
}

/// The ids after `n` has been registered: a node keeps the id that it has.
pub open spec fn registered(v: Ids, n: NodePtr) -> Ids {
    if v.ids.contains_key(n) {
        v
    } else {
        Ids {
            nodes: v.nodes.insert(v.next_id, n),
            ids: v.ids.insert(n, v.next_id),
            next_id: (v.next_id + 1) as u32,
        }
    }
}

/// The id of `n` once it is registered.
pub open spec fn id_of(v: Ids, n: NodePtr) -> u32 {
    if v.ids.contains_key(n) {
        v.ids[n]
    } else {
        v.next_id
    }
}

/// The ids after every node of a list has been registered, in order.
pub open spec fn registered_all(v: Ids, list: Seq<NodePtr>) -> Ids
    decreases list.len(),
{
    if list.len() == 0 {
        v
    } else {
        registered(registered_all(v, list.drop_last()), list.last())
    }
}

/// Whether `n` has an id or there is one left for it.
pub open spec fn can_register(v: Ids, n: NodePtr) -> bool {
    v.ids.contains_key(n) || v.next_id < u32::MAX
}

/// Whether every node of a list has an id or there is one left for it.
pub open spec fn can_register_all(v: Ids, list: Seq<NodePtr>) -> bool
    decreases list.len(),
{
    list.len() == 0 || can_register_all(v, list.drop_last()) && can_register(
        registered_all(v, list.drop_last()),
        list.last(),
    )
}

/// How many of the first `len` nodes have no id.
pub open spec fn unnumbered(v: Ids, len: nat) -> nat
    decreases len,
{
    if len == 0 {
        0
    } else {
        unnumbered(v, (len - 1) as nat) + (if v.ids.contains_key((len - 1) as usize) {
            0nat
        } else {
            1nat
        })
    }
}

/// The next id once every one of the first `len` nodes has one.
pub open spec fn next_after(v: Ids, len: nat) -> nat {
    v.next_id as nat + unnumbered(v, len)
}

/// The ids that the nodes of a list get.
pub open spec fn ids_of_all(v: Ids, list: Seq<NodePtr>) -> Seq<u32>
    decreases list.len(),
{
    if list.len() == 0 {
        Seq::empty()
    } else {
        ids_of_all(v, list.drop_last()).push(
            id_of(registered_all(v, list.drop_last()), list.last()),
        )
    }
}

/// The callbacks that listen for an event on a node, in the order in which
/// they were added.
pub open spec fn listening(l: Seq<ListenerView>, node_id: u32, event_type: Seq<char>) -> Seq<Handle>
    decreases l.len(),
{
    if l.len() == 0 {
        Seq::empty()
    } else if l.last().node_id == node_id && l.last().event_type == event_type {
        listening(l.drop_last(), node_id, event_type).push(l.last().callback)
    } else {
        listening(l.drop_last(), node_id, event_type)
    }
}

/// Listeners without those of one callback for an event on a node.
pub open spec fn without_listener(
    l: Seq<ListenerView>,
    node_id: u32,
    event_type: Seq<char>,
    callback: Handle,
) -> Seq<ListenerView>
    decreases l.len(),
{
    if l.len() == 0 {
        Seq::empty()
    } else if l.last() == (ListenerView { node_id, event_type, callback }) {
        without_listener(l.drop_last(), node_id, event_type, callback)
    } else {
        without_listener(l.drop_last(), node_id, event_type, callback).push(l.last())
    }
}

/// What a setting says of native reactions: they are on unless it is `0`,
/// `false` or `off`.
pub open spec fn reactions_on(setting: Option<Seq<char>>) -> bool {
    setting != Some("0"@) && setting != Some("false"@) && setting != Some("off"@)
}

/// Whether native reactions are on, given the setting of the environment.
pub fn native_ce_reactions_default(var: Option<&str>) -> (res: bool)
    ensures
        res == reactions_on(
            match var {
                Some(s) => Some(s@),
                None => None,
            },
        ),
{
    match var {
        Some(s) => !(text_eq(s, "0") || text_eq(s, "false") || text_eq(s, "off")),
        None => true,
    }
}

impl NodeRegistry {
    /// A registry without nodes.
    pub fn new(native_ce_reactions: bool) -> (res: Self)
        ensures
            res@ == (RegistryView {
                ids: Ids { nodes: Map::empty(), ids: Map::empty(), next_id: 1 },
                style_dirty: false,
                layout_dirty: false,
                listeners: Seq::empty(),
                next_observer: 1,
                rebuild: None,
                document: None,
                native_ce_reactions,
                ce: empty_registry(),
            }),
            ids_ok(res@.ids),
            forall|len: nat| #[trigger] next_after(res@.ids, len) == len + 1,
    {
        let res = NodeRegistry {
            nodes: BTreeMap::new(),
            reverse_nodes: BTreeMap::new(),
            next_id: 1,
            style_dirty: false,
            layout_dirty: false,
            listeners: Vec::new(),
            mo_next: 1,
            snapshot_rebuild_reason: None,
            document: None,
            native_ce_reactions,
            ce_registry: CeRegistry::new(),
        };
        proof {
            assert(res@.listeners =~= Seq::<ListenerView>::empty());
            assert forall|len: nat| #[trigger] next_after(res@.ids, len) == len + 1 by {
                lemma_none_numbered(res@.ids, len);
            }
        }
        res
    }

    /// The document, once there is one.
    pub fn document(&self) -> (res: Option<NodePtr>)
        ensures
            res == self@.document,
    {
        self.document
    }

    pub fn set_document(&mut self, document: Option<NodePtr>)
        ensures
            final(self)@ == (RegistryView { document, ..old(self)@ }),
    {
        self.document = document;
    }

    /// Whether mutations enqueue the reactions of custom elements.
    pub fn native_ce_reactions(&self) -> (res: bool)
        ensures
            res == self@.native_ce_reactions,
    {
        self.native_ce_reactions
    }

    pub fn set_native_ce_reactions(&mut self, on: bool)
        ensures
            final(self)@ == (RegistryView { native_ce_reactions: on, ..old(self)@ }),
    {
        self.native_ce_reactions = on;
    }

    /// The registry of custom elements.
    pub fn ce_registry(&self) -> (res: &CeRegistry)
        ensures
            res@ == self@.ce,
    {
        &self.ce_registry
    }

    /// The registry of custom elements for writing.
    pub fn custom_elements(&mut self) -> (res: &mut CeRegistry)
        ensures
            res@ == old(self)@.ce,
            final(self)@ == (RegistryView { ce: final(res)@, ..old(self)@ }),
    {
        &mut self.ce_registry
    }

    /// The id of `node`, which it gets if it has none.
    pub fn register(&mut self, node: NodePtr) -> (id: u32)
        requires
            can_register(old(self)@.ids, node),
        ensures
            id == id_of(old(self)@.ids, node),
            final(self)@ == (RegistryView {
                ids: registered(old(self)@.ids, node),
                ..old(self)@
            }),
    {
        if let Some(existing) = self.reverse_nodes.get(&node) {
            return *existing;
        }
        let id: u32 = self.next_id;
        self.next_id = id + 1;
        let _ = self.nodes.insert(id, node);
        let _ = self.reverse_nodes.insert(node, id);
        assert(self@.ids =~= registered(old(self)@.ids, node));
        id
    }

    /// The ids of the nodes of a list, which they get if they have none.
    pub fn node_ids(&mut self, nodes: &Vec<NodePtr>) -> (res: Vec<u32>)
        requires
            can_register_all(old(self)@.ids, nodes@),
        ensures
            res@ == ids_of_all(old(self)@.ids, nodes@),
            final(self)@ == (RegistryView {
                ids: registered_all(old(self)@.ids, nodes@),
                ..old(self)@
            }),
    {
        let ghost start = self@;
        let mut res: Vec<u32> = Vec::new();
        let mut i: usize = 0;
        while i < nodes.len()
            invariant
                i <= nodes.len(),
                can_register_all(start.ids, nodes@),
                self@ == (RegistryView {
                    ids: registered_all(start.ids, nodes@.take(i as int)),
                    ..start
                }),
                res@ == ids_of_all(start.ids, nodes@.take(i as int)),
            decreases nodes.len() - i,
        {
            proof {
                assert(nodes@.take(i + 1).drop_last() == nodes@.take(i as int));
                assert(nodes@.take(i + 1).last() == nodes@[i as int]);
                lemma_can_register_prefix(start.ids, nodes@, i + 1);
            }
            let id: u32 = self.register(nodes[i]);
            res.push(id);
            i = i + 1;
        }
        assert(nodes@.take(i as int) == nodes@);
        res
    }

    /// The node with an id.
    pub fn lookup(&self, id: u32) -> (res: Option<NodePtr>)
        ensures
            res == self@.ids.nodes.get(id),
    {
        match self.nodes.get(&id) {
            Some(n) => Some(*n),
            None => None,
        }
    }

    /// The id of a node, if it has one.
    pub fn node_id(&self, node: NodePtr) -> (res: Option<u32>)
        ensures
            res == self@.ids.ids.get(node),
    {
        match self.reverse_nodes.get(&node) {
            Some(id) => Some(*id),
            None => None,
        }
    }

    /// The registered nodes in the order in which they got their ids.
    pub fn registered_nodes(&self) -> (res: Vec<NodePtr>)
        ensures
            res@ == nodes_below(self@.ids, self@.ids.next_id as nat),
    {
        let mut res: Vec<NodePtr> = Vec::new();
        let mut id: u32 = 0;
        while id < self.next_id
            invariant
                id <= self.next_id,
                res@ == nodes_below(self@.ids, id as nat),
            decreases self.next_id - id,
        {
            if let Some(n) = self.nodes.get(&id) {
                res.push(*n);
            }
            id = id + 1;
        }
        res
    }

    /// Gives up every node that is kept neither by a registered node, nor by the
    /// document, nor by one of `others`: a node whose parent is among them has no
    /// parent any more.
    pub fn release_unheld(&self, dom: &mut Dom, others: &Vec<NodePtr>)
        requires
            old(dom).wf(),
            links_ok(held(self@, others@), old(dom)@.len()),
        ensures
            final(dom).wf(),
            final(dom)@ == swept(old(dom)@, held(self@, others@)),
    {
        let mut roots = self.registered_nodes();
        if let Some(document) = self.document {
            roots.push(document);
        }
        let mut i: usize = 0;
        let ghost start = roots@;
        assert(start + others@.take(0) =~= start);
        while i < others.len()
            invariant
                i <= others.len(),
                roots@ == start + others@.take(i as int),
            decreases others.len() - i,
        {
            roots.push(others[i]);
            i = i + 1;
            assert(roots@ =~= start + others@.take(i as int));
        }
        assert(roots@ =~= held(self@, others@));
        sweep(dom, &roots);
    }

    /// A fresh id for an observer.
    pub fn alloc_observer_id(&mut self) -> (id: u32)
        requires
            old(self)@.next_observer < u32::MAX,
        ensures
            id == old(self)@.next_observer,
            final(self)@ == (RegistryView {
                next_observer: (old(self)@.next_observer + 1) as u32,
                ..old(self)@
            }),
    {
        let id: u32 = self.mo_next;
        self.mo_next = id + 1;
        id
    }

    /// Adds a listener behind those that there are.
    pub fn add_event_listener(&mut self, node_id: u32, event_type: String, callback: Handle)
        ensures
            final(self)@ == (RegistryView {
                listeners: old(self)@.listeners.push(
                    ListenerView { node_id, event_type: event_type@, callback },
                ),
                ..old(self)@
            }),
    {
        let ghost added = ListenerView { node_id, event_type: event_type@, callback };
        self.listeners.push(Listener { node_id, event_type, callback });
        assert(self@.listeners =~= old(self)@.listeners.push(added));
    }

    /// Removes every listener with the given callback.
    pub fn remove_event_listener(&mut self, node_id: u32, event_type: &str, callback: Handle)
        ensures
            final(self)@ == (RegistryView {
                listeners: without_listener(
                    old(self)@.listeners,
                    node_id,
                    event_type@,
                    callback,
                ),
                ..old(self)@
            }),
    {
        let ghost all = listener_views(self.listeners@);
        let mut kept: Vec<Listener> = Vec::new();
        let mut i: usize = 0;
        proof {
            assert(listener_views(kept@) =~= Seq::<ListenerView>::empty());
        }
        while i < self.listeners.len()
            invariant
                i <= self.listeners.len(),
                all == listener_views(self.listeners@),
                *self == *old(self),
                listener_views(kept@) == without_listener(
                    all.take(i as int),
                    node_id,
                    event_type@,
                    callback,
                ),
            decreases self.listeners.len() - i,
        {
            let l = &self.listeners[i];
            proof {
                assert(all.take(i + 1).drop_last() == all.take(i as int));
                assert(all.take(i + 1).last() == l@);
            }
            let matched = l.node_id == node_id && text_eq(l.event_type.as_str(), event_type)
                && l.callback == callback;
            if !matched {
                let ghost before = kept@;
                kept.push(
                    Listener {
                        node_id: l.node_id,
                        event_type: l.event_type.clone(),
                        callback: l.callback,
                    },
                );
                assert(listener_views(kept@) =~= listener_views(before).push(l@));
            }
            i = i + 1;
        }
        assert(all.take(i as int) == all);
        self.listeners = kept;
    }

    /// The callbacks that listen for an event on a node, in order.
    pub fn get_listeners(&self, node_id: u32, event_type: &str) -> (res: Vec<Handle>)
        ensures
            res@ == listening(self@.listeners, node_id, event_type@),
    {
        let ghost all = listener_views(self.listeners@);
        let mut res: Vec<Handle> = Vec::new();
        let mut i: usize = 0;
        while i < self.listeners.len()
            invariant
                i <= self.listeners.len(),
                all == listener_views(self.listeners@),
                res@ == listening(all.take(i as int), node_id, event_type@),
            decreases self.listeners.len() - i,
        {
            let l = &self.listeners[i];
            proof {
                assert(all.take(i + 1).drop_last() == all.take(i as int));
                assert(all.take(i + 1).last() == l@);
            }
            if l.node_id == node_id && text_eq(l.event_type.as_str(), event_type) {
                res.push(l.callback);
            }
            i = i + 1;
        }
        assert(all.take(i as int) == all);
        res
    }

    /// Asks for the render document to be built anew.
    pub fn schedule_snapshot_rebuild_reason(&mut self, reason: SnapshotRebuildReason)
        ensures
            final(self)@ == (RegistryView { rebuild: Some(reason), ..old(self)@ }),
    {
        self.snapshot_rebuild_reason = Some(reason);
    }

    /// Takes the reason why the render document has to be built anew.
    pub fn take_snapshot_rebuild_reason(&mut self) -> (res: Option<SnapshotRebuildReason>)
        ensures
            res == old(self)@.rebuild,
            final(self)@ == (RegistryView { rebuild: None, ..old(self)@ }),
    {
        let res = self.snapshot_rebuild_reason;
        self.snapshot_rebuild_reason = None;
        res
    }

    /// Whether style or layout is out of date; both are taken as up to date
    /// from now on.
    pub fn take_needs_reflow(&mut self) -> (res: bool)
        ensures
            res == (old(self)@.style_dirty || old(self)@.layout_dirty),
            final(self)@ == (RegistryView {
                style_dirty: false,
                layout_dirty: false,
                ..old(self)@
            }),
    {
        let res = self.style_dirty || self.layout_dirty;
        self.style_dirty = false;
        self.layout_dirty = false;
        res
    }

    /// Whether the renderer has to lay the document out anew. Style and layout
    /// of a rendered document are taken as up to date from now on.
    pub fn needs_layout(&mut self, rendered: bool) -> (res: bool)
        ensures
            res == (rendered && (old(self)@.style_dirty || old(self)@.layout_dirty)),
            final(self)@ == (if rendered {
                RegistryView { style_dirty: false, layout_dirty: false, ..old(self)@ }
            } else {
                old(self)@
            }),
    {
        if !self.has_dirty_bits() || !rendered {
            return false;
        }
        self.take_needs_reflow()
    }

    /// Takes style and layout as up to date.
    pub fn clear_dirty_bits(&mut self)
        ensures
            final(self)@ == (RegistryView {
                style_dirty: false,
                layout_dirty: false,
                ..old(self)@
            }),
    {
        self.style_dirty = false;
        self.layout_dirty = false;
    }

    /// Whether style or layout is out of date.
    pub fn has_dirty_bits(&self) -> (res: bool)
        ensures
            res == (self@.style_dirty || self@.layout_dirty),
    {
        self.style_dirty || self.layout_dirty
    }

    /// Takes style as out of date.
    pub fn mark_style_dirty(&mut self)
        ensures
            final(self)@ == (RegistryView { style_dirty: true, ..old(self)@ }),
    {
        self.style_dirty = true;
    }

    /// Takes layout as out of date.
    pub fn mark_layout_dirty(&mut self)
        ensures
            final(self)@ == (RegistryView { layout_dirty: true, ..old(self)@ }),
    {
        self.layout_dirty = true;
    }
}

/// What is held from outside the tree: the registered nodes, the document, and
/// `others`.
pub open spec fn held(v: RegistryView, others: Seq<NodePtr>) -> Seq<NodePtr> {
    nodes_below(v.ids, v.ids.next_id as nat) + opt_seq(v.document) + others
}

/// The nodes with ids below `k`, in the order of their ids.
pub open spec fn nodes_below(v: Ids, k: nat) -> Seq<NodePtr>
    decreases k,
{
    if k == 0 {
        Seq::empty()
    } else if v.nodes.contains_key((k - 1) as u32) {
        nodes_below(v, (k - 1) as nat).push(v.nodes[(k - 1) as u32])
    } else {
        nodes_below(v, (k - 1) as nat)
    }
}

proof fn lemma_none_numbered(v: Ids, len: nat)
    requires
        v.ids == Map::<usize, u32>::empty(),
    ensures
        unnumbered(v, len) == len,
    decreases len,
{
    if len > 0 {
        lemma_none_numbered(v, (len - 1) as nat);
    }
}

proof fn lemma_can_register_prefix(v: Ids, list: Seq<NodePtr>, k: int)
    requires
        can_register_all(v, list),
        0 <= k <= list.len(),
    ensures
        can_register_all(v, list.take(k)),
    decreases list.len(),
{
    if k == list.len() {
        assert(list.take(k) == list);
    } else {
        lemma_can_register_prefix(v, list.drop_last(), k);
        assert(list.drop_last().take(k) == list.take(k));
    }
}

proof fn lemma_numbering_one(v: Ids, n: NodePtr, len: nat)
    requires
        len <= usize::MAX + 1,
        !v.ids.contains_key(n),
    ensures
        unnumbered(registered(v, n), len) == unnumbered(v, len) - (if n < len {
            1int
        } else {
            0int
        }),
    decreases len,
{
    if len > 0 {
        lemma_numbering_one(v, n, (len - 1) as nat);
    }
}

/// Ids do not run out early: giving one to one of the first `len` nodes leaves
/// enough for the others.
pub proof fn law_registration_wastes_no_ids(v: Ids, n: NodePtr, len: nat)
    requires
        len <= usize::MAX + 1,
        n < len,
        next_after(v, len) <= u32::MAX,
    ensures
        can_register(v, n),
        next_after(registered(v, n), len) == next_after(v, len),
{
    if !v.ids.contains_key(n) {
        lemma_numbering_one(v, n, len);
        lemma_some_unnumbered(v, n, len);
    }
}

proof fn lemma_some_unnumbered(v: Ids, n: NodePtr, len: nat)
    requires
        len <= usize::MAX + 1,
        n < len,
        !v.ids.contains_key(n),
    ensures
        unnumbered(v, len) > 0,
    decreases len,
{
    if n < len - 1 {
        lemma_some_unnumbered(v, n, (len - 1) as nat);
    }
}

/// The same for a list of nodes.
pub proof fn lemma_registering_wastes_no_ids(v: Ids, list: Seq<NodePtr>, len: nat)
    requires
        len <= usize::MAX + 1,
        forall|i: int| 0 <= i < list.len() ==> #[trigger] list[i] < len,
        next_after(v, len) <= u32::MAX,
    ensures
        can_register_all(v, list),
        next_after(registered_all(v, list), len) == next_after(v, len),
    decreases list.len(),
{
    if list.len() > 0 {
        assert forall|i: int| 0 <= i < list.drop_last().len() implies #[trigger] list.drop_last()[i]
            < len by {
            assert(list[i] < len);
        }
        assert(list[list.len() - 1] == list.last());
        lemma_registering_wastes_no_ids(v, list.drop_last(), len);
        law_registration_wastes_no_ids(registered_all(v, list.drop_last()), list.last(), len);
    }
}

/// Registering keeps ids and nodes in step, gives every node one id for good
/// and no two nodes the same.
pub proof fn law_registration_is_one_to_one(v: Ids, n: NodePtr, m: NodePtr)
    requires
        ids_ok(v),
        v.next_id < u32::MAX - 1,
    ensures
        ids_ok(registered(v, n)),
        registered(registered(v, n), n) == registered(v, n),
        id_of(registered(v, n), n) == id_of(v, n),
        n != m ==> id_of(v, n) != id_of(registered(v, n), m),
        forall|id: u32| #[trigger]
            v.nodes.contains_key(id) ==> registered(v, n).nodes.contains_key(id) && registered(
                v,
                n,
            ).nodes[id] == v.nodes[id],
{
    let e = registered(v, n);
    if !v.ids.contains_key(n) {
        assert(!v.nodes.contains_key(v.next_id));
        assert forall|id: u32| #[trigger] e.nodes.contains_key(id) implies 1 <= id < e.next_id
            && e.ids.contains_key(e.nodes[id]) && e.ids[e.nodes[id]] == id by {
            if id != v.next_id {
                assert(v.nodes.contains_key(id));
            }
        }
        assert forall|x: usize| #[trigger] e.ids.contains_key(x) implies e.nodes.contains_key(
            e.ids[x],
        ) && e.nodes[e.ids[x]] == x by {
            if x != n {
                assert(v.ids.contains_key(x));
                assert(v.nodes.contains_key(v.ids[x]));
            }
        }
    }
    if n != m && v.ids.contains_key(m) {
        assert(v.nodes.contains_key(v.ids[m]));
        if v.ids.contains_key(n) {
            assert(v.nodes.contains_key(v.ids[n]));
        }
    }
    if n != m && v.ids.contains_key(n) {
        assert(v.nodes.contains_key(v.ids[n]));
    }
}

/// A listener that is removed listens no more. The others for the same event
/// stay in their order, and those for other nodes or events as they are.
pub proof fn law_removed_listeners_are_silent(
    l: Seq<ListenerView>,
    node_id: u32,
    event_type: Seq<char>,
    callback: Handle,
)
    ensures
        !listening(
            without_listener(l, node_id, event_type, callback),
            node_id,
            event_type,
        ).contains(callback),
        listening(without_listener(l, node_id, event_type, callback), node_id, event_type)
            == listening(l, node_id, event_type).filter(|c: Handle| c != callback),
        forall|other: u32, kind: Seq<char>|
            other != node_id || kind != event_type ==> #[trigger] listening(
                without_listener(l, node_id, event_type, callback),
                other,
                kind,
            ) == listening(l, other, kind),
    decreases l.len(),
{
    reveal(Seq::filter);
    if l.len() > 0 {
        let front = l.drop_last();
        let all = listening(l, node_id, event_type);
        if l.last().node_id == node_id && l.last().event_type == event_type {
            assert(all.drop_last() =~= listening(front, node_id, event_type));
        }
        law_removed_listeners_are_silent(front, node_id, event_type, callback);
        let before = without_listener(front, node_id, event_type, callback);
        let after = without_listener(l, node_id, event_type, callback);
        if l.last() != (ListenerView { node_id, event_type, callback }) {
            assert(after.drop_last() =~= before);
            assert(after.last() == l.last());
            let heard = listening(before, node_id, event_type);
            if l.last().node_id == node_id && l.last().event_type == event_type {
                let all = heard.push(l.last().callback);
                if all.contains(callback) {
                    let i = choose|i: int| 0 <= i < all.len() && all[i] == callback;
                    if i < heard.len() {
                        assert(heard[i] == callback);
                        assert(heard.contains(callback));
                    }
                }
            }
        }
        assert forall|other: u32, kind: Seq<char>|
            other != node_id || kind != event_type implies #[trigger] listening(
            after,
            other,
            kind,
        ) == listening(l, other, kind) by {
            assert(listening(before, other, kind) == listening(front, other, kind));
        }
    }
}

} // verus!

//! Upgrading custom elements and delivering their reactions.
//!
//! The script engine runs constructors and callbacks. What it has to run, and
//! what follows from the outcome, is decided here.

use crate::dom::attributes::{in_order, Pair};
use crate::dom::node::{custom_defined, ends_within, finite_from, followed, Dom, DomView, Node,
    NodePtr, NodeView, Reach};
use crate::js::custom_elements::{enqueued, latest, observes, pending, reaction_views, state_of,
    text_view, CeDefinition, CeRegistry, CeState, CeView, DefId, FormReaction, Handle, Reaction,
    ReactionView};
use crate::js::element_names::{is_custom_name, is_valid_custom_element_name};
use crate::js::registry::{can_register, id_of, law_registration_wastes_no_ids, next_after,
    registered, NodeRegistry, RegistryView};
use vstd::prelude::*;

verus! {

/// What the script engine does to deliver a reaction.
#[derive(Debug)]
pub enum Invocation {
    /// Calls the connect trampoline of the script shim on the element.
    Trampoline,
    /// Calls a function on the element.
    Callback { callback: Handle, args: Vec<Handle> },
    /// Calls the function for insertion on the element's controller, and where
    /// there is none, the trampoline if it is there.
    Controller { then_trampoline: bool },
    /// Calls a function on the element with name, values and no namespace.
    AttributeChanged {
        callback: Handle,
        name: String,
        old_value: Option<String>,
        new_value: Option<String>,
    },
    /// Calls a function on the element with two documents.
    Adopted { callback: Handle, old_document: u32, new_document: u32 },
    /// Runs the constructor of a definition on the element.
    Upgrade { definition: DefId, is_connected: bool },
    /// Calls a function on the element with what a form tells it.
    Form { callback: Handle, payload: FormReaction },
}

/// Whether an invocation is the way to deliver a reaction.
pub open spec fn delivers(inv: Invocation, r: ReactionView, has_trampoline: bool) -> bool {
    match r {
        ReactionView::Callback { callback, args, native_connect } => if native_connect
            && has_trampoline {
            inv is Trampoline
        } else {
            inv matches Invocation::Callback { callback: c, args: a } && c == callback && a@ == args
        },
        ReactionView::DynamicConnected => inv == (Invocation::Controller {
            then_trampoline: has_trampoline,
        }),
        ReactionView::AttributeChanged { callback, name, old_value, new_value } => {
            inv matches Invocation::AttributeChanged {
                callback: c,
                name: n,
                old_value: o,
                new_value: w,
            } && c == callback && n@ == name && text_view(o) == old_value && text_view(w)
                == new_value
        },
        ReactionView::Adopted { callback, old_document, new_document } => inv == (
        Invocation::Adopted { callback, old_document, new_document }),
        ReactionView::Upgrade { definition, is_connected } => inv == (Invocation::Upgrade {
            definition,
            is_connected,
        }),
        ReactionView::Form { callback, payload } => inv == (Invocation::Form {
            callback,
            payload,
        }),
    }
}

/// How a reaction is delivered, given whether the shim's trampoline is there.
pub fn invocation_of(reaction: Reaction, has_trampoline: bool) -> (res: Invocation)
    ensures
        delivers(res, reaction@, has_trampoline),
{
    match reaction {
        Reaction::Callback { callback, args, native_connect } => {
            if native_connect && has_trampoline {
                Invocation::Trampoline
            } else {
                Invocation::Callback { callback, args }
            }
        },
        Reaction::DynamicConnected => Invocation::Controller { then_trampoline: has_trampoline },
        Reaction::AttributeChanged { callback, name, old_value, new_value } =>
            Invocation::AttributeChanged { callback, name, old_value, new_value },
        Reaction::Adopted { callback, old_document, new_document } => Invocation::Adopted {
            callback,
            old_document,
            new_document,
        },
        Reaction::Upgrade { definition, is_connected } => Invocation::Upgrade {
            definition,
            is_connected,
        },
        Reaction::Form { callback, payload } => Invocation::Form { callback, payload },
    }
}

/// How often a drain looks at the backup queue.
pub const MAX_DRAIN_ROUNDS: u32 = 100;

/// The progress of a drain of the backup queue.
#[derive(Debug, Clone, Copy)]
pub struct Drain {
    pub rounds: u32,
    pub drained_any: bool,
}

/// Whether a drain goes into another round.
pub open spec fn drains_on(s: Drain, v: CeView) -> bool {
    s.rounds < MAX_DRAIN_ROUNDS && v.backup.len() > 0
}

impl Drain {
    /// A drain before its first round.
    pub fn new() -> (res: Self)
        ensures
            res == (Drain { rounds: 0, drained_any: false }),
    {
        Drain { rounds: 0, drained_any: false }
    }

    /// The elements of the next round. There is one as long as reactions have
    /// enqueued further elements and the limit is not reached.
    pub fn next_round(&mut self, ce: &mut CeRegistry) -> (res: Option<Vec<u32>>)
        ensures
            drains_on(*old(self), old(ce)@) ==> {
                &&& res matches Some(queue) && queue@ == old(ce)@.backup
                &&& final(ce)@ == (CeView { backup: Seq::empty(), ..old(ce)@ })
                &&& *final(self) == (Drain {
                    rounds: (old(self).rounds + 1) as u32,
                    drained_any: true,
                })
            },
            !drains_on(*old(self), old(ce)@) ==> {
                &&& res is None
                &&& final(ce)@ == old(ce)@
                &&& *final(self) == *old(self)
            },
    {
        if self.rounds >= MAX_DRAIN_ROUNDS {
            return None;
        }
        let queue = ce.take_backup_queue();
        if queue.len() == 0 {
            assert(old(ce)@.backup =~= Seq::<u32>::empty());
            return None;
        }
        self.rounds = self.rounds + 1;
        self.drained_any = true;
        Some(queue)
    }
}

/// The reactions that an element gets when its turn comes. They are dropped
/// where the element has no script object to deliver them to.
pub fn reactions_for_turn(ce: &mut CeRegistry, node_id: u32, has_wrapper: bool) -> (res: Vec<Reaction>)
    ensures
        final(ce)@ == (CeView { queues: old(ce)@.queues.remove(node_id), ..old(ce)@ }),
        reaction_views(res@) == (if has_wrapper {
            pending(old(ce)@, node_id)
        } else {
            Seq::empty()
        }),
{
    let none: Vec<Reaction> = Vec::new();
    assert(reaction_views(none@) =~= Seq::<ReactionView>::empty());
    match ce.take_reactions(node_id) {
        Some(reactions) => if has_wrapper {
            reactions
        } else {
            none
        },
        None => none,
    }
}

/// The registry with an element in a state.
pub open spec fn with_state(v: RegistryView, node_id: u32, state: CeState) -> RegistryView {
    RegistryView { ce: CeView { states: v.ce.states.insert(node_id, state), ..v.ce }, ..v }
}

/// Starts the upgrade of an element: it is marked as being upgraded, with the
/// definition. Returns the element, or nothing where there is none.
pub fn begin_upgrade(registry: &mut NodeRegistry, dom: &mut Dom, node_id: u32, definition: DefId) -> (res:
    Option<NodePtr>)
    requires
        old(dom).wf(),
        old(registry)@.ids.nodes.contains_key(node_id) ==> old(registry)@.ids.nodes[node_id] < old(
            dom,
        )@.len(),
    ensures
        final(dom).wf(),
        res == old(registry)@.ids.nodes.get(node_id),
        match res {
            Some(n) => {
                &&& final(registry)@ == (RegistryView {
                    ce: CeView {
                        states: old(registry)@.ce.states.insert(node_id, CeState::Precustomized),
                        element_definitions: old(registry)@.ce.element_definitions.insert(
                            node_id,
                            definition,
                        ),
                        ..old(registry)@.ce
                    },
                    ..old(registry)@
                })
                &&& final(dom)@ == custom_defined(old(dom)@, n, true)
            },
            None => final(registry)@ == old(registry)@ && final(dom)@ == old(dom)@,
        },
{
    let node: NodePtr = match registry.lookup(node_id) {
        Some(n) => n,
        None => {
            return None;
        },
    };
    let ce = registry.custom_elements();
    ce.set_element_state_on(dom, node, node_id, CeState::Precustomized);
    ce.set_definition_for_element(node_id, definition);
    Some(node)
}

/// The attribute callbacks that follow an upgrade: one for each observed
/// attribute that the element has, in name order.
pub open spec fn upgrade_attributes(d: CeDefinition, pairs: Seq<Pair>) -> Seq<ReactionView>
    decreases pairs.len(),
{
    if pairs.len() == 0 {
        Seq::empty()
    } else {
        let before = upgrade_attributes(d, pairs.drop_last());
        let (name, value) = pairs.last();
        if observes(d, name) && d.attribute_changed is Some {
            before.push(
                ReactionView::AttributeChanged {
                    callback: d.attribute_changed->0,
                    name,
                    old_value: None,
                    new_value: Some(value),
                },
            )
        } else {
            before
        }
    }
}

/// The callback for insertion.
pub open spec fn connect_reaction(d: CeDefinition) -> ReactionView {
    match d.connected {
        Some(callback) => ReactionView::Callback {
            callback,
            args: Seq::empty(),
            native_connect: true,
        },
        None => ReactionView::DynamicConnected,
    }
}

/// The attributes of a node in name order.
pub open spec fn attributes_in_order(n: NodeView) -> Seq<Pair> {
    match n {
        NodeView::Element(el) => in_order(el.attributes),
        _ => Seq::empty(),
    }
}

/// The reactions that follow the constructor: attributes first, then insertion
/// if the element was connected.
pub open spec fn upgrade_reactions(d: CeDefinition, n: NodeView, is_connected: bool) -> Seq<
    ReactionView,
> {
    let attributes = upgrade_attributes(d, attributes_in_order(n));
    if is_connected {
        attributes.push(connect_reaction(d))
    } else {
        attributes
    }
}

/// The constructors that are running once that of an element has started. The
/// script shim may have constructed the element already; then none starts.
pub open spec fn constructing(running: Seq<u32>, node_id: u32, already_upgraded: bool) -> Seq<u32> {
    if already_upgraded {
        running
    } else {
        running.push(node_id)
    }
}

/// Whether the constructor is to be called on an element whose upgrade was
/// started. It then adopts the element from the construction stack.
pub fn begin_construction(registry: &mut NodeRegistry, node_id: u32, already_upgraded: bool) -> (res: bool)
    ensures
        res == !already_upgraded,
        final(registry)@ == (RegistryView {
            ce: CeView {
                construction: constructing(
                    old(registry)@.ce.construction,
                    node_id,
                    already_upgraded,
                ),
                ..old(registry)@.ce
            },
            ..old(registry)@
        }),
{
    if !already_upgraded {
        registry.custom_elements().push_construction(node_id);
    }
    !already_upgraded
}

/// The constructors that are running once one has ended, if one was called.
pub open spec fn constructed_away(running: Seq<u32>, called: bool) -> Seq<u32> {
    if called && running.len() > 0 {
        running.drop_last()
    } else {
        running
    }
}

/// The registry after a constructor has ended, if one was called.
pub open spec fn after_construction(v: RegistryView, called: bool) -> RegistryView {
    RegistryView {
        ce: CeView { construction: constructed_away(v.ce.construction, called), ..v.ce },
        ..v
    }
}

/// Whether an upgrade succeeds: the constructor, if it was called, ran to its
/// end and returned the element itself.
pub open spec fn upgrade_succeeds(constructed: Option<bool>) -> bool {
    constructed != Some(false)
}

/// Ends the upgrade of an element. `constructed` says whether the constructor
/// ran to its end and returned that very element, where it was called. Returns
/// the reactions to be delivered at once, in order.
pub fn finish_upgrade(
    registry: &mut NodeRegistry,
    dom: &mut Dom,
    node: NodePtr,
    node_id: u32,
    definition: DefId,
    is_connected: bool,
    constructed: Option<bool>,
) -> (res: Vec<Reaction>)
    requires
        old(dom).wf(),
        node < old(dom)@.len(),
        definition < old(registry)@.ce.definitions.len(),
    ensures
        final(dom).wf(),
        final(registry)@ == with_state(
            after_construction(old(registry)@, constructed is Some),
            node_id,
            if upgrade_succeeds(constructed) {
                CeState::Custom
            } else {
                CeState::Failed
            },
        ),
        final(dom)@ == custom_defined(old(dom)@, node, upgrade_succeeds(constructed)),
        reaction_views(res@) == (if upgrade_succeeds(constructed) {
            upgrade_reactions(
                old(registry)@.ce.definitions[definition as int],
                old(dom)@[node as int],
                is_connected,
            )
        } else {
            Seq::empty()
        }),
{
    let mut out: Vec<Reaction> = Vec::new();
    assert(reaction_views(out@) =~= Seq::<ReactionView>::empty());
    if constructed.is_some() {
        let _ = registry.custom_elements().pop_construction();
    }
    let succeeded = match constructed {
        Some(succeeded) => succeeded,
        None => true,
    };
    if !succeeded {
        registry.custom_elements().set_element_state_on(dom, node, node_id, CeState::Failed);
        return out;
    }
    let ghost was = dom@[node as int];
    registry.custom_elements().set_element_state_on(dom, node, node_id, CeState::Custom);
    let entries: Vec<(String, String)> = match dom.node(node) {
        Node::Element(el) => el.attributes.entries(),
        _ => Vec::new(),
    };
    let ghost pairs = attributes_in_order(was);
    let def = registry.ce_registry().definition(definition);
    proof {
        assert(entries@.map_values(|e: (String, String)| (e.0@, e.1@)) =~= pairs);
        assert(reaction_views(out@) =~= upgrade_attributes(*def, pairs.take(0)));
    }
    let mut i: usize = 0;
    while i < entries.len()
        invariant
            i <= entries.len(),
            entries@.map_values(|e: (String, String)| (e.0@, e.1@)) == pairs,
            reaction_views(out@) == upgrade_attributes(*def, pairs.take(i as int)),
        decreases entries.len() - i,
    {
        proof {
            let mapped = entries@.map_values(|e: (String, String)| (e.0@, e.1@));
            assert(mapped[i as int] == pairs[i as int]);
            assert(pairs.take(i + 1).drop_last() == pairs.take(i as int));
            assert(pairs.take(i + 1).last() == pairs[i as int]);
        }
        let ghost before = out@;
        if def.is_observed(entries[i].0.as_str()) {
            if let Some(callback) = def.attribute_changed {
                out.push(
                    Reaction::AttributeChanged {
                        callback,
                        name: entries[i].0.clone(),
                        old_value: None,
                        new_value: Some(entries[i].1.clone()),
                    },
                );
                assert(reaction_views(out@) =~= reaction_views(before).push(out@.last()@));
            }
        }
        i = i + 1;
    }
    assert(pairs.take(i as int) == pairs);
    if is_connected {
        let ghost before = out@;
        match def.connected {
            Some(callback) => {
                let args: Vec<Handle> = Vec::new();
                assert(args@ =~= Seq::<Handle>::empty());
                out.push(Reaction::Callback { callback, args, native_connect: true });
            },
            None => {
                out.push(Reaction::DynamicConnected);
            },
        }
        assert(reaction_views(out@) =~= reaction_views(before).push(connect_reaction(*def)));
    }
    out
}

/// Whether an element is upgraded when asked: its name is valid and defined,
/// and it has not been upgraded, nor failed to be.
pub open spec fn can_upgrade(v: RegistryView, n: NodeView) -> bool {
    n matches NodeView::Element(el) && is_custom_name(el.tag_name) && latest(
        v.ce.definitions,
        el.tag_name,
    ) is Some
}

/// The registry after an upgrade was asked for.
pub open spec fn upgrade_tried(v: RegistryView, d: DomView, n: NodePtr, is_connected: bool) -> RegistryView {
    if can_upgrade(v, d[n as int]) {
        let e = RegistryView { ids: registered(v.ids, n), ..v };
        if state_of(v.ce, id_of(v.ids, n)) is Undefined {
            RegistryView {
                ce: enqueued(
                    v.ce,
                    id_of(v.ids, n),
                    ReactionView::Upgrade {
                        definition: latest(
                            v.ce.definitions,
                            d[n as int]->Element_0.tag_name,
                        )->0 as DefId,
                        is_connected,
                    },
                ),
                ..e
            }
        } else {
            e
        }
    } else {
        v
    }
}

/// Whether an upgrade that was asked for was enqueued.
pub open spec fn upgrade_starts(v: RegistryView, d: DomView, n: NodePtr) -> bool {
    can_upgrade(v, d[n as int]) && state_of(v.ce, id_of(v.ids, n)) is Undefined
}

/// Enqueues the upgrade of `node` if it can be upgraded, and says whether it
/// did. The callbacks that follow the constructor are enqueued after it, not
/// here.
pub fn try_upgrade_element(
    registry: &mut NodeRegistry,
    dom: &Dom,
    node: NodePtr,
    is_connected: bool,
) -> (res: bool)
    requires
        node < dom@.len(),
        can_register(old(registry)@.ids, node),
    ensures
        res == upgrade_starts(old(registry)@, dom@, node),
        final(registry)@ == upgrade_tried(old(registry)@, dom@, node, is_connected),
{
    let tag = match dom.node(node) {
        Node::Element(el) => el.tag_name.as_str(),
        _ => {
            return false;
        },
    };
    if !is_valid_custom_element_name(tag) {
        return false;
    }
    let definition: DefId = match registry.ce_registry().lookup(tag) {
        Some(id) => id,
        None => {
            return false;
        },
    };
    let node_id: u32 = registry.register(node);
    let undefined = match registry.ce_registry().element_state(node_id) {
        CeState::Undefined => true,
        _ => false,
    };
    if !undefined {
        return false;
    }
    registry.custom_elements().enqueue_upgrade(node_id, definition, is_connected);
    true
}

/// The elements at and below `n`, each before what is below it, later children
/// before earlier ones.
pub open spec fn adoption_order(d: DomView, n: NodePtr, fuel: nat) -> Seq<NodePtr>
    decreases fuel, 1nat, 0nat,
{
    match d[n as int] {
        NodeView::Element(el) => seq![n] + adoption_order_all(d, el.children, fuel),
        _ => Seq::empty(),
    }
}

/// The same for a list of nodes, from its end.
pub open spec fn adoption_order_all(d: DomView, kids: Seq<NodePtr>, fuel: nat) -> Seq<NodePtr>
    decreases fuel, 0nat, kids.len(),
{
    if kids.len() == 0 || fuel == 0 {
        Seq::empty()
    } else {
        adoption_order(d, kids.last(), (fuel - 1) as nat) + adoption_order_all(
            d,
            kids.drop_last(),
            fuel,
        )
    }
}

/// The registry after one element has changed its document.
pub open spec fn adoption_step(
    v: RegistryView,
    d: DomView,
    n: NodePtr,
    old_document: u32,
    new_document: u32,
) -> RegistryView {
    let e = RegistryView { ids: registered(v.ids, n), ..v };
    let id = id_of(v.ids, n);
    let found = latest(v.ce.definitions, d[n as int]->Element_0.tag_name);
    if state_of(v.ce, id) is Custom && found is Some
        && v.ce.definitions[found->0].adopted is Some {
        RegistryView {
            ce: enqueued(
                v.ce,
                id,
                ReactionView::Adopted {
                    callback: v.ce.definitions[found->0].adopted->0,
                    old_document,
                    new_document,
                },
            ),
            ..e
        }
    } else {
        e
    }
}

/// The registry after every element of a list has changed its document.
pub open spec fn adoption_steps(
    v: RegistryView,
    d: DomView,
    list: Seq<NodePtr>,
    old_document: u32,
    new_document: u32,
) -> RegistryView
    decreases list.len(),
{
    if list.len() == 0 {
        v
    } else {
        adoption_step(
            adoption_steps(v, d, list.drop_last(), old_document, new_document),
            d,
            list.last(),
            old_document,
            new_document,
        )
    }
}

fn adoption_list(dom: &Dom, node: NodePtr, out: &mut Vec<NodePtr>, Ghost(fuel): Ghost<nat>)
    requires
        dom.wf(),
        ends_within(dom@, node, Reach::ElementChildren, fuel),
    ensures
        final(out)@ == old(out)@ + adoption_order(dom@, node, fuel),
        forall|i: int|
            old(out)@.len() <= i < final(out)@.len() ==> (#[trigger] final(out)@[i]) < dom@.len()
                && dom@[final(out)@[i] as int] is Element,
    decreases fuel,
{
    let ghost begin = out@;
    match dom.node(node) {
        Node::Element(el) => {
            out.push(node);
            assert(out@ =~= begin + seq![node]);
            let kids = &el.children;
            let mut i: usize = kids.len();
            proof {
                assert(kids@.skip(i as int).len() == 0);
                assert(kids@.take(i as int) == kids@);
                assert(out@ + adoption_order_all(dom@, kids@.take(i as int), fuel) =~= begin + (
                seq![node] + adoption_order_all(dom@, kids@, fuel)));
            }
            while i > 0
                invariant
                    i <= kids.len(),
                    dom.wf(),
                    node < dom@.len(),
                    kids@ == el.children@,
                    NodeView::Element(el@) == dom@[node as int],
                    ends_within(dom@, node, Reach::ElementChildren, fuel),
                    begin.len() <= out@.len(),
                    forall|j: int|
                        begin.len() <= j < out@.len() ==> (#[trigger] out@[j]) < dom@.len()
                            && dom@[out@[j] as int] is Element,
                    out@ + adoption_order_all(dom@, kids@.take(i as int), fuel) == begin
                        + adoption_order(dom@, node, fuel),
                decreases i,
            {
                let ghost mid = out@;
                let ghost front = kids@.take(i as int);
                proof {
                    assert(front.drop_last() == kids@.take(i - 1));
                    assert(front.last() == kids@[i - 1]);
                    assert(followed(dom@[node as int], Reach::ElementChildren)[i - 1] == kids@[i
                        - 1]);
                }
                adoption_list(dom, kids[i - 1], out, Ghost((fuel - 1) as nat));
                proof {
                    let a = adoption_order(dom@, kids@[i - 1], (fuel - 1) as nat);
                    let b = adoption_order_all(dom@, kids@.take(i - 1), fuel);
                    assert(mid + (a + b) =~= (mid + a) + b);
                    assert forall|j: int| begin.len() <= j < out@.len() implies (
                    #[trigger] out@[j]) < dom@.len() && dom@[out@[j] as int] is Element by {
                        if j < mid.len() {
                            assert(out@[j] == mid[j]);
                        }
                    }
                }
                i = i - 1;
            }
            proof {
                assert(out@ + adoption_order_all(dom@, kids@.take(0), fuel) =~= out@);
            }
        },
        _ => {
            assert(out@ =~= begin + adoption_order(dom@, node, fuel));
        },
    }
}

/// Enqueues the callback for a change of document for every upgraded element
/// at and below `root`.
pub fn enqueue_adopted_reactions(
    registry: &mut NodeRegistry,
    dom: &Dom,
    root: NodePtr,
    old_document: u32,
    new_document: u32,
)
    requires
        dom.wf(),
        finite_from(dom@, root, Reach::ElementChildren),
        next_after(old(registry)@.ids, dom@.len()) <= u32::MAX,
    ensures
        final(registry)@ == (if old_document == new_document {
            old(registry)@
        } else {
            adoption_steps(
                old(registry)@,
                dom@,
                adoption_order(dom@, root, dom@.len()),
                old_document,
                new_document,
            )
        }),
{
    if old_document == new_document {
        return ;
    }
    let mut list: Vec<NodePtr> = Vec::new();
    adoption_list(dom, root, &mut list, Ghost(dom@.len()));
    assert(list@ =~= adoption_order(dom@, root, dom@.len()));
    let ghost start = registry@;
    proof {
        dom.lemma_size();
    }
    let mut i: usize = 0;
    while i < list.len()
        invariant
            i <= list.len(),
            dom@.len() <= usize::MAX,
            next_after(registry@.ids, dom@.len()) <= u32::MAX,
            forall|j: int|
                0 <= j < list@.len() ==> (#[trigger] list@[j]) < dom@.len()
                    && dom@[list@[j] as int] is Element,
            registry@ == adoption_steps(
                start,
                dom@,
                list@.take(i as int),
                old_document,
                new_document,
            ),
        decreases list.len() - i,
    {
        proof {
            assert(list@.take(i + 1).drop_last() == list@.take(i as int));
            assert(list@.take(i + 1).last() == list@[i as int]);
            law_registration_wastes_no_ids(registry@.ids, list@[i as int], dom@.len());
        }
        let node: NodePtr = list[i];
        let node_id: u32 = registry.register(node);
        if let Node::Element(el) = dom.node(node) {
            let custom = match registry.ce_registry().element_state(node_id) {
                CeState::Custom => true,
                _ => false,
            };
            if custom {
                let found = registry.ce_registry().lookup(el.tag_name.as_str());
                if let Some(def) = found {
                    let callback = registry.ce_registry().definition(def).adopted;
                    if let Some(callback) = callback {
                        registry.custom_elements().enqueue_adopted(
                            node_id,
                            callback,
                            old_document,
                            new_document,
                        );
                    }
                }
            }
        }
        i = i + 1;
    }
    assert(list@.take(i as int) == list@);
}

/// An upgrade leaves the construction stack as it found it.
pub proof fn law_upgrades_balance_the_construction_stack(
    running: Seq<u32>,
    node_id: u32,
    already_upgraded: bool,
)
    ensures
        constructed_away(constructing(running, node_id, already_upgraded), !already_upgraded)
            == running,
{
}

} // verus!

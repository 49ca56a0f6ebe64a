//! The registry of custom elements and the queues of their reactions.
//!
//! Script functions, values and promise resolvers are named by handles that
//! the script engine gives out; two handles are equal exactly when they name
//! the same thing. A definition is named by its place in the registry, which
//! it keeps for good, so that an element stays with the definition that it was
//! upgraded with when its name is defined anew.

use crate::dom::node::{custom_defined, set_custom_element_defined, Dom, NodePtr};
use crate::js::element_names::{is_custom_name, is_valid_custom_element_name};
use crate::text::text_eq;
use std::collections::BTreeMap;
use vstd::prelude::*;

verus! {

broadcast use vstd::std_specs::btree::group_btree_axioms;

/// Names a function, value or resolver of the script engine.
pub type Handle = u32;

/// Names a definition.
pub type DefId = usize;

/// The state of a custom element.
#[derive(Debug, Clone, Copy, PartialEq, Eq, Structural)]
pub enum CeState {
    /// No definition yet, but the name is a valid custom element name.
    Undefined,
    /// The name can never be customized.
    Uncustomized,
    /// Upgrade has started, and the constructor has not finished.
    Precustomized,
    /// Fully upgraded.
    Custom,
    /// The constructor threw, or produced another element.
    Failed,
}

/// Why a definition was rejected.
#[derive(Debug, Clone, Copy, PartialEq, Eq, Structural)]
pub enum DefineError {
    /// The name is not a valid custom element name.
    InvalidName,
    /// The name is already defined.
    NameInUse,
    /// The constructor is already registered under another name.
    ConstructorInUse,
    /// Another definition is still being made.
    DefinitionRunning,
}

/// The name of the exception that a rejection raises.
pub open spec fn exception_of(e: DefineError) -> Seq<char> {
    if e is InvalidName {
        "SyntaxError"@
    } else {
        "NotSupportedError"@
    }
}

/// The message of the exception that a rejection raises.
pub open spec fn message_of(e: DefineError, name: Seq<char>) -> Seq<char> {
    match e {
        DefineError::InvalidName => "'"@ + name + "' is not a valid custom element name"@,
        DefineError::NameInUse => "the name '"@ + name + "' has already been defined"@,
        DefineError::ConstructorInUse => "this constructor has already been registered"@,
        DefineError::DefinitionRunning => "another custom element is being defined"@,
    }
}

impl DefineError {
    /// The name of the exception that the rejection raises.
    pub fn exception_name(self) -> (res: &'static str)
        ensures
            res@ == exception_of(self),
    {
        match self {
            DefineError::InvalidName => "SyntaxError",
            DefineError::NameInUse => "NotSupportedError",
            DefineError::ConstructorInUse => "NotSupportedError",
            DefineError::DefinitionRunning => "NotSupportedError",
        }
    }

    /// The message of the exception that the rejection raises.
    pub fn message(self, name: &str) -> (res: String)
        ensures
            res@ == message_of(self, name@),
    {
        match self {
            DefineError::InvalidName => {
                let mut s = "'".to_owned();
                s.push_str(name);
                s.push_str("' is not a valid custom element name");
                s
            },
            DefineError::NameInUse => {
                let mut s = "the name '".to_owned();
                s.push_str(name);
                s.push_str("' has already been defined");
                s
            },
            DefineError::ConstructorInUse => "this constructor has already been registered"
                .to_owned(),
            DefineError::DefinitionRunning => "another custom element is being defined".to_owned(),
        }
    }
}

/// A definition of a custom element.
#[derive(Debug)]
pub struct CeDefinition {
    pub name: String,
    pub constructor: Handle,
    pub connected: Option<Handle>,
    pub disconnected: Option<Handle>,
    pub adopted: Option<Handle>,
    pub attribute_changed: Option<Handle>,
    pub observed_attributes: Vec<String>,
    /// Whether the element takes part in forms.
    pub form_associated: bool,
    pub form_associated_callback: Option<Handle>,
    pub form_disabled_callback: Option<Handle>,
    pub form_reset_callback: Option<Handle>,
    pub form_state_restore_callback: Option<Handle>,
    /// Whether the definition is a fallback of the engine, which page script
    /// may replace.
    pub provisional: bool,
}

/// Whether a definition observes an attribute.
pub open spec fn observes(d: CeDefinition, name: Seq<char>) -> bool {
    exists|i: int| 0 <= i < d.observed_attributes@.len() && (#[trigger] d.observed_attributes@[i])@
        == name
}

impl CeDefinition {
    /// Whether the definition observes an attribute.
    pub fn is_observed(&self, name: &str) -> (res: bool)
        ensures
            res == observes(*self, name@),
    {
        let mut i: usize = 0;
        while i < self.observed_attributes.len()
            invariant
                i <= self.observed_attributes.len(),
                forall|j: int|
                    0 <= j < i ==> (#[trigger] self.observed_attributes@[j])@ != name@,
            decreases self.observed_attributes.len() - i,
        {
            if text_eq(self.observed_attributes[i].as_str(), name) {
                assert(self.observed_attributes@[i as int]@ == name@);
                return true;
            }
            i = i + 1;
        }
        false
    }
}

/// A callback of a form-associated element, with what it is told.
#[derive(Debug, Clone, Copy, PartialEq, Eq, Structural)]
pub enum FormReaction {
    /// The element got a form owner, or lost it.
    Associated { form: Option<u32> },
    /// The element was disabled or enabled.
    Disabled { disabled: bool },
    /// The form was reset.
    Reset,
}

/// Something that a custom element is still to be told.
#[derive(Debug)]
pub enum Reaction {
    /// A callback without further arguments than the given ones.
    /// `native_connect` marks the one for insertion, which goes through the
    /// trampoline of the script shim where there is one.
    Callback { callback: Handle, args: Vec<Handle>, native_connect: bool },
    /// Insertion of an element whose definition has no callback for it: one
    /// may be found on a controller of the element.
    DynamicConnected,
    AttributeChanged {
        callback: Handle,
        name: String,
        old_value: Option<String>,
        new_value: Option<String>,
    },
    Adopted { callback: Handle, old_document: u32, new_document: u32 },
    /// The constructor of a definition has yet to run. `is_connected` says
    /// whether the element was connected when the upgrade was asked for.
    Upgrade { definition: DefId, is_connected: bool },
    Form { callback: Handle, payload: FormReaction },
}

/// The view of [`Reaction`].
pub enum ReactionView {
    Callback { callback: Handle, args: Seq<Handle>, native_connect: bool },
    DynamicConnected,
    AttributeChanged {
        callback: Handle,
        name: Seq<char>,
        old_value: Option<Seq<char>>,
        new_value: Option<Seq<char>>,
    },
    Adopted { callback: Handle, old_document: u32, new_document: u32 },
    Upgrade { definition: DefId, is_connected: bool },
    Form { callback: Handle, payload: FormReaction },
}

/// The view of a string that may be absent.
pub open spec fn text_view(s: Option<String>) -> Option<Seq<char>> {
    match s {
        Some(t) => Some(t@),
        None => None,
    }
}

impl View for Reaction {
    type V = ReactionView;

    open spec fn view(&self) -> ReactionView {
        match self {
            Reaction::Callback { callback, args, native_connect } => ReactionView::Callback {
                callback: *callback,
                args: args@,
                native_connect: *native_connect,
            },
            Reaction::DynamicConnected => ReactionView::DynamicConnected,
            Reaction::AttributeChanged { callback, name, old_value, new_value } =>
                ReactionView::AttributeChanged {
                callback: *callback,
                name: name@,
                old_value: text_view(*old_value),
                new_value: text_view(*new_value),
            },
            Reaction::Adopted { callback, old_document, new_document } => ReactionView::Adopted {
                callback: *callback,
                old_document: *old_document,
                new_document: *new_document,
            },
            Reaction::Upgrade { definition, is_connected } => ReactionView::Upgrade {
                definition: *definition,
                is_connected: *is_connected,
            },
            Reaction::Form { callback, payload } => ReactionView::Form {
                callback: *callback,
                payload: *payload,
            },
        }
    }
}

/// The views of a list of reactions.
pub open spec fn reaction_views(s: Seq<Reaction>) -> Seq<ReactionView> {
    s.map_values(|r: Reaction| r@)
}

/// Submission value and validity of a form-associated element.
#[derive(Debug)]
pub struct ElementInternalsState {
    pub value: Option<String>,
    pub valid: bool,
    pub validation_message: String,
}

/// The view of [`ElementInternalsState`].
pub struct InternalsView {
    pub value: Option<Seq<char>>,
    pub valid: bool,
    pub validation_message: Seq<char>,
}

impl View for ElementInternalsState {
    type V = InternalsView;

    open spec fn view(&self) -> InternalsView {
        InternalsView {
            value: text_view(self.value),
            valid: self.valid,
            validation_message: self.validation_message@,
        }
    }
}

/// The registry of custom elements.
#[derive(Debug)]
pub struct CeRegistry {
    definitions: Vec<CeDefinition>,
    reaction_queues: BTreeMap<u32, Vec<Reaction>>,
    backup_queue: Vec<u32>,
    element_queue_stack: Vec<Vec<u32>>,
    element_states: BTreeMap<u32, CeState>,
    element_definitions: BTreeMap<u32, DefId>,
    when_defined: Vec<(String, Handle)>,
    construction_stack: Vec<u32>,
    definition_is_running: bool,
    bootstrap_phase: bool,
    element_internals: BTreeMap<u32, ElementInternalsState>,
    form_owners: BTreeMap<u32, u32>,
    form_disabled: BTreeMap<u32, bool>,
}

/// The view of [`CeRegistry`].
#[verifier::ext_equal]
pub struct CeView {
    /// All definitions, in the order in which they were made.
    pub definitions: Seq<CeDefinition>,
    /// Pending reactions of each element, first in first out.
    pub queues: Map<u32, Seq<ReactionView>>,
    /// Elements with pending reactions outside any boundary.
    pub backup: Seq<u32>,
    /// Elements with pending reactions inside the open boundaries.
    pub boundaries: Seq<Seq<u32>>,
    pub states: Map<u32, CeState>,
    pub element_definitions: Map<u32, DefId>,
    /// Resolvers that wait for a name, in order.
    pub waiting: Seq<(Seq<char>, Handle)>,
    /// Elements whose constructors are running, innermost last.
    pub construction: Seq<u32>,
    pub definition_is_running: bool,
    pub bootstrap_phase: bool,
    pub internals: Map<u32, InternalsView>,
    pub form_owners: Map<u32, u32>,
    pub form_disabled: Map<u32, bool>,
}

/// The views of parked resolvers.
pub open spec fn waiting_views(s: Seq<(String, Handle)>) -> Seq<(Seq<char>, Handle)> {
    s.map_values(|w: (String, Handle)| (w.0@, w.1))
}

/// The views of a list of queues.
pub open spec fn queue_views(s: Seq<Vec<u32>>) -> Seq<Seq<u32>> {
    s.map_values(|q: Vec<u32>| q@)
}

impl View for CeRegistry {
    type V = CeView;

    closed spec fn view(&self) -> CeView {
        CeView {
            definitions: self.definitions@,
            queues: self.reaction_queues@.map_values(|q: Vec<Reaction>| reaction_views(q@)),
            backup: self.backup_queue@,
            boundaries: queue_views(self.element_queue_stack@),
            states: self.element_states@,
            element_definitions: self.element_definitions@,
            waiting: waiting_views(self.when_defined@),
            construction: self.construction_stack@,
            definition_is_running: self.definition_is_running,
            bootstrap_phase: self.bootstrap_phase,
            internals: self.element_internals@.map_values(|s: ElementInternalsState| s@),
            form_owners: self.form_owners@,
            form_disabled: self.form_disabled@,
        }
    }
}

/// The latest definition of a name.
pub open spec fn latest(defs: Seq<CeDefinition>, name: Seq<char>) -> Option<int>
    decreases defs.len(),
{
    if defs.len() == 0 {
        None
    } else if defs.last().name@ == name {
        Some(defs.len() - 1)
    } else {
        latest(defs.drop_last(), name)
    }
}

/// Whether the definition at `i` is the latest of its name.
pub open spec fn is_current(defs: Seq<CeDefinition>, i: int) -> bool {
    latest(defs, defs[i].name@) == Some(i)
}

/// Whether another name than `name` is currently defined, not as a fallback,
/// with the same constructor.
pub open spec fn constructor_taken(defs: Seq<CeDefinition>, name: Seq<char>, constructor: Handle) -> bool {
    exists|i: int|
        0 <= i < defs.len() && #[trigger] is_current(defs, i) && !defs[i].provisional
            && defs[i].name@ != name && defs[i].constructor == constructor
}

/// Whether and why a definition is rejected, given whether another one is still
/// being made.
pub open spec fn define_outcome(
    defs: Seq<CeDefinition>,
    running: bool,
    name: Seq<char>,
    constructor: Handle,
) -> Result<(), DefineError> {
    if !is_custom_name(name) {
        Err(DefineError::InvalidName)
    } else if latest(defs, name) is Some && !defs[latest(defs, name)->0].provisional {
        Err(DefineError::NameInUse)
    } else if constructor_taken(defs, name, constructor) {
        Err(DefineError::ConstructorInUse)
    } else if running {
        Err(DefineError::DefinitionRunning)
    } else {
        Ok(())
    }
}

/// The registry before anything is defined.
pub open spec fn empty_registry() -> CeView {
    CeView {
        definitions: Seq::empty(),
        queues: Map::empty(),
        backup: Seq::empty(),
        boundaries: Seq::empty(),
        states: Map::empty(),
        element_definitions: Map::empty(),
        waiting: Seq::empty(),
        construction: Seq::empty(),
        definition_is_running: false,
        bootstrap_phase: false,
        internals: Map::empty(),
        form_owners: Map::empty(),
        form_disabled: Map::empty(),
    }
}

/// The state of an element; undefined unless another one was set.
pub open spec fn state_of(v: CeView, node_id: u32) -> CeState {
    if v.states.contains_key(node_id) {
        v.states[node_id]
    } else {
        CeState::Undefined
    }
}

/// Whether an element in a state counts as defined.
pub open spec fn counts_as_defined(state: CeState) -> bool {
    !(state is Undefined || state is Failed)
}

/// The pending reactions of an element.
pub open spec fn pending(v: CeView, node_id: u32) -> Seq<ReactionView> {
    if v.queues.contains_key(node_id) {
        v.queues[node_id]
    } else {
        Seq::empty()
    }
}

/// The registry in which an element waits for its turn: in the innermost open
/// boundary, or in the backup queue.
pub open spec fn queued(v: CeView, node_id: u32) -> CeView {
    if v.boundaries.len() > 0 {
        CeView {
            boundaries: v.boundaries.drop_last().push(v.boundaries.last().push(node_id)),
            ..v
        }
    } else {
        CeView { backup: v.backup.push(node_id), ..v }
    }
}

/// The registry with one more reaction at the end of an element's queue.
pub open spec fn enqueued(v: CeView, node_id: u32, r: ReactionView) -> CeView {
    queued(
        CeView { queues: v.queues.insert(node_id, pending(v, node_id).push(r)), ..v },
        node_id,
    )
}

/// Whether a reaction delivers, or leads to, the callback for insertion.
pub open spec fn connects(r: ReactionView) -> bool {
    match r {
        ReactionView::Callback { callback, args, native_connect } => native_connect,
        ReactionView::DynamicConnected => true,
        ReactionView::Upgrade { definition, is_connected } => is_connected,
        _ => false,
    }
}

/// The resolvers that wait for a name.
pub open spec fn waiting_for(w: Seq<(Seq<char>, Handle)>, name: Seq<char>) -> Seq<Handle>
    decreases w.len(),
{
    if w.len() == 0 {
        Seq::empty()
    } else if w.last().0 == name {
        waiting_for(w.drop_last(), name).push(w.last().1)
    } else {
        waiting_for(w.drop_last(), name)
    }
}

/// The parked resolvers that wait for another name.
pub open spec fn not_waiting_for(w: Seq<(Seq<char>, Handle)>, name: Seq<char>) -> Seq<
    (Seq<char>, Handle),
>
    decreases w.len(),
{
    if w.len() == 0 {
        Seq::empty()
    } else if w.last().0 == name {
        not_waiting_for(w.drop_last(), name)
    } else {
        not_waiting_for(w.drop_last(), name).push(w.last())
    }
}

impl Default for CeRegistry {
    fn default() -> (res: Self)
        ensures
            res@ == empty_registry(),
    {
        CeRegistry::new()
    }
}

impl CeRegistry {
    /// A registry without definitions.
    pub fn new() -> (res: Self)
        ensures
            res@ == empty_registry(),
    {
        let res = CeRegistry {
            definitions: Vec::new(),
            reaction_queues: BTreeMap::new(),
            backup_queue: Vec::new(),
            element_queue_stack: Vec::new(),
            element_states: BTreeMap::new(),
            element_definitions: BTreeMap::new(),
            when_defined: Vec::new(),
            construction_stack: Vec::new(),
            definition_is_running: false,
            bootstrap_phase: false,
            element_internals: BTreeMap::new(),
            form_owners: BTreeMap::new(),
            form_disabled: BTreeMap::new(),
        };
        assert(res@ =~= empty_registry());
        res
    }

    /// Records a definition. It is the one that its name stands for from now
    /// on.
    pub fn define(&mut self, definition: CeDefinition) -> (id: DefId)
        ensures
            final(self)@ == (CeView {
                definitions: old(self)@.definitions.push(definition),
                ..old(self)@
            }),
            id == old(self)@.definitions.len(),
    {
        let id: usize = self.definitions.len();
        self.definitions.push(definition);
        id
    }

    /// The definition that a name stands for.
    pub fn lookup(&self, name: &str) -> (res: Option<DefId>)
        ensures
            match res {
                Some(i) => latest(self@.definitions, name@) == Some(i as int) && i
                    < self@.definitions.len(),
                None => latest(self@.definitions, name@) is None,
            },
    {
        let mut i: usize = self.definitions.len();
        proof {
            assert(self.definitions@.take(i as int) == self.definitions@);
        }
        while i > 0
            invariant
                i <= self.definitions.len(),
                latest(self.definitions@, name@) == latest(
                    self.definitions@.take(i as int),
                    name@,
                ),
            decreases i,
        {
            proof {
                assert(self.definitions@.take(i as int).drop_last() == self.definitions@.take(
                    i - 1,
                ));
            }
            if text_eq(self.definitions[i - 1].name.as_str(), name) {
                return Some(i - 1);
            }
            i = i - 1;
        }
        None
    }

    /// Whether a name stands for a definition.
    pub fn is_defined(&self, name: &str) -> (res: bool)
        ensures
            res == latest(self@.definitions, name@) is Some,
    {
        self.lookup(name).is_some()
    }

    /// A definition.
    pub fn definition(&self, id: DefId) -> (res: &CeDefinition)
        requires
            id < self@.definitions.len(),
        ensures
            *res == self@.definitions[id as int],
    {
        &self.definitions[id]
    }

    /// Whether the definition that a name stands for takes part in forms.
    pub fn is_form_associated(&self, name: &str) -> (res: bool)
        ensures
            res == (latest(self@.definitions, name@) is Some && self@.definitions[latest(
                self@.definitions,
                name@,
            )->0].form_associated),
    {
        match self.lookup(name) {
            Some(id) => self.definitions[id].form_associated,
            None => false,
        }
    }

    /// How many names are defined.
    pub fn len(&self) -> (res: usize)
        ensures
            res == current_count(self@.definitions),
    {
        let mut n: usize = 0;
        let mut i: usize = 0;
        while i < self.definitions.len()
            invariant
                i <= self.definitions.len(),
                n <= i,
                n == current_within(self.definitions@, i as nat),
            decreases self.definitions.len() - i,
        {
            if self.is_current_definition(i) {
                n = n + 1;
            }
            i = i + 1;
        }
        n
    }

    fn is_current_definition(&self, i: usize) -> (res: bool)
        requires
            i < self.definitions.len(),
        ensures
            res == is_current(self.definitions@, i as int),
    {
        match self.lookup(self.definitions[i].name.as_str()) {
            Some(k) => k == i,
            None => false,
        }
    }

    /// Whether a name may be defined with a constructor: the name is valid and
    /// free, the constructor is free, and no other definition is being made.
    pub fn validate_define(&self, name: &str, constructor: Handle) -> (res: Result<(), DefineError>)
        ensures
            res == define_outcome(
                self@.definitions,
                self@.definition_is_running,
                name@,
                constructor,
            ),
    {
        if !is_valid_custom_element_name(name) {
            return Err(DefineError::InvalidName);
        }
        if let Some(id) = self.lookup(name) {
            if !self.definitions[id].provisional {
                return Err(DefineError::NameInUse);
            }
        }
        let mut i: usize = 0;
        while i < self.definitions.len()
            invariant
                i <= self.definitions.len(),
                is_custom_name(name@),
                latest(self@.definitions, name@) is Some ==> self@.definitions[latest(
                    self@.definitions,
                    name@,
                )->0].provisional,
                forall|j: int|
                    0 <= j < i ==> !(#[trigger] is_current(self.definitions@, j)
                        && !self.definitions@[j].provisional && self.definitions@[j].name@ != name@
                        && self.definitions@[j].constructor == constructor),
            decreases self.definitions.len() - i,
        {
            let other = &self.definitions[i];
            if !other.provisional && !text_eq(other.name.as_str(), name) && other.constructor
                == constructor && self.is_current_definition(i) {
                assert(is_current(self.definitions@, i as int));
                assert(constructor_taken(self@.definitions, name@, constructor));
                return Err(DefineError::ConstructorInUse);
            }
            i = i + 1;
        }
        assert(!constructor_taken(self@.definitions, name@, constructor));
        if self.definition_is_running {
            return Err(DefineError::DefinitionRunning);
        }
        Ok(())
    }
}

impl CeRegistry {
    /// Whether the engine's own scripts are still running. Definitions made
    /// then are fallbacks.
    pub fn bootstrap_phase(&self) -> (res: bool)
        ensures
            res == self@.bootstrap_phase,
    {
        self.bootstrap_phase
    }

    pub fn set_bootstrap_phase(&mut self, active: bool)
        ensures
            final(self)@ == (CeView { bootstrap_phase: active, ..old(self)@ }),
    {
        self.bootstrap_phase = active;
    }

    /// Whether a definition is being made.
    pub fn definition_is_running(&self) -> (res: bool)
        ensures
            res == self@.definition_is_running,
    {
        self.definition_is_running
    }

    pub fn set_definition_is_running(&mut self, running: bool)
        ensures
            final(self)@ == (CeView { definition_is_running: running, ..old(self)@ }),
    {
        self.definition_is_running = running;
    }

    /// The state of an element.
    pub fn element_state(&self, node_id: u32) -> (res: CeState)
        ensures
            res == state_of(self@, node_id),
    {
        match self.element_states.get(&node_id) {
            Some(state) => *state,
            None => CeState::Undefined,
        }
    }

    pub fn set_element_state(&mut self, node_id: u32, state: CeState)
        ensures
            final(self)@ == (CeView {
                states: old(self)@.states.insert(node_id, state),
                ..old(self)@
            }),
    {
        let _ = self.element_states.insert(node_id, state);
    }

    /// Sets the state of an element and marks the element itself as defined or
    /// not, so that selector matching need not ask the registry.
    pub fn set_element_state_on(&mut self, dom: &mut Dom, node: NodePtr, node_id: u32, state: CeState)
        requires
            old(dom).wf(),
            node < old(dom)@.len(),
        ensures
            final(dom).wf(),
            final(self)@ == (CeView {
                states: old(self)@.states.insert(node_id, state),
                ..old(self)@
            }),
            final(dom)@ == custom_defined(old(dom)@, node, counts_as_defined(state)),
    {
        self.set_element_state(node_id, state);
        let defined = match state {
            CeState::Undefined => false,
            CeState::Failed => false,
            _ => true,
        };
        set_custom_element_defined(dom, node, defined);
    }

    /// The definition that an element was upgraded with.
    pub fn definition_for_element(&self, node_id: u32) -> (res: Option<DefId>)
        ensures
            res == self@.element_definitions.get(node_id),
    {
        match self.element_definitions.get(&node_id) {
            Some(id) => Some(*id),
            None => None,
        }
    }

    pub fn set_definition_for_element(&mut self, node_id: u32, definition: DefId)
        ensures
            final(self)@ == (CeView {
                element_definitions: old(self)@.element_definitions.insert(node_id, definition),
                ..old(self)@
            }),
    {
        let _ = self.element_definitions.insert(node_id, definition);
    }

    /// Whether an element has internals.
    pub fn has_element_internals(&self, node_id: u32) -> (res: bool)
        ensures
            res == self@.internals.contains_key(node_id),
    {
        self.element_internals.contains_key(&node_id)
    }

    /// Gives an element fresh internals: no value, valid, no message.
    pub fn create_element_internals(&mut self, node_id: u32)
        ensures
            final(self)@ == (CeView {
                internals: old(self)@.internals.insert(
                    node_id,
                    InternalsView { value: None, valid: true, validation_message: Seq::empty() },
                ),
                ..old(self)@
            }),
    {
        let fresh = ElementInternalsState {
            value: None,
            valid: true,
            validation_message: String::new(),
        };
        assert(fresh@.validation_message =~= Seq::<char>::empty());
        let _ = self.element_internals.insert(node_id, fresh);
        assert(self@.internals =~= old(self)@.internals.insert(
            node_id,
            InternalsView { value: None, valid: true, validation_message: Seq::empty() },
        ));
    }

    /// Sets the submission value of an element that has internals.
    pub fn set_form_value(&mut self, node_id: u32, value: Option<String>)
        ensures
            final(self)@ == (if old(self)@.internals.contains_key(node_id) {
                CeView {
                    internals: old(self)@.internals.insert(
                        node_id,
                        InternalsView {
                            value: text_view(value),
                            ..old(self)@.internals[node_id]
                        },
                    ),
                    ..old(self)@
                }
            } else {
                old(self)@
            }),
    {
        let ghost view = text_view(value);
        if let Some(mut state) = self.element_internals.remove(&node_id) {
            state.value = value;
            let _ = self.element_internals.insert(node_id, state);
            assert(self@.internals =~= old(self)@.internals.insert(
                node_id,
                InternalsView { value: view, ..old(self)@.internals[node_id] },
            ));
        } else {
            assert(self@ =~= old(self)@);
        }
    }

    /// Sets the validity of an element that has internals.
    pub fn set_validity(&mut self, node_id: u32, valid: bool, message: String)
        ensures
            final(self)@ == (if old(self)@.internals.contains_key(node_id) {
                CeView {
                    internals: old(self)@.internals.insert(
                        node_id,
                        InternalsView {
                            valid,
                            validation_message: message@,
                            ..old(self)@.internals[node_id]
                        },
                    ),
                    ..old(self)@
                }
            } else {
                old(self)@
            }),
    {
        let ghost text = message@;
        if let Some(mut state) = self.element_internals.remove(&node_id) {
            state.valid = valid;
            state.validation_message = message;
            let _ = self.element_internals.insert(node_id, state);
            assert(self@.internals =~= old(self)@.internals.insert(
                node_id,
                InternalsView {
                    valid,
                    validation_message: text,
                    ..old(self)@.internals[node_id]
                },
            ));
        } else {
            assert(self@ =~= old(self)@);
        }
    }

    /// Whether an element satisfies its constraints; one without internals
    /// does.
    pub fn is_valid(&self, node_id: u32) -> (res: bool)
        ensures
            res == (self@.internals.contains_key(node_id) ==> self@.internals[node_id].valid),
    {
        match self.element_internals.get(&node_id) {
            Some(state) => state.valid,
            None => true,
        }
    }

    /// The validation message of an element; empty without internals.
    pub fn validation_message(&self, node_id: u32) -> (res: String)
        ensures
            res@ == (if self@.internals.contains_key(node_id) {
                self@.internals[node_id].validation_message
            } else {
                Seq::empty()
            }),
    {
        match self.element_internals.get(&node_id) {
            Some(state) => state.validation_message.clone(),
            None => {
                let none = String::new();
                assert(none@ =~= Seq::<char>::empty());
                none
            },
        }
    }

    /// The form owner that was last computed for an element.
    pub fn form_owner(&self, node_id: u32) -> (res: Option<u32>)
        ensures
            res == self@.form_owners.get(node_id),
    {
        match self.form_owners.get(&node_id) {
            Some(owner) => Some(*owner),
            None => None,
        }
    }

    pub fn set_form_owner(&mut self, node_id: u32, owner: Option<u32>)
        ensures
            final(self)@ == (CeView {
                form_owners: match owner {
                    Some(o) => old(self)@.form_owners.insert(node_id, o),
                    None => old(self)@.form_owners.remove(node_id),
                },
                ..old(self)@
            }),
    {
        match owner {
            Some(o) => {
                let _ = self.form_owners.insert(node_id, o);
            },
            None => {
                let _ = self.form_owners.remove(&node_id);
            },
        }
        assert(self@.form_owners =~= match owner {
            Some(o) => old(self)@.form_owners.insert(node_id, o),
            None => old(self)@.form_owners.remove(node_id),
        });
    }

    /// Whether an element was last found disabled.
    pub fn form_disabled(&self, node_id: u32) -> (res: bool)
        ensures
            res == (self@.form_disabled.contains_key(node_id) && self@.form_disabled[node_id]),
    {
        match self.form_disabled.get(&node_id) {
            Some(disabled) => *disabled,
            None => false,
        }
    }

    pub fn set_form_disabled(&mut self, node_id: u32, disabled: bool)
        ensures
            final(self)@ == (CeView {
                form_disabled: old(self)@.form_disabled.insert(node_id, disabled),
                ..old(self)@
            }),
    {
        let _ = self.form_disabled.insert(node_id, disabled);
    }

    /// Parks a resolver until a name is defined.
    pub fn push_when_defined(&mut self, name: &str, resolver: Handle)
        ensures
            final(self)@ == (CeView {
                waiting: old(self)@.waiting.push((name@, resolver)),
                ..old(self)@
            }),
    {
        self.when_defined.push((name.to_owned(), resolver));
        assert(self@.waiting =~= old(self)@.waiting.push((name@, resolver)));
    }

    /// Takes the resolvers that wait for a name, in the order in which they
    /// were parked.
    pub fn take_when_defined(&mut self, name: &str) -> (res: Vec<Handle>)
        ensures
            res@ == waiting_for(old(self)@.waiting, name@),
            final(self)@ == (CeView {
                waiting: not_waiting_for(old(self)@.waiting, name@),
                ..old(self)@
            }),
    {
        let ghost all = waiting_views(self.when_defined@);
        let mut taken: Vec<Handle> = Vec::new();
        let mut kept: Vec<(String, Handle)> = Vec::new();
        let mut i: usize = 0;
        proof {
            assert(waiting_views(kept@) =~= Seq::<(Seq<char>, Handle)>::empty());
        }
        while i < self.when_defined.len()
            invariant
                i <= self.when_defined.len(),
                all == waiting_views(self.when_defined@),
                *self == *old(self),
                taken@ == waiting_for(all.take(i as int), name@),
                waiting_views(kept@) == not_waiting_for(all.take(i as int), name@),
            decreases self.when_defined.len() - i,
        {
            proof {
                assert(all.take(i + 1).drop_last() == all.take(i as int));
                assert(all.take(i + 1).last() == (
                    self.when_defined@[i as int].0@,
                    self.when_defined@[i as int].1,
                ));
            }
            if text_eq(self.when_defined[i].0.as_str(), name) {
                taken.push(self.when_defined[i].1);
            } else {
                let ghost before = kept@;
                kept.push((self.when_defined[i].0.clone(), self.when_defined[i].1));
                assert(waiting_views(kept@) =~= waiting_views(before).push(
                    all.take(i + 1).last(),
                ));
            }
            i = i + 1;
        }
        assert(all.take(i as int) == all);
        self.when_defined = kept;
        taken
    }

    /// Puts an element on the construction stack, before its constructor runs.
    pub fn push_construction(&mut self, node_id: u32)
        ensures
            final(self)@ == (CeView {
                construction: old(self)@.construction.push(node_id),
                ..old(self)@
            }),
    {
        self.construction_stack.push(node_id);
    }

    /// Takes the innermost element off the construction stack.
    pub fn pop_construction(&mut self) -> (res: Option<u32>)
        ensures
            old(self)@.construction.len() == 0 ==> res is None && final(self)@ == old(self)@,
            old(self)@.construction.len() > 0 ==> {
                &&& res == Some(old(self)@.construction.last())
                &&& final(self)@ == (CeView {
                    construction: old(self)@.construction.drop_last(),
                    ..old(self)@
                })
            },
    {
        self.construction_stack.pop()
    }

    /// The element that the running constructor adopts in place of a new one.
    pub fn construction_stack_top(&self) -> (res: Option<u32>)
        ensures
            res == (if self@.construction.len() > 0 {
                Some(self@.construction.last())
            } else {
                None
            }),
    {
        let n: usize = self.construction_stack.len();
        if n > 0 {
            Some(self.construction_stack[n - 1])
        } else {
            None
        }
    }

    fn enqueue_element_id(&mut self, node_id: u32)
        ensures
            final(self)@ == queued(old(self)@, node_id),
    {
        match self.element_queue_stack.pop() {
            Some(mut current) => {
                let ghost was = current@;
                current.push(node_id);
                self.element_queue_stack.push(current);
                proof {
                    assert(old(self)@.boundaries.last() == was);
                    assert(self@.boundaries =~= old(self)@.boundaries.drop_last().push(
                        was.push(node_id),
                    ));
                }
            },
            None => {
                self.backup_queue.push(node_id);
                assert(self@.boundaries =~= old(self)@.boundaries);
            },
        }
    }

    /// Adds a reaction to the end of an element's queue, and the element to
    /// the queue whose turn comes first.
    pub fn enqueue(&mut self, node_id: u32, reaction: Reaction)
        ensures
            final(self)@ == enqueued(old(self)@, node_id, reaction@),
    {
        let ghost was = pending(self@, node_id);
        let mut queue: Vec<Reaction> = match self.reaction_queues.remove(&node_id) {
            Some(queue) => queue,
            None => Vec::new(),
        };
        assert(reaction_views(queue@) =~= was);
        queue.push(reaction);
        assert(reaction_views(queue@) =~= was.push(reaction@));
        let _ = self.reaction_queues.insert(node_id, queue);
        assert(self@.queues =~= old(self)@.queues.insert(node_id, was.push(reaction@)));
        self.enqueue_element_id(node_id);
    }

    /// Enqueues a callback.
    pub fn enqueue_callback(
        &mut self,
        node_id: u32,
        callback: Handle,
        args: Vec<Handle>,
        native_connect: bool,
    )
        ensures
            final(self)@ == enqueued(
                old(self)@,
                node_id,
                ReactionView::Callback { callback, args: args@, native_connect },
            ),
    {
        self.enqueue(node_id, Reaction::Callback { callback, args, native_connect });
    }

    /// Enqueues the search for a controller that handles insertion.
    pub fn enqueue_dynamic_connected(&mut self, node_id: u32)
        ensures
            final(self)@ == enqueued(old(self)@, node_id, ReactionView::DynamicConnected),
    {
        self.enqueue(node_id, Reaction::DynamicConnected);
    }

    /// Enqueues the callback for a changed attribute. Whether the attribute is
    /// observed is for the caller to know.
    pub fn enqueue_attribute_changed(
        &mut self,
        node_id: u32,
        callback: Handle,
        name: String,
        old_value: Option<String>,
        new_value: Option<String>,
    )
        ensures
            final(self)@ == enqueued(
                old(self)@,
                node_id,
                ReactionView::AttributeChanged {
                    callback,
                    name: name@,
                    old_value: text_view(old_value),
                    new_value: text_view(new_value),
                },
            ),
    {
        self.enqueue(
            node_id,
            Reaction::AttributeChanged { callback, name, old_value, new_value },
        );
    }

    /// Enqueues the callback for a change of document.
    pub fn enqueue_adopted(
        &mut self,
        node_id: u32,
        callback: Handle,
        old_document: u32,
        new_document: u32,
    )
        ensures
            final(self)@ == enqueued(
                old(self)@,
                node_id,
                ReactionView::Adopted { callback, old_document, new_document },
            ),
    {
        self.enqueue(node_id, Reaction::Adopted { callback, old_document, new_document });
    }

    /// Enqueues the upgrade of an element.
    pub fn enqueue_upgrade(&mut self, node_id: u32, definition: DefId, is_connected: bool)
        ensures
            final(self)@ == enqueued(
                old(self)@,
                node_id,
                ReactionView::Upgrade { definition, is_connected },
            ),
    {
        self.enqueue(node_id, Reaction::Upgrade { definition, is_connected });
    }

    /// Enqueues a callback of a form-associated element.
    pub fn enqueue_form(&mut self, node_id: u32, callback: Handle, payload: FormReaction)
        ensures
            final(self)@ == enqueued(
                old(self)@,
                node_id,
                ReactionView::Form { callback, payload },
            ),
    {
        self.enqueue(node_id, Reaction::Form { callback, payload });
    }

    /// Opens a boundary: reactions that are enqueued until it is closed are
    /// delivered when it is.
    pub fn push_reactions_stack(&mut self)
        ensures
            final(self)@ == (CeView {
                boundaries: old(self)@.boundaries.push(Seq::empty()),
                ..old(self)@
            }),
    {
        let queue: Vec<u32> = Vec::new();
        assert(queue@ =~= Seq::<u32>::empty());
        self.element_queue_stack.push(queue);
        assert(self@.boundaries =~= old(self)@.boundaries.push(Seq::empty()));
    }

    /// Closes the innermost boundary and returns the elements whose reactions
    /// are to be delivered, in order.
    pub fn pop_reactions_stack(&mut self) -> (res: Vec<u32>)
        ensures
            old(self)@.boundaries.len() == 0 ==> res@.len() == 0 && final(self)@ == old(self)@,
            old(self)@.boundaries.len() > 0 ==> {
                &&& res@ == old(self)@.boundaries.last()
                &&& final(self)@ == (CeView {
                    boundaries: old(self)@.boundaries.drop_last(),
                    ..old(self)@
                })
            },
    {
        match self.element_queue_stack.pop() {
            Some(queue) => {
                proof {
                    assert(old(self)@.boundaries.last() == queue@);
                    assert(self@.boundaries =~= old(self)@.boundaries.drop_last());
                }
                queue
            },
            None => Vec::new(),
        }
    }

    /// Whether any reactions are queued, behind an open boundary or not.
    pub fn has_pending_reactions(&self) -> (res: bool)
        ensures
            res == exists|node_id: u32| #[trigger] self@.queues.contains_key(node_id),
    {
        let n: usize = self.reaction_queues.len();
        proof {
            assert(self@.queues.dom() =~= self.reaction_queues@.dom());
            if n > 0 {
                let node_id = self.reaction_queues@.dom().choose();
                assert(self.reaction_queues@.dom().contains(node_id));
                assert(self@.queues.contains_key(node_id));
            } else {
                assert forall|node_id: u32| !#[trigger] self@.queues.contains_key(node_id) by {
                    if self.reaction_queues@.dom().contains(node_id) {
                        assert(self.reaction_queues@.dom().remove(node_id).len() < n);
                    }
                }
            }
        }
        n > 0
    }

    /// Whether a reaction that delivers, or leads to, the callback for
    /// insertion is pending for an element. If so, nobody else is to deliver
    /// it.
    pub fn has_pending_connected_reaction(&self, node_id: u32) -> (res: bool)
        ensures
            res == exists_connecting(pending(self@, node_id)),
    {
        match self.reaction_queues.get(&node_id) {
            Some(queue) => {
                let ghost views = pending(self@, node_id);
                assert(views == reaction_views(queue@));
                let mut i: usize = 0;
                while i < queue.len()
                    invariant
                        i <= queue.len(),
                        views == reaction_views(queue@),
                        views == pending(self@, node_id),
                        forall|j: int| 0 <= j < i ==> !connects(#[trigger] views[j]),
                    decreases queue.len() - i,
                {
                    assert(views[i as int] == queue@[i as int]@);
                    let found = match &queue[i] {
                        Reaction::Callback { native_connect, .. } => *native_connect,
                        Reaction::DynamicConnected => true,
                        Reaction::Upgrade { is_connected, .. } => *is_connected,
                        _ => false,
                    };
                    if found {
                        assert(connects(views[i as int]));
                        return true;
                    }
                    i = i + 1;
                }
                false
            },
            None => false,
        }
    }

    /// Takes the backup queue.
    pub fn take_backup_queue(&mut self) -> (res: Vec<u32>)
        ensures
            res@ == old(self)@.backup,
            final(self)@ == (CeView { backup: Seq::empty(), ..old(self)@ }),
    {
        let mut queue: Vec<u32> = Vec::new();
        core::mem::swap(&mut queue, &mut self.backup_queue);
        assert(self@.backup =~= Seq::<u32>::empty());
        queue
    }

    /// Takes the pending reactions of an element, first one first.
    pub fn take_reactions(&mut self, node_id: u32) -> (res: Option<Vec<Reaction>>)
        ensures
            match res {
                Some(reactions) => old(self)@.queues.contains_key(node_id) && reaction_views(
                    reactions@,
                ) == old(self)@.queues[node_id],
                None => !old(self)@.queues.contains_key(node_id),
            },
            final(self)@ == (CeView {
                queues: old(self)@.queues.remove(node_id),
                ..old(self)@
            }),
    {
        let res = self.reaction_queues.remove(&node_id);
        assert(self@.queues =~= old(self)@.queues.remove(node_id));
        res
    }
}

/// Whether some reaction of a queue delivers, or leads to, the callback for
/// insertion.
pub open spec fn exists_connecting(queue: Seq<ReactionView>) -> bool {
    exists|i: int| 0 <= i < queue.len() && connects(#[trigger] queue[i])
}

/// How many of the first `k` definitions are the latest of their names.
pub open spec fn current_within(defs: Seq<CeDefinition>, k: nat) -> nat
    decreases k,
{
    if k == 0 {
        0
    } else {
        current_within(defs, (k - 1) as nat) + (if is_current(defs, k - 1) {
            1nat
        } else {
            0nat
        })
    }
}

/// How many names are defined.
pub open spec fn current_count(defs: Seq<CeDefinition>) -> nat {
    current_within(defs, defs.len())
}

/// Once a name is defined, not as a fallback, every further definition of it is
/// rejected, whatever the constructor.
pub proof fn law_defined_names_are_taken(
    defs: Seq<CeDefinition>,
    running: bool,
    d: CeDefinition,
    constructor: Handle,
)
    requires
        is_custom_name(d.name@),
        !d.provisional,
    ensures
        define_outcome(defs.push(d), running, d.name@, constructor) == Err::<(), DefineError>(
            DefineError::NameInUse,
        ),
{
    assert(defs.push(d).last() == d);
}

/// While a definition is being made every other one is rejected.
pub proof fn law_definitions_do_not_nest(
    defs: Seq<CeDefinition>,
    name: Seq<char>,
    constructor: Handle,
)
    ensures
        define_outcome(defs, true, name, constructor) is Err,
{
}

/// A name that is defined as a fallback may be defined anew, and then stands
/// for the new definition.
pub proof fn law_fallbacks_give_way(defs: Seq<CeDefinition>, d: CeDefinition, e: CeDefinition)
    requires
        is_custom_name(d.name@),
        d.provisional,
        e.name@ == d.name@,
        !constructor_taken(defs.push(d), d.name@, e.constructor),
    ensures
        define_outcome(defs.push(d), false, d.name@, e.constructor) is Ok,
        latest(defs.push(d).push(e), d.name@) == Some(defs.len() as int + 1),
{
    assert(defs.push(d).last() == d);
    assert(defs.push(d).push(e).last() == e);
}

/// Reactions of an element are taken in the order in which they were enqueued,
/// whatever other elements get in between.
pub proof fn law_reactions_are_first_in_first_out(
    v: CeView,
    node_id: u32,
    a: ReactionView,
    other: u32,
    c: ReactionView,
    b: ReactionView,
)
    requires
        other != node_id,
    ensures
        pending(enqueued(enqueued(enqueued(v, node_id, a), other, c), node_id, b), node_id)
            == pending(v, node_id).push(a).push(b),
{
}

/// An element whose reaction is enqueued inside a boundary waits for that
/// boundary to be closed, and the outer queues stay as they are.
pub proof fn law_boundaries_keep_their_elements(v: CeView, node_id: u32, r: ReactionView)
    requires
        v.boundaries.len() > 0,
    ensures
        enqueued(v, node_id, r).boundaries.last() == v.boundaries.last().push(node_id),
        enqueued(v, node_id, r).boundaries.drop_last() == v.boundaries.drop_last(),
        enqueued(v, node_id, r).backup == v.backup,
{
    let e = enqueued(v, node_id, r);
    assert(e.boundaries.drop_last() =~= v.boundaries.drop_last());
}

} // verus!

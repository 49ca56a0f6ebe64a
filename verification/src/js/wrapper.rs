//! What the script object of a node is made of.

use crate::dom::attributes::{in_order, Attributes, Pair};
use crate::dom::node::{shadow_root, Dom, DomView, Node, NodePtr, NodeView};
use crate::dom::shadow::{adopted_root, attached, attached_root, is_root_at, rehosted, released,
    ShadowTreeBackend, SyntheticShadowTreeBackend};
use crate::dom::node::{finite_from, is_fragment, Reach};
use crate::js::custom_elements::{latest, CeView, InternalsView};
use crate::js::dispatch::{apply_dom_mutation, can_mutate, lemma_quiet, linked_dom, mutated,
    no_replies, replied, DomMutation, FormReplies};
use crate::js::forms::no_forms;
use crate::js::nodes::{data_attr_to_dataset_key, dataset_key, html_target, inner_html_target,
    lower_form, name_of, node_name, node_type, to_lowercase, to_uppercase, type_of, upper_form};
use crate::js::registry::{can_register, id_of, registered, NodeRegistry, RegistryView};
use crate::text::{contains_char, eq_ignore_ascii_case, same_ignoring_case, text_eq};
use vstd::prelude::*;

verus! {

/// The prototype that a script object gets.
#[derive(Clone, Copy, Debug, PartialEq, Eq, Structural)]
pub enum Prototype {
    SvgElement,
    HtmlElement,
    DocumentFragment,
    Node,
}

impl Prototype {
    /// The name of the constructor that has the prototype.
    pub fn constructor_name(self) -> (res: &'static str)
        ensures
            res@ == (match self {
                Prototype::SvgElement => "SVGElement"@,
                Prototype::HtmlElement => "HTMLElement"@,
                Prototype::DocumentFragment => "DocumentFragment"@,
                Prototype::Node => "Node"@,
            }),
    {
        match self {
            Prototype::SvgElement => "SVGElement",
            Prototype::HtmlElement => "HTMLElement",
            Prototype::DocumentFragment => "DocumentFragment",
            Prototype::Node => "Node",
        }
    }
}

/// Functions of the script side that are told about a new object.
#[derive(Clone, Copy, Debug, PartialEq, Eq, Structural)]
pub enum Hook {
    DecorateElement,
    InstallCanvas,
    InstallMediaElement,
    TrackCustomElement,
}

impl Hook {
    /// The global name of the function.
    pub fn function_name(self) -> (res: &'static str)
        ensures
            res@ == (match self {
                Hook::DecorateElement => "__aurora_decorate_element__"@,
                Hook::InstallCanvas => "__aurora_install_canvas__"@,
                Hook::InstallMediaElement => "__aurora_install_media_element__"@,
                Hook::TrackCustomElement => "__aurora_track_custom_element__"@,
            }),
    {
        match self {
            Hook::DecorateElement => "__aurora_decorate_element__",
            Hook::InstallCanvas => "__aurora_install_canvas__",
            Hook::InstallMediaElement => "__aurora_install_media_element__",
            Hook::TrackCustomElement => "__aurora_track_custom_element__",
        }
    }
}

/// Whether an element with that tag name is drawn as SVG.
pub open spec fn is_svg_name(tag: Seq<char>) -> bool {
    ||| tag == "svg"@
    ||| tag == "path"@
    ||| tag == "g"@
    ||| tag == "circle"@
    ||| tag == "rect"@
    ||| tag == "line"@
    ||| tag == "polyline"@
    ||| tag == "polygon"@
    ||| tag == "ellipse"@
    ||| tag == "text"@
    ||| tag == "use"@
    ||| tag == "defs"@
    ||| tag == "symbol"@
    ||| tag == "clipPath"@
    ||| tag == "linearGradient"@
    ||| tag == "radialGradient"@
    ||| tag == "stop"@
    ||| tag == "mask"@
    ||| tag == "pattern"@
    ||| tag == "marker"@
    ||| tag == "foreignObject"@
    ||| tag == "feGaussianBlur"@
    ||| tag == "feOffset"@
    ||| tag == "feColorMatrix"@
}

/// Whether an element with the tag name `tag` is drawn as SVG.
pub fn is_svg_tag(tag: &str) -> (res: bool)
    ensures
        res == is_svg_name(tag@),
{
    text_eq(tag, "svg") || text_eq(tag, "path") || text_eq(tag, "g") || text_eq(tag, "circle")
        || text_eq(tag, "rect") || text_eq(tag, "line") || text_eq(tag, "polyline") || text_eq(
        tag,
        "polygon",
    ) || text_eq(tag, "ellipse") || text_eq(tag, "text") || text_eq(tag, "use") || text_eq(
        tag,
        "defs",
    ) || text_eq(tag, "symbol") || text_eq(tag, "clipPath") || text_eq(tag, "linearGradient")
        || text_eq(tag, "radialGradient") || text_eq(tag, "stop") || text_eq(tag, "mask")
        || text_eq(tag, "pattern") || text_eq(tag, "marker") || text_eq(tag, "foreignObject")
        || text_eq(tag, "feGaussianBlur") || text_eq(tag, "feOffset") || text_eq(
        tag,
        "feColorMatrix",
    )
}

/// The prototype of a node's script object.
pub open spec fn prototype_of(n: NodeView) -> Prototype {
    match n {
        NodeView::Element(el) => if el.tag_name == "#document-fragment"@ {
            Prototype::DocumentFragment
        } else if is_svg_name(el.tag_name) {
            Prototype::SvgElement
        } else {
            Prototype::HtmlElement
        },
        _ => Prototype::Node,
    }
}

/// The value of an attribute; the empty text if it is missing.
pub open spec fn value_or_empty(attributes: Map<Seq<char>, Seq<char>>, name: Seq<char>) -> Seq<char> {
    if attributes.contains_key(name) {
        attributes[name]
    } else {
        Seq::empty()
    }
}

/// The attributes that are copied to properties of the same name.
pub open spec fn copied(attributes: Map<Seq<char>, Seq<char>>) -> Seq<Pair> {
    seq![
        ("href"@, value_or_empty(attributes, "href"@)),
        ("src"@, value_or_empty(attributes, "src"@)),
        ("type"@, value_or_empty(attributes, "type"@)),
        ("name"@, value_or_empty(attributes, "name"@)),
        ("value"@, value_or_empty(attributes, "value"@)),
    ]
}

/// The entries of `dataset`, for attributes in their order.
pub open spec fn dataset(pairs: Seq<Pair>) -> Seq<Pair>
    decreases pairs.len(),
{
    if pairs.len() == 0 {
        Seq::empty()
    } else {
        match dataset_key(pairs.last().0) {
            Some(key) => dataset(pairs.drop_last()).push((key, pairs.last().1)),
            None => dataset(pairs.drop_last()),
        }
    }
}

/// The properties of an element's script object.
#[derive(Debug)]
pub struct ElementProperties {
    pub tag_name: String,
    pub local_name: String,
    /// Whether the element is in the SVG namespace.
    pub svg: bool,
    pub copied: Vec<(String, String)>,
    pub dataset: Vec<(String, String)>,
    pub hidden: bool,
}

/// Pairs of strings by their characters.
pub open spec fn pair_views(s: Seq<(String, String)>) -> Seq<Pair> {
    s.map_values(|e: (String, String)| (e.0@, e.1@))
}

impl ElementProperties {
    /// Whether these are the properties of an element with that tag name and
    /// those attributes.
    pub open spec fn describes(
        &self,
        tag: Seq<char>,
        attributes: Map<Seq<char>, Seq<char>>,
    ) -> bool {
        &&& self.tag_name@ == upper_form(tag)
        &&& self.local_name@ == lower_form(tag)
        &&& self.svg == is_svg_name(tag)
        &&& pair_views(self.copied@) == copied(attributes)
        &&& pair_views(self.dataset@) == dataset(in_order(attributes))
        &&& self.hidden == attributes.contains_key("hidden"@)
    }
}

fn copy_attribute(attributes: &Attributes, name: &str, out: &mut Vec<(String, String)>)
    ensures
        pair_views(final(out)@) == pair_views(old(out)@).push(
            (name@, value_or_empty(attributes@, name@)),
        ),
{
    let ghost before = out@;
    let value = match attributes.get(name) {
        Some(value) => value.clone(),
        None => String::new(),
    };
    assert(value@ =~= value_or_empty(attributes@, name@));
    out.push((name.to_string(), value));
    assert(pair_views(out@) =~= pair_views(before).push(
        (name@, value_or_empty(attributes@, name@)),
    ));
}

fn dataset_of(attributes: &Attributes) -> (res: Vec<(String, String)>)
    ensures
        pair_views(res@) == dataset(in_order(attributes@)),
{
    let entries = attributes.entries();
    let ghost pairs = in_order(attributes@);
    let mut res: Vec<(String, String)> = Vec::new();
    let mut i: usize = 0;
    assert(pair_views(res@) =~= dataset(pairs.take(0)));
    while i < entries.len()
        invariant
            i <= entries.len(),
            pair_views(entries@) == pairs,
            pair_views(res@) == dataset(pairs.take(i as int)),
        decreases entries.len() - i,
    {
        let ghost before = res@;
        proof {
            assert(pairs[i as int] == pair_views(entries@)[i as int]);
            assert(pairs.take(i + 1).drop_last() =~= pairs.take(i as int));
            assert(pairs.take(i + 1).last() == pairs[i as int]);
        }
        if let Some(key) = data_attr_to_dataset_key(entries[i].0.as_str()) {
            let ghost added = (key@, entries@[i as int].1@);
            res.push((key, entries[i].1.clone()));
            assert(pair_views(res@) =~= pair_views(before).push(added));
        }
        i = i + 1;
    }
    assert(pairs.take(i as int) =~= pairs);
    res
}

fn element_properties(tag: &str, attributes: &Attributes) -> (res: ElementProperties)
    ensures
        res.describes(tag@, attributes@),
{
    let mut list: Vec<(String, String)> = Vec::new();
    assert(pair_views(list@) =~= Seq::<Pair>::empty());
    copy_attribute(attributes, "href", &mut list);
    copy_attribute(attributes, "src", &mut list);
    copy_attribute(attributes, "type", &mut list);
    copy_attribute(attributes, "name", &mut list);
    copy_attribute(attributes, "value", &mut list);
    assert(pair_views(list@) =~= copied(attributes@));
    ElementProperties {
        tag_name: to_uppercase(tag),
        local_name: to_lowercase(tag),
        svg: is_svg_tag(tag),
        copied: list,
        dataset: dataset_of(attributes),
        hidden: attributes.get("hidden").is_some(),
    }
}

/// What the script object of a node is made of.
#[derive(Debug)]
pub struct Wrapper {
    pub node_id: u32,
    pub node_type: i32,
    pub node_name: String,
    /// Whether it has a `host`: registered shadow roots do.
    pub has_host: bool,
    /// Whether it has `data` and `nodeValue`: text and comments do.
    pub has_data: bool,
    /// Whether it lists the nodes assigned to it: slots do.
    pub has_assigned: bool,
    pub prototype: Prototype,
    /// The properties of an element that is no fragment.
    pub element: Option<ElementProperties>,
    /// Whether it shows the document and the window as its contents.
    pub is_iframe: bool,
    /// The fragment that is the `content` of a template.
    pub content: Option<NodePtr>,
    /// The functions that are told about the object, in order.
    pub hooks: Vec<Hook>,
}

/// Whether a node is an element with that tag name, in any case.
pub open spec fn is_tagged(n: NodeView, tag: Seq<char>) -> bool {
    n matches NodeView::Element(el) && same_ignoring_case(el.tag_name, tag)
}

/// Whether a node counts as a custom element: its name has a hyphen.
pub open spec fn has_hyphen(n: NodeView) -> bool {
    n matches NodeView::Element(el) && el.tag_name != "#document-fragment"@ && el.tag_name.contains(
        '-',
    )
}

/// The functions that are told about the script object of a node.
pub open spec fn hooks_of(n: NodeView) -> Seq<Hook> {
    (if type_of(n) == 1 {
        seq![Hook::DecorateElement]
    } else {
        Seq::empty()
    }) + (if is_tagged(n, "canvas"@) {
        seq![Hook::InstallCanvas]
    } else {
        Seq::empty()
    }) + (if is_tagged(n, "video"@) || is_tagged(n, "audio"@) {
        seq![Hook::InstallMediaElement]
    } else {
        Seq::empty()
    }) + (if has_hyphen(n) {
        seq![Hook::TrackCustomElement]
    } else {
        Seq::empty()
    })
}

fn tagged(dom: &Dom, node: NodePtr, tag: &str) -> (res: bool)
    requires
        node < dom@.len(),
    ensures
        res == is_tagged(dom@[node as int], tag@),
{
    match dom.node(node) {
        Node::Element(el) => eq_ignore_ascii_case(el.tag_name.as_str(), tag),
        _ => false,
    }
}

fn hooks_for(dom: &Dom, node: NodePtr) -> (res: Vec<Hook>)
    requires
        node < dom@.len(),
    ensures
        res@ == hooks_of(dom@[node as int]),
{
    let mut hooks: Vec<Hook> = Vec::new();
    if node_type(dom, node) == 1 {
        hooks.push(Hook::DecorateElement);
    }
    if tagged(dom, node, "canvas") {
        hooks.push(Hook::InstallCanvas);
    }
    if tagged(dom, node, "video") || tagged(dom, node, "audio") {
        hooks.push(Hook::InstallMediaElement);
    }
    let custom = match dom.node(node) {
        Node::Element(el) => !text_eq(el.tag_name.as_str(), "#document-fragment") && contains_char(
            el.tag_name.as_str(),
            '-',
        ),
        _ => false,
    };
    if custom {
        hooks.push(Hook::TrackCustomElement);
    }
    assert(hooks@ =~= hooks_of(dom@[node as int]));
    hooks
}

fn prototype_for(dom: &Dom, node: NodePtr) -> (res: Prototype)
    requires
        node < dom@.len(),
    ensures
        res == prototype_of(dom@[node as int]),
{
    match dom.node(node) {
        Node::Element(el) => if text_eq(el.tag_name.as_str(), "#document-fragment") {
            Prototype::DocumentFragment
        } else if is_svg_tag(el.tag_name.as_str()) {
            Prototype::SvgElement
        } else {
            Prototype::HtmlElement
        },
        _ => Prototype::Node,
    }
}

impl Wrapper {
    /// Whether this describes the node `n` with the id `id`.
    pub open spec fn describes(&self, d: DomView, n: NodePtr, id: u32) -> bool {
        let view = d[n as int];
        &&& self.node_id == id
        &&& self.node_type == type_of(view)
        &&& self.node_name@ == name_of(view)
        &&& self.has_host == is_root_at(d, n)
        &&& self.has_data == (view is Text || view is Comment)
        &&& self.has_assigned == is_tagged(view, "slot"@)
        &&& self.prototype == prototype_of(view)
        &&& match (self.element, view) {
            (Some(properties), NodeView::Element(el)) => el.tag_name != "#document-fragment"@
                && properties.describes(el.tag_name, el.attributes),
            (Some(_), _) => false,
            (None, NodeView::Element(el)) => el.tag_name == "#document-fragment"@,
            (None, _) => true,
        }
        &&& self.is_iframe == is_tagged(view, "iframe"@)
        &&& self.content == (if is_tagged(view, "template"@) {
            Some(html_target(d, n).1)
        } else {
            None
        })
        &&& self.hooks@ == hooks_of(view)
    }
}

/// Describes the script object of `node`, which gets an id if it has none. A
/// template without contents gets an empty fragment, which later writes to its
/// `innerHTML` share with the object.
pub fn describe_node(registry: &mut NodeRegistry, dom: &mut Dom, node: NodePtr) -> (res: Wrapper)
    requires
        old(dom).wf(),
        node < old(dom)@.len(),
        can_register(old(registry)@.ids, node),
    ensures
        final(dom).wf(),
        final(dom)@ == html_target(old(dom)@, node).0,
        final(registry)@ == (RegistryView {
            ids: registered(old(registry)@.ids, node),
            ..old(registry)@
        }),
        res.describes(old(dom)@, node, id_of(old(registry)@.ids, node)),
{
    let ghost d = dom@;
    let node_id = registry.register(node);
    let backend = SyntheticShadowTreeBackend;
    let node_kind = node_type(dom, node);
    let name = node_name(dom, node);
    let has_host = backend.is_shadow_root(dom, node);
    let has_data = match dom.node(node) {
        Node::Text(_) | Node::Comment(_) => true,
        _ => false,
    };
    let has_assigned = tagged(dom, node, "slot");
    let prototype = prototype_for(dom, node);
    let element = match dom.node(node) {
        Node::Element(el) => if text_eq(el.tag_name.as_str(), "#document-fragment") {
            None
        } else {
            Some(element_properties(el.tag_name.as_str(), &el.attributes))
        },
        _ => None,
    };
    let is_iframe = tagged(dom, node, "iframe");
    let hooks = hooks_for(dom, node);
    let is_template = tagged(dom, node, "template");
    let target = inner_html_target(dom, node);
    let content = if is_template {
        Some(target)
    } else {
        None
    };
    Wrapper {
        node_id,
        node_type: node_kind,
        node_name: name,
        has_host,
        has_data,
        has_assigned,
        prototype,
        element,
        is_iframe,
        content,
        hooks,
    }
}

/// Why an element gets no internals.
#[derive(Clone, Copy, Debug, PartialEq, Eq, Structural)]
pub enum InternalsError {
    /// Its definition does not associate it with forms.
    NotFormAssociated,
    /// It has internals already.
    AlreadyAttached,
}

impl InternalsError {
    /// The name of the exception that the rejection raises.
    pub fn exception_name(self) -> (res: &'static str)
        ensures
            res@ == "NotSupportedError"@,
    {
        "NotSupportedError"
    }

    /// The message of the exception that the rejection raises.
    pub fn message(self) -> (res: &'static str)
        ensures
            res@ == (match self {
                InternalsError::NotFormAssociated =>
                "attachInternals requires a form-associated custom element"@,
                InternalsError::AlreadyAttached =>
                "attachInternals has already been called on this element"@,
            }),
    {
        match self {
            InternalsError::NotFormAssociated =>
            "attachInternals requires a form-associated custom element",
            InternalsError::AlreadyAttached =>
            "attachInternals has already been called on this element",
        }
    }
}

/// The tag name of an element; other nodes have an empty one.
pub open spec fn tag_or_empty(n: NodeView) -> Seq<char> {
    match n {
        NodeView::Element(el) => el.tag_name,
        _ => Seq::empty(),
    }
}

/// Whether elements with that name are associated with forms.
pub open spec fn associates(ce: CeView, tag: Seq<char>) -> bool {
    latest(ce.definitions, tag) is Some && ce.definitions[latest(
        ce.definitions,
        tag,
    )->0].form_associated
}

/// `element.attachInternals()`: gives the element internals, once, if its
/// definition associates it with forms. The result is the id of the element.
pub fn attach_internals(registry: &mut NodeRegistry, dom: &Dom, node: NodePtr) -> (res: Result<
    u32,
    InternalsError,
>)
    requires
        node < dom@.len(),
        can_register(old(registry)@.ids, node),
    ensures
        ({
            let v = old(registry)@;
            let id = id_of(v.ids, node);
            let w = RegistryView { ids: registered(v.ids, node), ..v };
            if !associates(v.ce, tag_or_empty(dom@[node as int])) {
                &&& res == Err::<u32, InternalsError>(InternalsError::NotFormAssociated)
                &&& final(registry)@ == v
            } else if v.ce.internals.contains_key(id) {
                &&& res == Err::<u32, InternalsError>(InternalsError::AlreadyAttached)
                &&& final(registry)@ == w
            } else {
                &&& res == Ok::<u32, InternalsError>(id)
                &&& final(registry)@ == (RegistryView {
                    ce: CeView {
                        internals: v.ce.internals.insert(
                            id,
                            InternalsView {
                                value: None,
                                valid: true,
                                validation_message: Seq::empty(),
                            },
                        ),
                        ..v.ce
                    },
                    ..w
                })
            }
        }),
{
    let tag = match dom.node(node) {
        Node::Element(el) => el.tag_name.clone(),
        _ => String::new(),
    };
    assert(tag@ =~= tag_or_empty(dom@[node as int]));
    if !registry.ce_registry().is_form_associated(tag.as_str()) {
        return Err(InternalsError::NotFormAssociated);
    }
    let id = registry.register(node);
    if registry.ce_registry().has_element_internals(id) {
        return Err(InternalsError::AlreadyAttached);
    }
    registry.custom_elements().create_element_internals(id);
    Ok(id)
}

/// Whether the flags handed to `setValidity` leave the element valid: none of
/// them is set.
pub fn flags_valid(flags: &Vec<bool>) -> (res: bool)
    ensures
        res == !flags@.contains(true),
{
    let mut i: usize = 0;
    while i < flags.len()
        invariant
            i <= flags.len(),
            forall|j: int| 0 <= j < i ==> !#[trigger] flags@[j],
        decreases flags.len() - i,
    {
        if flags[i] {
            assert(flags@[i as int]);
            return false;
        }
        i = i + 1;
    }
    true
}

/// A shadow root that script attached.
#[derive(Clone, Copy, Debug, PartialEq, Eq, Structural)]
pub struct AttachedShadow {
    pub root: NodePtr,
    pub id: u32,
    /// Whether the host shows the root as its `shadowRoot`.
    pub open: bool,
}

/// The shadow mode that an options object asks for; `open` if it asks for none.
pub fn shadow_mode(asked: Option<&str>) -> (res: String)
    ensures
        res@ == (match asked {
            Some(mode) => mode@,
            None => "open"@,
        }),
{
    match asked {
        Some(mode) => mode.to_string(),
        None => "open".to_string(),
    }
}

/// `element.attachShadow({ mode })` of a document that is not rendered.
pub fn attach_shadow(registry: &mut NodeRegistry, dom: &mut Dom, host: NodePtr, mode: &str) -> (res:
    AttachedShadow)
    requires
        old(dom).wf(),
        host < old(dom)@.len(),
        ({
            let root = attached_root(old(dom)@, host);
            let m = DomMutation::AttachShadow { host, shadow_root: root, mode };
            can_mutate(old(registry)@, attached(old(dom)@, host), m)
        }),
    ensures
        final(dom).wf(),
        ({
            let root = attached_root(old(dom)@, host);
            let m = DomMutation::AttachShadow { host, shadow_root: root, mode };
            let d = attached(old(dom)@, host);
            let v = mutated(old(registry)@, d, m, no_replies());
            &&& final(dom)@ == linked_dom(d, m)
            &&& final(registry)@ == (RegistryView { ids: registered(v.ids, root), ..v })
            &&& res == (AttachedShadow {
                root,
                id: id_of(v.ids, root),
                open: mode@ == "open"@,
            })
        }),
{
    let backend = SyntheticShadowTreeBackend;
    let root = backend.attach_shadow(dom, host, mode);
    let ghost d = dom@;
    let ghost v = registry@;
    let m = DomMutation::AttachShadow { host, shadow_root: root, mode };
    let _ = apply_dom_mutation(registry, dom, &m, &no_forms);
    proof {
        let r = choose|r: FormReplies| #[trigger]
            replied(no_forms, v, d, m, r) && registry@ == mutated(v, d, m, r);
        lemma_quiet(v, d, m, r);
    }
    let id = registry.register(root);
    AttachedShadow { root, id, open: text_eq(mode, "open") }
}

/// Whether `root` can become the shadow root of `host`.
pub open spec fn adoptable(d: DomView, host: NodePtr, root: NodePtr) -> bool {
    is_fragment(d[root as int]) && d[host as int] is Element
}

/// Makes the fragment `root` the shadow root of `host`, in a document that is
/// not rendered. The result says whether it did.
pub fn adopt_shadow_root(
    registry: &mut NodeRegistry,
    dom: &mut Dom,
    host: NodePtr,
    root: NodePtr,
    mode: &str,
) -> (res: bool)
    requires
        old(dom).wf(),
        host < old(dom)@.len(),
        root < old(dom)@.len(),
        adoptable(old(dom)@, host, root) ==> {
            &&& finite_from(rehosted(old(dom)@, host, root), root, Reach::All)
            &&& can_mutate(
                old(registry)@,
                adopted_root(old(dom)@, host, root),
                DomMutation::AttachShadow { host, shadow_root: root, mode },
            )
        },
    ensures
        final(dom).wf(),
        res == adoptable(old(dom)@, host, root),
        res ==> ({
            let m = DomMutation::AttachShadow { host, shadow_root: root, mode };
            let d = adopted_root(old(dom)@, host, root);
            &&& final(dom)@ == linked_dom(d, m)
            &&& final(registry)@ == mutated(old(registry)@, d, m, no_replies())
        }),
        !res ==> {
            &&& final(dom)@ == (if is_fragment(old(dom)@[root as int]) {
                released(old(dom)@, host, root)
            } else {
                old(dom)@
            })
            &&& final(registry)@ == old(registry)@
        },
{
    let backend = SyntheticShadowTreeBackend;
    if !backend.adopt_shadow_root(dom, host, root) {
        return false;
    }
    let ghost d = dom@;
    let ghost v = registry@;
    let m = DomMutation::AttachShadow { host, shadow_root: root, mode };
    let (result, _) = apply_dom_mutation(registry, dom, &m, &no_forms);
    proof {
        let r = choose|r: FormReplies| #[trigger]
            replied(no_forms, v, d, m, r) && registry@ == mutated(v, d, m, r);
        lemma_quiet(v, d, m, r);
    }
    result.render_synced
}

/// A box metric that scripts ask for by name.
#[derive(Clone, Copy, Debug, PartialEq, Eq, Structural)]
pub enum Metric {
    Width,
    Height,
    X,
    Y,
}

/// The metric with that name.
pub open spec fn metric_named(name: Seq<char>) -> Option<Metric> {
    if name == "offsetWidth"@ || name == "clientWidth"@ || name == "scrollWidth"@ {
        Some(Metric::Width)
    } else if name == "offsetHeight"@ || name == "clientHeight"@ || name == "scrollHeight"@ {
        Some(Metric::Height)
    } else if name == "offsetLeft"@ || name == "x"@ || name == "left"@ {
        Some(Metric::X)
    } else if name == "offsetTop"@ || name == "y"@ || name == "top"@ {
        Some(Metric::Y)
    } else {
        None
    }
}

/// The metric with the name `name`; others are 0.
pub fn layout_metric(name: &str) -> (res: Option<Metric>)
    ensures
        res == metric_named(name@),
{
    if text_eq(name, "offsetWidth") || text_eq(name, "clientWidth") || text_eq(name, "scrollWidth") {
        Some(Metric::Width)
    } else if text_eq(name, "offsetHeight") || text_eq(name, "clientHeight") || text_eq(
        name,
        "scrollHeight",
    ) {
        Some(Metric::Height)
    } else if text_eq(name, "offsetLeft") || text_eq(name, "x") || text_eq(name, "left") {
        Some(Metric::X)
    } else if text_eq(name, "offsetTop") || text_eq(name, "y") || text_eq(name, "top") {
        Some(Metric::Y)
    } else {
        None
    }
}

} // verus!

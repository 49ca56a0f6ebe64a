//! What attaching and adopting shadow roots come to.

use crate::dom::node::{attribute_of, children_of, parent_of, shadow_root_of, DomView, NodePtr,
    NodeView};
use crate::dom::shadow::{attached, attached_root, rehosted};
use crate::js::mutation::lemma_filter_is_without;
use vstd::prelude::*;

verus! {

/// A host that had no shadow root gets a new one, without children and with the
/// host as its parent. A host keeps its children and all else, and no other node
/// changes.
pub proof fn law_attached_roots_are_new_and_empty(d: DomView, host: NodePtr, name: Seq<char>)
    requires
        host < d.len(),
        d.len() < usize::MAX,
        d[host as int] is Element,
        shadow_root_of(d[host as int]) is None,
    ensures
        ({
            let e = attached(d, host);
            let root = attached_root(d, host);
            &&& root == d.len()
            &&& e.len() == d.len() + 1
            &&& shadow_root_of(e[host as int]) == Some(root)
            &&& e[root as int] matches NodeView::Element(el) && el.tag_name
                == "#document-fragment"@
            &&& children_of(e[root as int]).len() == 0
            &&& parent_of(e[root as int]) == Some(host)
            &&& children_of(e[host as int]) == children_of(d[host as int])
            &&& parent_of(e[host as int]) == parent_of(d[host as int])
            &&& attribute_of(e[host as int], name) == attribute_of(d[host as int], name)
            &&& forall|i: int| 0 <= i < d.len() && i != host ==> #[trigger] e[i] == d[i]
        }),
{
}

/// A fragment that is adopted becomes the host's shadow root, with the host as its
/// parent. Another parent it had loses it, a root that the host had before has no
/// parent any more, and no other node changes.
pub proof fn law_adopted_roots_change_hosts(d: DomView, host: NodePtr, root: NodePtr)
    requires
        host < d.len(),
        root < d.len(),
        host != root,
        d[host as int] is Element,
        d[root as int] is Element,
        parent_of(d[root as int]) matches Some(p) ==> p < d.len() && p != root,
        shadow_root_of(d[host as int]) matches Some(previous) ==> previous < d.len() && previous
            != host && d[previous as int] is Element,
    ensures
        ({
            let e = rehosted(d, host, root);
            let from = parent_of(d[root as int]);
            let before = shadow_root_of(d[host as int]);
            &&& e.len() == d.len()
            &&& shadow_root_of(e[host as int]) == Some(root)
            &&& parent_of(e[root as int]) == Some(host)
            &&& children_of(e[root as int]) == children_of(d[root as int])
            &&& children_of(e[host as int]) == children_of(d[host as int])
            &&& from matches Some(p) ==> p != host && d[p as int] is Element ==> children_of(
                e[p as int],
            ) == children_of(d[p as int]).filter(|x: NodePtr| x != root)
            &&& before matches Some(previous) ==> previous != root ==> parent_of(
                e[previous as int],
            ) is None
            &&& forall|n: NodePtr|
                n < d.len() && n != host && n != root && from != Some(n) && before != Some(n)
                    ==> #[trigger] e[n as int] == d[n as int]
        }),
{
    if let Some(p) = parent_of(d[root as int]) {
        lemma_filter_is_without(children_of(d[p as int]), root);
    }
}

} // verus!

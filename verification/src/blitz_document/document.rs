//! The state of the render document: health, mutation trace and node maps.

use crate::blitz_document::maps::Mirror;
use crate::blitz_document::render::{RenderTree, RenderView};
use crate::blitz_document::validate::{forward, forward_ready, integrity_fault,
    validate_mirror_integrity_for, MirrorIntegrityError};
use crate::dom::node::{parent_of, parent_ptr, Dom, DomView, NodePtr};
use crate::dom::shadow::{is_root_at, ShadowTreeBackend, SyntheticShadowTreeBackend};
use crate::order::in_increasing_order;
use std::collections::BTreeMap;
use vstd::prelude::*;

verus! {

broadcast use vstd::std_specs::btree::group_btree_axioms;

/// How many failures in a row make a document unhealthy.
pub const MAX_CONSECUTIVE_PANICS: u32 = 5;

#[derive(Debug, Clone, Copy, PartialEq, Eq, Structural)]
pub enum MirrorMutationResult {
    Succeeded,
    Failed,
}

#[derive(Debug, Clone, Copy, PartialEq, Eq, Structural)]
pub enum MirrorMutationFailure {
    MissingMapping,
    SyncOperationFailed,
    DebugValidationFailed,
}

/// The record of one change of the mirror.
#[derive(Debug, Clone, Copy)]
pub struct MirrorMutationTrace {
    pub op_id: u64,
    pub op_name: &'static str,
    pub legacy_node: Option<usize>,
    pub blitz_node: Option<usize>,
    pub parent: Option<usize>,
    pub child: Option<usize>,
    pub shadow_root: bool,
    pub result: MirrorMutationResult,
    pub failure: Option<MirrorMutationFailure>,
}

/// What the trace of a change says of it, whether it succeeds or fails. The
/// rendered node is reported apart, because it differs by phase.
#[derive(Debug, Clone, Copy)]
pub struct MirrorOp {
    pub op_name: &'static str,
    pub legacy_node: Option<usize>,
    pub parent: Option<usize>,
    pub child: Option<usize>,
    pub shadow_root: bool,
}

/// A change of a single node.
pub open spec fn op_for_node(op_name: &'static str, d: DomView, node: NodePtr) -> MirrorOp {
    MirrorOp {
        op_name,
        legacy_node: Some(node),
        parent: parent_of(d[node as int]),
        child: None,
        shadow_root: is_root_at(d, node),
    }
}

/// A change of a whole child list.
pub open spec fn op_for_parent(op_name: &'static str, d: DomView, parent: NodePtr) -> MirrorOp {
    MirrorOp {
        op_name,
        legacy_node: Some(parent),
        parent: Some(parent),
        child: None,
        shadow_root: is_root_at(d, parent),
    }
}

impl MirrorOp {
    /// A change of a single node: the node is the subject, its parent is
    /// context.
    pub fn for_node(op_name: &'static str, dom: &Dom, node: NodePtr) -> (res: Self)
        requires
            dom.wf(),
            node < dom@.len(),
        ensures
            res == op_for_node(op_name, dom@, node),
    {
        MirrorOp {
            op_name,
            legacy_node: Some(node),
            parent: parent_ptr(dom, node),
            child: None,
            shadow_root: SyntheticShadowTreeBackend.is_shadow_root(dom, node),
        }
    }

    /// A change of a whole child list: the parent is subject and context.
    pub fn for_parent(op_name: &'static str, dom: &Dom, parent: NodePtr) -> (res: Self)
        requires
            dom.wf(),
            parent < dom@.len(),
        ensures
            res == op_for_parent(op_name, dom@, parent),
    {
        MirrorOp {
            op_name,
            legacy_node: Some(parent),
            parent: Some(parent),
            child: None,
            shadow_root: SyntheticShadowTreeBackend.is_shadow_root(dom, parent),
        }
    }
}

/// What became of a frame.
#[derive(Debug, Clone, Copy, PartialEq, Eq, Structural)]
#[must_use]
pub enum PaintResult {
    PaintedCurrentFrame,
    PreservedLastGoodFrame,
    FailedRecoverable,
    FailedUnhealthy,
}

/// The document as the renderer sees it.
#[derive(Debug)]
pub struct BlitzDocument {
    pub healthy: bool,
    pub consecutive_panics: u32,
    pub next_mirror_op_id: u64,
    pub last_mirror_mutation: Option<MirrorMutationTrace>,
    pub legacy_to_blitz: BTreeMap<usize, usize>,
    pub blitz_to_legacy: BTreeMap<usize, NodePtr>,
}

/// The view of [`BlitzDocument`].
#[verifier::ext_equal]
pub struct BlitzState {
    pub healthy: bool,
    pub consecutive_panics: u32,
    pub next_mirror_op_id: u64,
    pub last_mirror_mutation: Option<MirrorMutationTrace>,
    pub to_blitz: Map<usize, usize>,
    pub to_legacy: Map<usize, NodePtr>,
}

impl View for BlitzDocument {
    type V = BlitzState;

    open spec fn view(&self) -> BlitzState {
        BlitzState {
            healthy: self.healthy,
            consecutive_panics: self.consecutive_panics,
            next_mirror_op_id: self.next_mirror_op_id,
            last_mirror_mutation: self.last_mirror_mutation,
            to_blitz: self.legacy_to_blitz@,
            to_legacy: self.blitz_to_legacy@,
        }
    }
}

/// The maps of a document together with the nodes.
pub open spec fn mirror_of(s: BlitzState, d: DomView) -> Mirror {
    Mirror { dom: d, to_blitz: s.to_blitz, to_legacy: s.to_legacy }
}

/// The document after an attempt at rendering: a success clears the count of
/// failures, and one failure too many makes the document unhealthy.
pub open spec fn attempted(s: BlitzState, succeeded: bool) -> BlitzState {
    if succeeded {
        BlitzState { consecutive_panics: 0, ..s }
    } else {
        BlitzState {
            consecutive_panics: (s.consecutive_panics + 1) as u32,
            healthy: s.healthy && s.consecutive_panics + 1 < MAX_CONSECUTIVE_PANICS,
            ..s
        }
    }
}

/// The document after a frame: painting it restores health.
pub open spec fn painted(s: BlitzState, succeeded: bool) -> BlitzState {
    if succeeded {
        BlitzState { healthy: true, consecutive_panics: 0, ..s }
    } else {
        attempted(s, false)
    }
}

/// What a failed frame is reported as.
pub open spec fn failure_result(s: BlitzState) -> PaintResult {
    if s.healthy {
        PaintResult::FailedRecoverable
    } else {
        PaintResult::FailedUnhealthy
    }
}

/// The document after a change has been recorded.
pub open spec fn recorded(
    s: BlitzState,
    op: MirrorOp,
    blitz_node: Option<usize>,
    result: MirrorMutationResult,
    failure: Option<MirrorMutationFailure>,
) -> BlitzState {
    BlitzState {
        next_mirror_op_id: (s.next_mirror_op_id + 1) as u64,
        last_mirror_mutation: Some(
            MirrorMutationTrace {
                op_id: s.next_mirror_op_id,
                op_name: op.op_name,
                legacy_node: op.legacy_node,
                blitz_node,
                parent: op.parent,
                child: op.child,
                shadow_root: op.shadow_root,
                result,
                failure,
            },
        ),
        ..s
    }
}

/// The document after a change that was not carried out.
pub open spec fn recorded_failure(s: BlitzState, op: MirrorOp, failure: MirrorMutationFailure) -> BlitzState {
    recorded(s, op, None, MirrorMutationResult::Failed, Some(failure))
}

/// The document after a change has been carried out or not. A change that was
/// carried out is held against the mirror, where a view of the renderer's tree
/// is at hand.
pub open spec fn finished(
    s: BlitzState,
    d: DomView,
    op: MirrorOp,
    blitz_node: Option<usize>,
    updated: bool,
    tree: Option<RenderView>,
) -> BlitzState {
    if !updated {
        recorded(
            s,
            op,
            blitz_node,
            MirrorMutationResult::Failed,
            Some(MirrorMutationFailure::SyncOperationFailed),
        )
    } else {
        let calm = BlitzState { consecutive_panics: 0, ..s };
        if tree is Some && integrity_fault(op.op_name@, mirror_of(s, d), tree->0) is Some {
            recorded(
                calm,
                op,
                blitz_node,
                MirrorMutationResult::Failed,
                Some(MirrorMutationFailure::DebugValidationFailed),
            )
        } else {
            recorded(calm, op, blitz_node, MirrorMutationResult::Succeeded, None)
        }
    }
}

/// The nodes after a change has been carried out or not.
pub open spec fn finished_dom(
    s: BlitzState,
    d: DomView,
    op: MirrorOp,
    updated: bool,
    tree: Option<RenderView>,
) -> DomView {
    if updated && tree is Some {
        forward(
            op.op_name@,
            mirror_of(s, d),
            tree->0,
            in_increasing_order(s.to_blitz.dom()),
        ).dom
    } else {
        d
    }
}

/// The view of a tree that may be absent.
pub open spec fn tree_view(tree: Option<&RenderTree>) -> Option<RenderView> {
    match tree {
        Some(t) => Some(t@),
        None => None,
    }
}

impl BlitzDocument {
    /// A document that renders nothing yet.
    pub fn new() -> (res: Self)
        ensures
            res@ == (BlitzState {
                healthy: true,
                consecutive_panics: 0,
                next_mirror_op_id: 1,
                last_mirror_mutation: None,
                to_blitz: Map::empty(),
                to_legacy: Map::empty(),
            }),
    {
        BlitzDocument {
            healthy: true,
            consecutive_panics: 0,
            next_mirror_op_id: 1,
            last_mirror_mutation: None,
            legacy_to_blitz: BTreeMap::new(),
            blitz_to_legacy: BTreeMap::new(),
        }
    }

    /// Takes note of a resolved or resized document. Once unhealthy, a document
    /// is not resolved or resized again: check `healthy` before.
    pub fn finish_attempt(&mut self, succeeded: bool) -> (res: bool)
        requires
            old(self)@.healthy,
            old(self)@.consecutive_panics < u32::MAX,
        ensures
            final(self)@ == attempted(old(self)@, succeeded),
            res == succeeded,
    {
        if succeeded {
            self.consecutive_panics = 0;
        } else {
            self.consecutive_panics = self.consecutive_panics + 1;
            if self.consecutive_panics >= MAX_CONSECUTIVE_PANICS {
                self.healthy = false;
            }
        }
        assert(self@ =~= attempted(old(self)@, succeeded));
        succeeded
    }

    /// Takes note of a frame and says what became of it.
    pub fn finish_paint_attempt(&mut self, painted: bool) -> (res: PaintResult)
        requires
            old(self)@.consecutive_panics < u32::MAX,
        ensures
            final(self)@ == self::painted(old(self)@, painted),
            res == (if painted {
                PaintResult::PaintedCurrentFrame
            } else {
                failure_result(final(self)@)
            }),
    {
        if painted {
            self.healthy = true;
            self.consecutive_panics = 0;
            assert(self@ =~= self::painted(old(self)@, painted));
            PaintResult::PaintedCurrentFrame
        } else {
            self.consecutive_panics = self.consecutive_panics + 1;
            if self.consecutive_panics >= MAX_CONSECUTIVE_PANICS {
                self.healthy = false;
            }
            assert(self@ =~= self::painted(old(self)@, painted));
            self.paint_failure_result()
        }
    }

    /// What a failed frame is reported as.
    pub fn paint_failure_result(&self) -> (res: PaintResult)
        ensures
            res == failure_result(self@),
    {
        if self.healthy {
            PaintResult::FailedRecoverable
        } else {
            PaintResult::FailedUnhealthy
        }
    }

    /// The id of the rendered node of `node`.
    pub fn blitz_node_id_for_dom(&self, node: NodePtr) -> (res: Option<usize>)
        ensures
            res == self@.to_blitz.get(node),
    {
        match self.legacy_to_blitz.get(&node) {
            Some(id) => Some(*id),
            None => None,
        }
    }

    /// The node that a rendered node stands for.
    pub fn dom_node_for_blitz_id(&self, node_id: usize) -> (res: Option<NodePtr>)
        ensures
            res == self@.to_legacy.get(node_id),
    {
        match self.blitz_to_legacy.get(&node_id) {
            Some(n) => Some(*n),
            None => None,
        }
    }

    /// The record of the latest change.
    pub fn last_mirror_mutation_trace(&self) -> (res: Option<&MirrorMutationTrace>)
        ensures
            match res {
                Some(trace) => self@.last_mirror_mutation == Some(*trace),
                None => self@.last_mirror_mutation is None,
            },
    {
        match &self.last_mirror_mutation {
            Some(trace) => Some(trace),
            None => None,
        }
    }

    /// Checks the whole mirror against a view of the renderer's tree.
    pub fn validate_mirror_integrity(&self, dom: &mut Dom, tree: &RenderTree) -> (res: Result<
        (),
        MirrorIntegrityError,
    >)
        requires
            old(dom).wf(),
            forward_ready(
                "manual validation"@,
                mirror_of(self@, old(dom)@),
                tree@,
                in_increasing_order(self@.to_blitz.dom()),
            ),
        ensures
            final(dom).wf(),
            crate::blitz_document::validate::reports(
                res,
                integrity_fault("manual validation"@, mirror_of(self@, old(dom)@), tree@),
            ),
            final(dom)@ == forward(
                "manual validation"@,
                mirror_of(self@, old(dom)@),
                tree@,
                in_increasing_order(self@.to_blitz.dom()),
            ).dom,
    {
        validate_mirror_integrity_for(
            dom,
            tree,
            &self.legacy_to_blitz,
            &self.blitz_to_legacy,
            "manual validation",
        )
    }

    /// Records a change.
    pub fn record_mirror_mutation(
        &mut self,
        op: &MirrorOp,
        blitz_node: Option<usize>,
        result: MirrorMutationResult,
        failure: Option<MirrorMutationFailure>,
    )
        requires
            old(self)@.next_mirror_op_id < u64::MAX,
        ensures
            final(self)@ == recorded(old(self)@, *op, blitz_node, result, failure),
    {
        let trace = MirrorMutationTrace {
            op_id: self.next_mirror_op_id,
            op_name: op.op_name,
            legacy_node: op.legacy_node,
            blitz_node,
            parent: op.parent,
            child: op.child,
            shadow_root: op.shadow_root,
            result,
            failure,
        };
        self.next_mirror_op_id = self.next_mirror_op_id + 1;
        self.last_mirror_mutation = Some(trace);
    }

    /// Records a change that was not carried out.
    pub fn record_mirror_failure(&mut self, op: &MirrorOp, failure: MirrorMutationFailure)
        requires
            old(self)@.next_mirror_op_id < u64::MAX,
        ensures
            final(self)@ == recorded_failure(old(self)@, *op, failure),
    {
        self.record_mirror_mutation(op, None, MirrorMutationResult::Failed, Some(failure));
    }

    /// Records whether a change was carried out and, where a view of the
    /// renderer's tree is given, whether the mirror is intact after it.
    pub fn finish_mirror_mutation(
        &mut self,
        dom: &mut Dom,
        op: &MirrorOp,
        blitz_node: Option<usize>,
        updated: bool,
        tree: Option<&RenderTree>,
    )
        requires
            old(dom).wf(),
            old(self)@.next_mirror_op_id < u64::MAX,
            updated && tree is Some ==> forward_ready(
                op.op_name@,
                mirror_of(old(self)@, old(dom)@),
                tree->0@,
                in_increasing_order(old(self)@.to_blitz.dom()),
            ),
        ensures
            final(dom).wf(),
            final(self)@ == finished(
                old(self)@,
                old(dom)@,
                *op,
                blitz_node,
                updated,
                tree_view(tree),
            ),
            final(dom)@ == finished_dom(old(self)@, old(dom)@, *op, updated, tree_view(tree)),
    {
        if updated {
            self.consecutive_panics = 0;
            let validation_failed = match tree {
                Some(t) => validate_mirror_integrity_for(
                    dom,
                    t,
                    &self.legacy_to_blitz,
                    &self.blitz_to_legacy,
                    op.op_name,
                ).is_err(),
                None => false,
            };
            if validation_failed {
                self.record_mirror_mutation(
                    op,
                    blitz_node,
                    MirrorMutationResult::Failed,
                    Some(MirrorMutationFailure::DebugValidationFailed),
                );
            } else {
                self.record_mirror_mutation(
                    op,
                    blitz_node,
                    MirrorMutationResult::Succeeded,
                    None,
                );
            }
        } else {
            self.record_mirror_mutation(
                op,
                blitz_node,
                MirrorMutationResult::Failed,
                Some(MirrorMutationFailure::SyncOperationFailed),
            );
        }
    }
}

/// The document after `n` frames that failed in a row.
pub open spec fn failed_frames(s: BlitzState, n: nat) -> BlitzState
    decreases n,
{
    if n == 0 {
        s
    } else {
        painted(failed_frames(s, (n - 1) as nat), false)
    }
}

/// Failed frames are recoverable until there are as many in a row as the limit
/// allows; from then on the document is unhealthy, until a frame is painted.
pub proof fn law_failed_frames_trip_the_breaker(s: BlitzState, n: nat)
    requires
        s.healthy,
        s.consecutive_panics == 0,
        n <= u32::MAX,
    ensures
        failed_frames(s, n).healthy == (n < MAX_CONSECUTIVE_PANICS),
        painted(failed_frames(s, n), true).healthy,
        painted(failed_frames(s, n), true).consecutive_panics == 0,
    decreases n,
{
    lemma_failed_frames(s, n);
}

proof fn lemma_failed_frames(s: BlitzState, n: nat)
    requires
        s.healthy,
        s.consecutive_panics == 0,
        n <= u32::MAX,
    ensures
        failed_frames(s, n).consecutive_panics == n,
        failed_frames(s, n).healthy == (n < MAX_CONSECUTIVE_PANICS),
    decreases n,
{
    if n > 0 {
        lemma_failed_frames(s, (n - 1) as nat);
    }
}

/// Two changes in a row have consecutive numbers, whatever becomes of them.
pub proof fn law_trace_numbers_are_consecutive(
    s: BlitzState,
    d: DomView,
    e: DomView,
    first: MirrorOp,
    second: MirrorOp,
    a: Option<usize>,
    b: Option<usize>,
    x: bool,
    y: bool,
    t: Option<RenderView>,
    u: Option<RenderView>,
)
    requires
        s.next_mirror_op_id < u64::MAX - 1,
    ensures
        ({
            let once = finished(s, d, first, a, x, t);
            let twice = finished(once, e, second, b, y, u);
            once.last_mirror_mutation->0.op_id == s.next_mirror_op_id
                && twice.last_mirror_mutation->0.op_id == once.last_mirror_mutation->0.op_id + 1
        }),
{
}

} // verus!

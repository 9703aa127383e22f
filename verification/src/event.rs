//! Input-event vocabulary, event dispatch order along a hit-test path, and
//! keyboard focus and pointer capture management.
use crate::tree::{lemma_filter_no_duplicates, NodeId};
use std::collections::{HashMap, HashSet};
use vstd::prelude::*;

verus! {

broadcast use vstd::std_specs::hash::group_hash_axioms;

/// Identity of a pointer (mouse, pen or touch contact).
#[derive(Clone, Copy, Debug, PartialEq, Eq, Hash, Structural)]
pub struct PointerId(pub u64);

/// A pointer button.
#[derive(Clone, Copy, Debug, PartialEq, Eq, Structural)]
pub enum PointerButton {
    Primary,
    Secondary,
    Middle,
    Other(u16),
}

/// Keyboard modifier state.
#[derive(Clone, Copy, Debug, Default, PartialEq, Eq, Structural)]
pub struct Modifiers {
    pub shift: bool,
    pub control: bool,
    pub alt: bool,
    pub meta: bool,
}

/// A key press or release.
#[derive(Clone, Debug, PartialEq, Eq)]
pub struct KeyboardEvent {
    pub key: String,
    pub pressed: bool,
    pub repeat: bool,
    pub modifiers: Modifiers,
}

/// Index of a grapheme cluster within a text.
#[derive(Clone, Copy, Debug, PartialEq, Eq, PartialOrd, Ord, Structural)]
pub struct GraphemeIndex(pub usize);

/// An input-method event.
#[derive(Clone, Debug, PartialEq)]
pub enum ImeEvent {
    Enabled,
    Disabled,
    Preedit { value: String, cursor: Option<(GraphemeIndex, GraphemeIndex)> },
    Commit(String),
}

/// The phase in which a handler sees an event.
#[derive(Clone, Copy, Debug, PartialEq, Eq, Structural)]
pub enum EventPhase {
    Capture,
    Target,
    Bubble,
}

/// What a handler asks of the rest of the dispatch.
#[derive(Clone, Copy, Debug, Default, PartialEq, Eq, Structural)]
pub struct EventResult {
    pub stop_propagation: bool,
    pub prevent_default: bool,
}

/// The nodes under a point, outermost first; the last one is the target.
#[derive(Clone, Debug, Default, PartialEq, Eq)]
pub struct HitTestPath(pub Vec<NodeId>);

/// The handler calls of a full dispatch along `path`: every node but the
/// target in the capture phase, outermost first; the target; then the same
/// nodes in the bubble phase, innermost first. An empty path has none.
pub open spec fn dispatch_plan(path: Seq<NodeId>) -> Seq<(NodeId, EventPhase)> {
    if path.len() == 0 {
        Seq::empty()
    } else {
        let n = path.len() as int;
        Seq::new(
            (2 * n - 1) as nat,
            |i: int|
                if i < n - 1 {
                    (path[i], EventPhase::Capture)
                } else if i == n - 1 {
                    (path[n - 1], EventPhase::Target)
                } else {
                    (path[2 * n - 2 - i], EventPhase::Bubble)
                },
        )
    }
}

/// A dispatch along a non-empty path of `n` nodes makes `2n - 1` calls:
/// each node but the target in the capture phase, outermost first, then the
/// target, then the same nodes in the bubble phase, innermost first; a
/// one-node path calls just its target.
pub proof fn lemma_dispatch_reaches_target(path: Seq<NodeId>)
    requires
        path.len() > 0,
    ensures
        dispatch_plan(path).len() == 2 * path.len() - 1,
        dispatch_plan(path)[path.len() - 1] == (path[path.len() - 1], EventPhase::Target),
        forall|i: int| 0 <= i < path.len() - 1 ==> #[trigger] dispatch_plan(path)[i] == (path[i], EventPhase::Capture),
        forall|i: int|
            0 <= i < path.len() - 1 ==> #[trigger] dispatch_plan(path)[2 * path.len() - 2 - i] == (path[i], EventPhase::Bubble),
        path.len() == 1 ==> dispatch_plan(path) == seq![(path[0], EventPhase::Target)],
{
    if path.len() == 1 {
        assert(dispatch_plan(path) =~= seq![(path[0], EventPhase::Target)]);
    }
}

/// The dispatch of one event along a hit-test path, driven by whoever
/// calls the handlers: `next_call` names the next handler call, `record`
/// takes its result, `result` gives the outcome.
pub struct Dispatch {
    path: Vec<NodeId>,
    pos: usize,
    out: EventResult,
    stopped: bool,
}

impl Dispatch {
    /// The handler calls still to make.
    pub closed spec fn plan(&self) -> Seq<(NodeId, EventPhase)> {
        dispatch_plan(self.path@)
    }

    /// How many handler calls were recorded.
    pub closed spec fn calls_made(&self) -> nat {
        self.pos as nat
    }

    /// Whether a handler stopped the propagation.
    pub closed spec fn is_stopped(&self) -> bool {
        self.stopped
    }

    /// The outcome so far.
    pub closed spec fn outcome(&self) -> EventResult {
        self.out
    }

    /// Consistent bookkeeping.
    pub closed spec fn wf(&self) -> bool {
        &&& self.pos <= dispatch_plan(self.path@).len()
        &&& self.out.stop_propagation == self.stopped
        &&& self.path@.len() <= usize::MAX / 2
    }

    /// A dispatch along `path` with no handler called yet.
    pub fn new(path: HitTestPath) -> (r: Self)
        requires
            path.0@.len() <= usize::MAX / 2,
        ensures
            r.wf(),
            r.plan() == dispatch_plan(path.0@),
            r.calls_made() == 0,
            !r.is_stopped(),
            r.outcome() == (EventResult { stop_propagation: false, prevent_default: false }),
    {
        Dispatch {
            path: path.0,
            pos: 0,
            out: EventResult { stop_propagation: false, prevent_default: false },
            stopped: false,
        }
    }

    /// The next handler call to make, or `None` once the plan is done or a
    /// handler stopped the propagation.
    pub fn next_call(&self) -> (r: Option<(NodeId, EventPhase)>)
        requires
            self.wf(),
        ensures
            r == (if self.is_stopped() || self.calls_made() >= self.plan().len() {
                None
            } else {
                Some(self.plan()[self.calls_made() as int])
            }),
    {
        let n = self.path.len();
        if self.stopped || n == 0 || self.pos >= 2 * n - 1 {
            return None;
        }
        let i = self.pos;
        if i < n - 1 {
            Some((self.path[i], EventPhase::Capture))
        } else if i == n - 1 {
            Some((self.path[n - 1], EventPhase::Target))
        } else {
            Some((self.path[2 * n - 2 - i], EventPhase::Bubble))
        }
    }

    /// Takes the result of the call named by `next_call`: a requested
    /// default prevention sticks, and a stop ends the dispatch.
    pub fn record(&mut self, r: EventResult)
        requires
            old(self).wf(),
            !old(self).is_stopped(),
            old(self).calls_made() < old(self).plan().len(),
        ensures
            final(self).wf(),
            final(self).plan() == old(self).plan(),
            final(self).calls_made() == old(self).calls_made() + 1,
            final(self).is_stopped() == r.stop_propagation,
            final(self).outcome() == (EventResult {
                stop_propagation: r.stop_propagation,
                prevent_default: old(self).outcome().prevent_default || r.prevent_default,
            }),
    {
        self.out.prevent_default = self.out.prevent_default || r.prevent_default;
        if r.stop_propagation {
            self.stopped = true;
            self.out.stop_propagation = true;
        }
        self.pos = self.pos + 1;
    }

    /// The outcome of the dispatch.
    pub fn result(&self) -> (r: EventResult)
        ensures
            r == self.outcome(),
    {
        self.out
    }
}

} // verus!

verus! {

/// The focus cycle: the ids of `order` that may take focus, in order.
pub open spec fn focus_cycle(order: Seq<NodeId>, eligible: Set<u64>) -> Seq<NodeId> {
    order.filter(may_focus(eligible))
}

/// The test that a node may take focus.
pub open spec fn may_focus(eligible: Set<u64>) -> spec_fn(NodeId) -> bool {
    |id: NodeId| eligible.contains(id.0)
}

/// The test that a node is not `gone`.
pub open spec fn other_than(gone: NodeId) -> spec_fn(NodeId) -> bool {
    |x: NodeId| x != gone
}

/// Where focus moves from `focused` along `cycle`: to the next entry
/// after the first occurrence of the focused node (wrapping around), or the
/// previous one when `reverse`; from no focused node, or one not in the
/// cycle, to the first entry (the last when `reverse`). An empty cycle
/// leaves nothing focused.
pub open spec fn next_focus(cycle: Seq<NodeId>, focused: Option<NodeId>, reverse: bool) -> Option<NodeId> {
    if cycle.len() == 0 {
        None
    } else {
        let n = cycle.len() as int;
        let pos: Option<int> = match focused {
            Some(f) => cycle.index_of_first(f),
            None => None,
        };
        let next = match pos {
            Some(i) => if reverse {
                if i == 0 {
                    n - 1
                } else {
                    i - 1
                }
            } else {
                (i + 1) % n
            },
            None => if reverse {
                n - 1
            } else {
                0
            },
        };
        Some(cycle[next])
    }
}

/// Keyboard focus and pointer capture for one window.
pub struct FocusManager {
    focused: Option<NodeId>,
    order: Vec<NodeId>,
    eligible: HashSet<u64>,
    captures: HashMap<u64, u64>,
}

impl FocusManager {
    /// The focused node, if any.
    pub closed spec fn focused_node(&self) -> Option<NodeId> {
        self.focused
    }

    /// The nodes in focus order.
    pub closed spec fn order_ids(&self) -> Seq<NodeId> {
        self.order@
    }

    /// The raw ids of the nodes that may take focus.
    pub closed spec fn eligible_ids(&self) -> Set<u64> {
        self.eligible@
    }

    /// Pointer captures: raw pointer id to raw node id.
    pub closed spec fn capture_map(&self) -> Map<u64, u64> {
        self.captures@
    }

    /// The nodes that `focus_next` cycles through.
    pub open spec fn cycle(&self) -> Seq<NodeId> {
        focus_cycle(self.order_ids(), self.eligible_ids())
    }

    /// The node that captured pointer `p`, if any.
    pub open spec fn capture_of(&self, p: PointerId) -> Option<NodeId> {
        if self.capture_map().contains_key(p.0) {
            Some(NodeId(self.capture_map()[p.0]))
        } else {
            None
        }
    }

    /// Only a node that may take focus has it, and every node that may
    /// take focus is in the focus order.
    pub closed spec fn wf(&self) -> bool {
        &&& self.focused matches Some(f) ==> self.eligible@.contains(f.0)
        &&& forall|k: u64| #[trigger] self.eligible@.contains(k) ==> exists|i: int| 0 <= i < self.order@.len() && self.order@[i].0 == k
    }

    /// A manager with the focus order and eligible nodes of a well-formed
    /// one, and its focused node or none, is well formed.
    proof fn lemma_keeps_wf(&self, prev: FocusManager)
        requires
            prev.wf(),
            self.order@ == prev.order@,
            self.eligible@ == prev.eligible@,
            self.focused is None || self.focused == prev.focused,
        ensures
            self.wf(),
    {
        assert forall|k: u64| #[trigger] self.eligible@.contains(k) implies exists|i: int|
            0 <= i < self.order@.len() && self.order@[i].0 == k by {
            assert(prev.eligible@.contains(k));
            let i = choose|i: int| 0 <= i < prev.order@.len() && prev.order@[i].0 == k;
            assert(self.order@[i].0 == k);
        }
    }

    /// With no node twice in the focus order, moving focus forward and then
    /// backward with `focus_next`, or backward and then forward, gives it
    /// back to the node that had it.
    pub proof fn lemma_focus_next_round_trip(&self, reverse: bool)
        requires
            self.wf(),
            self.order_ids().no_duplicates(),
            self.focused_node() is Some,
        ensures
            next_focus(self.cycle(), next_focus(self.cycle(), self.focused_node(), reverse), !reverse) == self.focused_node(),
    {
        let f = self.focused_node()->Some_0;
        let order = self.order@;
        let i = choose|i: int| 0 <= i < order.len() && order[i].0 == f.0;
        assert(order[i] == f);
        order.lemma_filter_contains(may_focus(self.eligible@), i);
        lemma_cycle_no_duplicates(order, self.eligible@);
        lemma_focus_round_trip(self.cycle(), f);
    }

    /// The focused node is one that may take focus.
    pub proof fn lemma_focused_eligible(&self)
        requires
            self.wf(),
        ensures
            self.focused_node() matches Some(f) ==> self.eligible_ids().contains(f.0),
    {
    }

    /// No focus order, no focus, no capture.
    pub fn new() -> (r: Self)
        ensures
            r.wf(),
            r.focused_node() is None,
            r.order_ids() == Seq::<NodeId>::empty(),
            r.eligible_ids() == Set::<u64>::empty(),
            r.capture_map() == Map::<u64, u64>::empty(),
    {
        FocusManager { focused: None, order: Vec::new(), eligible: HashSet::new(), captures: HashMap::new() }
    }

    /// The focused node, if any.
    pub fn focused(&self) -> (r: Option<NodeId>)
        ensures
            r == self.focused_node(),
    {
        self.focused
    }

    /// Focuses `id` when it may take focus. Returns whether it did.
    pub fn request_focus(&mut self, id: NodeId) -> (r: bool)
        requires
            old(self).wf(),
        ensures
            final(self).wf(),
            r == old(self).eligible_ids().contains(id.0),
            final(self).focused_node() == (if r { Some(id) } else { old(self).focused_node() }),
            final(self).order_ids() == old(self).order_ids(),
            final(self).eligible_ids() == old(self).eligible_ids(),
            final(self).capture_map() == old(self).capture_map(),
    {
        if self.eligible.contains(&id.0) {
            self.focused = Some(id);
            proof {
                assert forall|k: u64| #[trigger] self.eligible@.contains(k) implies exists|i: int|
                    0 <= i < self.order@.len() && self.order@[i].0 == k by {
                    assert(old(self).eligible@.contains(k));
                    let i = choose|i: int| 0 <= i < old(self).order@.len() && old(self).order@[i].0 == k;
                    assert(self.order@[i].0 == k);
                }
            }
            true
        } else {
            false
        }
    }

    /// Drops the focus.
    pub fn clear_focus(&mut self)
        requires
            old(self).wf(),
        ensures
            final(self).wf(),
            final(self).focused_node() is None,
            final(self).order_ids() == old(self).order_ids(),
            final(self).eligible_ids() == old(self).eligible_ids(),
            final(self).capture_map() == old(self).capture_map(),
    {
        self.focused = None;
        proof {
            self.lemma_keeps_wf(*old(self));
        }
    }

    /// Pointer `p` is captured by node `id`.
    pub fn capture_pointer(&mut self, p: PointerId, id: NodeId)
        requires
            old(self).wf(),
        ensures
            final(self).wf(),
            final(self).capture_map() == old(self).capture_map().insert(p.0, id.0),
            final(self).focused_node() == old(self).focused_node(),
            final(self).order_ids() == old(self).order_ids(),
            final(self).eligible_ids() == old(self).eligible_ids(),
    {
        self.captures.insert(p.0, id.0);
        proof {
            self.lemma_keeps_wf(*old(self));
        }
    }

    /// The node that captured pointer `p`, if any.
    pub fn pointer_capture(&self, p: PointerId) -> (r: Option<NodeId>)
        ensures
            r == self.capture_of(p),
    {
        match self.captures.get(&p.0) {
            Some(v) => Some(NodeId(*v)),
            None => None,
        }
    }

    /// Pointer `p` is no longer captured.
    pub fn release_pointer(&mut self, p: PointerId)
        requires
            old(self).wf(),
        ensures
            final(self).wf(),
            final(self).capture_map() == old(self).capture_map().remove(p.0),
            final(self).focused_node() == old(self).focused_node(),
            final(self).order_ids() == old(self).order_ids(),
            final(self).eligible_ids() == old(self).eligible_ids(),
    {
        self.captures.remove(&p.0);
        proof {
            self.lemma_keeps_wf(*old(self));
        }
    }

    /// Replaces the focus order: `items` lists the nodes in order, each
    /// with whether it may take focus. A focused node that may no longer
    /// take focus loses it.
    pub fn set_order(&mut self, items: &[(NodeId, bool)])
        requires
            old(self).wf(),
        ensures
            final(self).wf(),
            final(self).order_ids() == items@.map_values(|p: (NodeId, bool)| p.0),
            forall|k: u64|
                #[trigger] final(self).eligible_ids().contains(k) <==> exists|i: int|
                    0 <= i < items@.len() && items@[i].0.0 == k && items@[i].1,
            final(self).focused_node() == (match old(self).focused_node() {
                Some(f) => if final(self).eligible_ids().contains(f.0) {
                    Some(f)
                } else {
                    None
                },
                None => None,
            }),
            final(self).capture_map() == old(self).capture_map(),
    {
        self.order.clear();
        self.eligible.clear();
        let mut i: usize = 0;
        while i < items.len()
            invariant
                0 <= i <= items@.len(),
                self.order@ == items@.take(i as int).map_values(|p: (NodeId, bool)| p.0),
                forall|k: u64|
                    #[trigger] self.eligible@.contains(k) <==> exists|j: int|
                        0 <= j < i && items@[j].0.0 == k && items@[j].1,
                self.captures@ == old(self).captures@,
                self.focused == old(self).focused,
            decreases items@.len() - i,
        {
            let (id, ok) = items[i];
            self.order.push(id);
            if ok {
                self.eligible.insert(id.0);
            }
            i += 1;
            proof {
                assert(self.order@ =~= items@.take(i as int).map_values(|p: (NodeId, bool)| p.0));
                assert forall|k: u64| #[trigger] self.eligible@.contains(k) <==> exists|j: int|
                    0 <= j < i && items@[j].0.0 == k && items@[j].1 by {
                    if self.eligible@.contains(k) && !(ok && k == id.0) {
                        let j = choose|j: int| 0 <= j < i - 1 && items@[j].0.0 == k && items@[j].1;
                    }
                    if exists|j: int| 0 <= j < i && items@[j].0.0 == k && items@[j].1 {
                        let j = choose|j: int| 0 <= j < i && items@[j].0.0 == k && items@[j].1;
                        if j < i - 1 {
                        } else {
                            assert(items@[j] == (id, ok));
                        }
                    }
                }
            }
        }
        proof {
            assert(items@.take(i as int) =~= items@);
        }
        match self.focused {
            Some(f) => {
                if !self.eligible.contains(&f.0) {
                    self.focused = None;
                }
            },
            None => {},
        }
        proof {
            assert forall|k: u64| #[trigger] self.eligible@.contains(k) implies exists|j: int|
                0 <= j < self.order@.len() && self.order@[j].0 == k by {
                let j = choose|j: int| 0 <= j < items@.len() && items@[j].0.0 == k && items@[j].1;
                assert(self.order@[j] == items@[j].0);
            }
        }
    }

    /// Moves focus to the next node of the focus cycle, or the previous one
    /// when `reverse`, wrapping around; returns the newly focused node.
    pub fn focus_next(&mut self, reverse: bool) -> (r: Option<NodeId>)
        requires
            old(self).wf(),
        ensures
            final(self).wf(),
            r == next_focus(old(self).cycle(), old(self).focused_node(), reverse),
            final(self).focused_node() == r,
            final(self).order_ids() == old(self).order_ids(),
            final(self).eligible_ids() == old(self).eligible_ids(),
            final(self).capture_map() == old(self).capture_map(),
    {
        let ghost pred = may_focus(self.eligible@);
        let mut cycle: Vec<NodeId> = Vec::new();
        let mut i: usize = 0;
        while i < self.order.len()
            invariant
                0 <= i <= self.order@.len(),
                pred == may_focus(self.eligible@),
                cycle@ == self.order@.take(i as int).filter(pred),
            decreases self.order@.len() - i,
        {
            let id = self.order[i];
            proof {
                self.order@.take(i as int).lemma_filter_push(id, pred);
                assert(self.order@.take(i + 1) == self.order@.take(i as int).push(id));
            }
            if self.eligible.contains(&id.0) {
                cycle.push(id);
            }
            i += 1;
        }
        proof {
            assert(self.order@.take(i as int) =~= self.order@);
            assert(cycle@ == self.cycle());
        }
        let n = cycle.len();
        if n == 0 {
            self.focused = None;
            return None;
        }
        let pos: Option<usize> = match self.focused {
            Some(f) => {
                let mut j: usize = 0;
                let mut found: Option<usize> = None;
                while j < n
                    invariant_except_break
                        n == cycle@.len(),
                        0 <= j <= n,
                        found is None,
                        forall|k: int| 0 <= k < j ==> cycle@[k] != f,
                    ensures
                        n == cycle@.len(),
                        found matches Some(x) ==> x < n && cycle@[x as int] == f && forall|k: int| 0 <= k < x ==> cycle@[k] != f,
                        found is None ==> forall|k: int| 0 <= k < n ==> cycle@[k] != f,
                    decreases n - j,
                {
                    if cycle[j] == f {
                        found = Some(j);
                        break;
                    }
                    j += 1;
                }
                proof {
                    cycle@.index_of_first_ensures(f);
                    match found {
                        Some(x) => {
                            assert(cycle@.contains(f));
                            let idx = cycle@.index_of_first(f)->0;
                            if idx < x {
                                assert(cycle@[idx] != f);
                            }
                            if x < idx {
                                assert(cycle@[x as int] != f);
                            }
                        },
                        None => {
                            assert(!cycle@.contains(f));
                        },
                    }
                }
                found
            },
            None => None,
        };
        let next: usize = match pos {
            Some(i) => {
                if reverse {
                    if i == 0 {
                        n - 1
                    } else {
                        i - 1
                    }
                } else {
                    (i + 1) % n
                }
            },
            None => {
                if reverse {
                    n - 1
                } else {
                    0
                }
            },
        };
        let chosen = cycle[next];
        proof {
            lemma_cycle_members(self.order@, self.eligible@, next as int);
        }
        self.focused = Some(chosen);
        proof {
            assert forall|k: u64| #[trigger] self.eligible@.contains(k) implies exists|i: int|
                0 <= i < self.order@.len() && self.order@[i].0 == k by {
                assert(old(self).eligible@.contains(k));
                let i = choose|i: int| 0 <= i < old(self).order@.len() && old(self).order@[i].0 == k;
                assert(self.order@[i].0 == k);
            }
        }
        self.focused
    }

    /// Forgets node `id`: it loses focus, leaves the focus order and may no
    /// longer take focus, and every pointer it captured is released.
    pub fn remove_node(&mut self, id: NodeId)
        requires
            old(self).wf(),
        ensures
            final(self).wf(),
            final(self).focused_node() == (if old(self).focused_node() == Some(id) {
                None
            } else {
                old(self).focused_node()
            }),
            final(self).eligible_ids() == old(self).eligible_ids().remove(id.0),
            final(self).order_ids() == old(self).order_ids().filter(other_than(id)),
            forall|k: u64|
                #[trigger] final(self).capture_map().contains_key(k) <==> (old(self).capture_map().contains_key(k)
                    && old(self).capture_map()[k] != id.0),
            forall|k: u64|
                #[trigger] final(self).capture_map().contains_key(k) ==> final(self).capture_map()[k]
                    == old(self).capture_map()[k],
    {
        match self.focused {
            Some(f) => {
                if f == id {
                    self.focused = None;
                }
            },
            None => {},
        }
        self.eligible.remove(&id.0);
        let ghost pred = other_than(id);
        let mut kept: Vec<NodeId> = Vec::new();
        let mut i: usize = 0;
        while i < self.order.len()
            invariant
                0 <= i <= self.order@.len(),
                pred == other_than(id),
                kept@ == self.order@.take(i as int).filter(pred),
            decreases self.order@.len() - i,
        {
            let x = self.order[i];
            proof {
                self.order@.take(i as int).lemma_filter_push(x, pred);
                assert(self.order@.take(i + 1) == self.order@.take(i as int).push(x));
            }
            if x != id {
                kept.push(x);
            }
            i += 1;
        }
        proof {
            assert(self.order@.take(i as int) =~= self.order@);
        }
        self.order = kept;
        proof {
            assert forall|k: u64| #[trigger] self.eligible@.contains(k) implies exists|j: int|
                0 <= j < self.order@.len() && self.order@[j].0 == k by {
                let o0 = old(self).order@;
                let j0 = choose|j: int| 0 <= j < o0.len() && o0[j].0 == k;
                o0.lemma_filter_contains(pred, j0);
                let j1 = choose|j: int| 0 <= j < self.order@.len() && self.order@[j] == o0[j0];
            }
        }
        let ghost m0 = self.captures@;
        let ghost f1 = self.focused;
        let ghost e1 = self.eligible@;
        let ghost o1 = self.order@;
        let mut doomed: Vec<u64> = Vec::new();
        for (k, v) in it: self.captures.iter()
            invariant
                self.captures@ == m0,
                forall|j: int| 0 <= j < doomed@.len() ==> m0.contains_key(#[trigger] doomed@[j]) && m0[doomed@[j]] == id.0,
                forall|j: int| 0 <= j < it.index() && *it.seq()[j].1 == id.0 ==> doomed@.contains(*#[trigger] it.seq()[j].0),
        {
            let ghost before = doomed@;
            if *v == id.0 {
                doomed.push(*k);
            }
            proof {
                assert((k, v) == it.seq()[it.index()]);
                assert forall|j: int| 0 <= j <= it.index() && *it.seq()[j].1 == id.0 implies doomed@.contains(*#[trigger] it.seq()[j].0) by {
                    if j < it.index() {
                        assert(before.contains(*it.seq()[j].0));
                        let w = choose|w: int| 0 <= w < before.len() && before[w] == *it.seq()[j].0;
                        assert(doomed@[w] == before[w]);
                    } else {
                        assert(doomed@[doomed@.len() - 1] == *k);
                    }
                }
            }
        }
        proof {
            let s = vstd::std_specs::iter::IteratorSpec::remaining(&vstd::std_specs::hash::spec_hash_map_iter(&self.captures));
            assert forall|k: u64| m0.contains_key(k) && m0[k] == id.0 implies doomed@.contains(k) by {
                assert(s.contains((&k, &m0[k])));
                let j = choose|j: int| 0 <= j < s.len() && s[j] == (&k, &m0[k]);
                assert(*s[j].0 == k);
                assert(*s[j].1 == id.0);
            }
        }
        let mut d: usize = 0;
        while d < doomed.len()
            invariant
                self.focused == f1,
                self.eligible@ == e1,
                self.order@ == o1,
                0 <= d <= doomed@.len(),
                forall|j: int| 0 <= j < doomed@.len() ==> m0.contains_key(#[trigger] doomed@[j]) && m0[doomed@[j]] == id.0,
                forall|k: u64| #[trigger] self.captures@.contains_key(k) <==> (m0.contains_key(k)
                    && !(exists|j: int| 0 <= j < d && doomed@[j] == k)),
                forall|k: u64| #[trigger] self.captures@.contains_key(k) ==> self.captures@[k] == m0[k],
            decreases doomed@.len() - d,
        {
            self.captures.remove(&doomed[d]);
            d += 1;
        }
    }
}

/// Every entry of the focus cycle may take focus.
proof fn lemma_cycle_members(order: Seq<NodeId>, eligible: Set<u64>, i: int)
    requires
        0 <= i < focus_cycle(order, eligible).len(),
    ensures
        eligible.contains(focus_cycle(order, eligible)[i].0),
{
    order.lemma_filter_pred(may_focus(eligible), i);
}

} // verus!

verus! {

proof fn lemma_index_of_entry(cycle: Seq<NodeId>, j: int)
    requires
        cycle.no_duplicates(),
        0 <= j < cycle.len(),
    ensures
        cycle.index_of_first(cycle[j]) == Some(j),
{
    cycle.index_of_first_ensures(cycle[j]);
    assert(cycle.contains(cycle[j]));
}

/// With no node twice in the focus order, no node is twice in the focus
/// cycle.
pub proof fn lemma_cycle_no_duplicates(order: Seq<NodeId>, eligible: Set<u64>)
    requires
        order.no_duplicates(),
    ensures
        focus_cycle(order, eligible).no_duplicates(),
{
    lemma_filter_no_duplicates(order, may_focus(eligible));
}

/// When no node appears twice in the focus cycle, moving focus forward and
/// then backward returns it to the node that had it, and so does moving
/// backward and then forward.
pub proof fn lemma_focus_round_trip(cycle: Seq<NodeId>, f: NodeId)
    requires
        cycle.no_duplicates(),
        cycle.contains(f),
    ensures
        next_focus(cycle, next_focus(cycle, Some(f), false), true) == Some(f),
        next_focus(cycle, next_focus(cycle, Some(f), true), false) == Some(f),
{
    let n = cycle.len() as int;
    let i = choose|i: int| 0 <= i < n && cycle[i] == f;
    lemma_index_of_entry(cycle, i);
    let fwd = (i + 1) % n;
    lemma_index_of_entry(cycle, fwd);
    let back = if i == 0 { n - 1 } else { i - 1 };
    lemma_index_of_entry(cycle, back);
    if i + 1 < n {
        vstd::arithmetic::div_mod::lemma_small_mod((i + 1) as nat, n as nat);
    } else {
        vstd::arithmetic::div_mod::lemma_mod_self_0(n);
    }
    if i == 0 {
        vstd::arithmetic::div_mod::lemma_mod_self_0(n);
    } else {
        vstd::arithmetic::div_mod::lemma_small_mod(i as nat, n as nat);
    }
    assert((back + 1) % n == i);
}

/// The node that gains focus from `focus_next` is one that may take focus,
/// so the focused node always may.
pub proof fn lemma_next_focus_eligible(order: Seq<NodeId>, eligible: Set<u64>, focused: Option<NodeId>, reverse: bool)
    ensures
        next_focus(focus_cycle(order, eligible), focused, reverse) matches Some(g) ==> eligible.contains(g.0),
{
    let cycle = focus_cycle(order, eligible);
    if cycle.len() > 0 {
        let n = cycle.len() as int;
        let pos: Option<int> = match focused {
            Some(f) => cycle.index_of_first(f),
            None => None,
        };
        if let Some(f) = focused {
            cycle.index_of_first_ensures(f);
        }
        let next = match pos {
            Some(i) => if reverse {
                if i == 0 {
                    n - 1
                } else {
                    i - 1
                }
            } else {
                (i + 1) % n
            },
            None => if reverse {
                n - 1
            } else {
                0
            },
        };
        lemma_cycle_members(order, eligible, next);
    }
}

impl Default for FocusManager {
    /// The same manager as `FocusManager::new`.
    fn default() -> (r: Self)
        ensures
            r.wf(),
            r.focused_node() is None,
            r.order_ids() == Seq::<NodeId>::empty(),
            r.eligible_ids() == Set::<u64>::empty(),
            r.capture_map() == Map::<u64, u64>::empty(),
    {
        FocusManager::new()
    }
}

} // verus!

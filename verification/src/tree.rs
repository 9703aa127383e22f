//! Retained widget tree with keyed reconciliation and dirty tracking.
use vstd::prelude::*;

verus! {

/// Stable numeric identity of a node in the retained tree.
#[derive(Clone, Copy, Debug, PartialEq, Eq, Hash, PartialOrd, Ord, Structural)]
pub struct NodeId(pub u64);

impl NodeId {
    /// The raw numeric value of this id.
    pub fn get(self) -> (r: u64)
        ensures
            r == self.0,
    {
        self.0
    }

    /// Wrap a raw numeric value as an id.
    pub fn new(value: u64) -> (r: Self)
        ensures
            r.0 == value,
    {
        NodeId(value)
    }
}

/// Stable widget identifier chosen by the application.
#[derive(Debug, PartialEq, Eq, Hash)]
pub struct WidgetKey(String);

impl View for WidgetKey {
    type V = Seq<char>;

    closed spec fn view(&self) -> Seq<char> {
        self.0@
    }
}

impl Clone for WidgetKey {
    fn clone(&self) -> (r: Self)
        ensures
            r@ == self@,
    {
        WidgetKey(self.0.clone())
    }
}

impl WidgetKey {
    /// Create a key from a string.
    pub fn new(value: &str) -> (r: Self)
        ensures
            r@ == value@,
    {
        WidgetKey(value.to_owned())
    }

    /// Borrow the key as a string slice.
    pub fn as_str(&self) -> (r: &str)
        ensures
            r@ == self@,
    {
        self.0.as_str()
    }

    /// Whether two keys spell the same string.
    pub fn same_as(&self, other: &WidgetKey) -> (r: bool)
        ensures
            r == (self@ == other@),
    {
        self.0 == other.0
    }
}

/// Bit set of invalidation reasons attached to a node.
#[derive(Clone, Copy, Debug, Default, PartialEq, Eq)]
pub struct DirtyFlags(pub u8);

/// The mask of flags that propagate from a node to all of its ancestors.
pub open spec fn propagates(flags: u8) -> bool {
    (flags & 2u8) == 2u8 || (flags & 16u8) == 16u8
}

impl DirtyFlags {
    /// No flag.
    #[allow(non_snake_case)]
    pub fn NONE() -> (r: DirtyFlags)
        ensures
            r.0 == 0u8,
    {
        DirtyFlags(0u8)
    }

    /// Style must be recomputed.
    #[allow(non_snake_case)]
    pub fn STYLE() -> (r: DirtyFlags)
        ensures
            r.0 == 1u8,
    {
        DirtyFlags(1u8)
    }

    /// Layout must be recomputed.
    #[allow(non_snake_case)]
    pub fn LAYOUT() -> (r: DirtyFlags)
        ensures
            r.0 == 2u8,
    {
        DirtyFlags(2u8)
    }

    /// The node must be repainted.
    #[allow(non_snake_case)]
    pub fn PAINT() -> (r: DirtyFlags)
        ensures
            r.0 == 4u8,
    {
        DirtyFlags(4u8)
    }

    /// Accessibility semantics must be rebuilt.
    #[allow(non_snake_case)]
    pub fn SEMANTICS() -> (r: DirtyFlags)
        ensures
            r.0 == 8u8,
    {
        DirtyFlags(8u8)
    }

    /// The child list changed.
    #[allow(non_snake_case)]
    pub fn CHILDREN() -> (r: DirtyFlags)
        ensures
            r.0 == 16u8,
    {
        DirtyFlags(16u8)
    }

    /// Whether every bit of `other` is set in `self`.
    pub fn contains(self, other: Self) -> (r: bool)
        ensures
            r == ((self.0 & other.0) == other.0),
    {
        self.0 & other.0 == other.0
    }

    /// Set every bit of `other` in `self`.
    pub fn insert(&mut self, other: Self)
        ensures
            final(self).0 == old(self).0 | other.0,
    {
        self.0 = self.0 | other.0;
    }

    /// Whether no bit is set.
    pub fn is_empty(self) -> (r: bool)
        ensures
            r == (self.0 == 0),
    {
        self.0 == 0
    }

    /// The union of two flag sets.
    pub fn union(self, rhs: Self) -> (r: Self)
        ensures
            r.0 == self.0 | rhs.0,
    {
        DirtyFlags(self.0 | rhs.0)
    }
}

/// Declarative description of a widget, produced anew by the application.
#[derive(Debug, PartialEq, Eq)]
pub struct ViewNode {
    pub key: WidgetKey,
    pub kind: String,
    pub children: Vec<ViewNode>,
    pub focusable: bool,
    pub disabled: bool,
}

impl ViewNode {
    /// A leaf description with the given key and kind.
    pub fn new(key: &str, kind: &str) -> (r: Self)
        ensures
            r.key@ == key@,
            r.kind@ == kind@,
            r.children@.len() == 0,
            !r.focusable,
            !r.disabled,
    {
        ViewNode { key: WidgetKey::new(key), kind: kind.to_owned(), children: Vec::new(), focusable: false, disabled: false }
    }

    /// Append a child description.
    pub fn child(self, child: Self) -> (r: Self)
        ensures
            r.key@ == self.key@,
            r.kind@ == self.kind@,
            r.children@ == self.children@.push(child),
            r.focusable == self.focusable,
            r.disabled == self.disabled,
    {
        let mut s = self;
        s.children.push(child);
        s
    }
}

/// Sibling descriptions carry pairwise distinct keys.
pub open spec fn keys_distinct(views: Seq<ViewNode>) -> bool {
    forall|i: int, j: int| 0 <= i < j < views.len() ==> views[i].key@ != views[j].key@
}

/// Every list of siblings in the forest carries pairwise distinct keys.
pub open spec fn views_valid(views: Seq<ViewNode>) -> bool
    decreases views,
{
    &&& keys_distinct(views)
    &&& forall|i: int|
        0 <= i < views.len() ==> {
            #[trigger] views[i];
            views_valid(views[i].children@)
        }
}

} // verus!

verus! {

/// A node of the retained tree as seen by the rest of the runtime.
#[derive(Debug)]
pub struct Node {
    pub id: NodeId,
    pub key: WidgetKey,
    pub kind: String,
    pub parent: Option<NodeId>,
    pub children: Vec<NodeId>,
    pub dirty: DirtyFlags,
    pub focusable: bool,
    pub disabled: bool,
}

/// Which node ids a reconciliation created, kept and dropped.
#[derive(Clone, Debug, Default, PartialEq, Eq)]
pub struct ReconcileReport {
    pub mounted: Vec<NodeId>,
    pub reused: Vec<NodeId>,
    pub removed: Vec<NodeId>,
}

/// Why a reconciliation was refused.
#[derive(Clone, Debug, PartialEq, Eq)]
pub enum TreeError {
    DuplicateSiblingKey(WidgetKey),
    UnknownParent(NodeId),
}

/// A node together with the entries of its children, in order.
struct Entry {
    node: Node,
    kids: Vec<Entry>,
}

/// The ids of the entries of a forest, in order.
spec fn ids_of(f: Seq<Entry>) -> Seq<NodeId> {
    Seq::new(f.len(), |i: int| f[i].node.id)
}

/// The entry, or one of its descendants, carries id `k`.
spec fn in_entry(e: Entry, k: u64) -> bool {
    e.node.id.0 == k || in_forest(e.kids@, k)
}

/// Some entry of the forest, or one of their descendants, carries id `k`.
spec fn in_forest(f: Seq<Entry>, k: u64) -> bool
    decreases f,
{
    exists|i: int|
        0 <= i < f.len() && {
            #[trigger] f[i];
            f[i].node.id.0 == k || in_forest(f[i].kids@, k)
        }
}

} // verus!

verus! {

/// The entry records its parent and the ids of its children, all the way down.
spec fn entry_wf(e: Entry, parent: Option<NodeId>) -> bool {
    &&& e.node.parent == parent
    &&& e.node.children@ == ids_of(e.kids@)
    &&& forest_wf(e.kids@, Some(e.node.id))
}

/// Every entry of the forest is well formed under `parent`.
spec fn forest_wf(f: Seq<Entry>, parent: Option<NodeId>) -> bool
    decreases f,
{
    forall|i: int|
        0 <= i < f.len() ==> {
            &&& (#[trigger] f[i]).node.parent == parent
            &&& f[i].node.children@ == ids_of(f[i].kids@)
            &&& forest_wf(f[i].kids@, Some(f[i].node.id))
        }
}

/// Sibling nodes carry distinct keys, all the way down.
spec fn forest_keys(f: Seq<Entry>) -> bool
    decreases f,
{
    &&& forall|i: int, j: int| 0 <= i < j < f.len() ==> f[i].node.key@ != f[j].node.key@
    &&& forall|i: int| 0 <= i < f.len() ==> forest_keys((#[trigger] f[i]).kids@)
}

/// Sibling nodes carry distinct keys, all the way down.
spec fn entry_keys(e: Entry) -> bool {
    forest_keys(e.kids@)
}

/// No id occurs twice within the entry.
spec fn entry_unique(e: Entry) -> bool {
    &&& !in_forest(e.kids@, e.node.id.0)
    &&& forest_unique(e.kids@)
}

/// No id occurs twice within the forest.
spec fn forest_unique(f: Seq<Entry>) -> bool
    decreases f,
{
    &&& forall|i: int, j: int, k: u64|
        0 <= i < j < f.len() ==> !(#[trigger] in_entry(f[i], k) && #[trigger] in_entry(f[j], k))
    &&& forall|i: int|
        0 <= i < f.len() ==> {
            &&& !in_forest((#[trigger] f[i]).kids@, f[i].node.id.0)
            &&& forest_unique(f[i].kids@)
        }
}

/// Every id of the forest lies in `lo..hi`.
spec fn bounded(f: Seq<Entry>, lo: int, hi: int) -> bool {
    forall|k: u64| #[trigger] in_forest(f, k) ==> lo <= k < hi
}

/// The entry has the key, kind and flags of the description, and its
/// children mirror the description's children.
spec fn entry_mirrors(e: Entry, v: ViewNode) -> bool {
    &&& e.node.key@ == v.key@
    &&& e.node.kind@ == v.kind@
    &&& e.node.focusable == v.focusable
    &&& e.node.disabled == v.disabled
    &&& forest_mirrors(e.kids@, v.children@)
}

/// The forest has exactly the shape of the descriptions.
spec fn forest_mirrors(f: Seq<Entry>, views: Seq<ViewNode>) -> bool
    decreases views,
{
    &&& f.len() == views.len()
    &&& forall|i: int|
        0 <= i < views.len() ==> {
            &&& f[i].node.key@ == (#[trigger] views[i]).key@
            &&& f[i].node.kind@ == views[i].kind@
            &&& f[i].node.focusable == views[i].focusable
            &&& f[i].node.disabled == views[i].disabled
            &&& forest_mirrors(f[i].kids@, views[i].children@)
        }
}

/// Number of descriptions in a forest of descriptions.
pub open spec fn view_count(views: Seq<ViewNode>) -> nat
    decreases views,
{
    if views.len() == 0 {
        0
    } else {
        let last = views[views.len() - 1];
        proof {
            assert(decreases_to!(views => last));
            assert(decreases_to!(views => views.subrange(0, views.len() - 1)));
            assert(views.take(views.len() - 1) == views.subrange(0, views.len() - 1));
        }
        view_count(views.take(views.len() - 1)) + 1 + view_count(last.children@)
    }
}

} // verus!

verus! {

/// Some list of siblings in the forest of descriptions carries key `k` twice.
pub open spec fn has_dup_key(views: Seq<ViewNode>, k: Seq<char>) -> bool
    decreases views,
{
    ||| exists|i: int, j: int|
        0 <= i < j < views.len() && #[trigger] views[i].key@ == k && #[trigger] views[j].key@ == k
    ||| exists|i: int|
        0 <= i < views.len() && {
            #[trigger] views[i];
            has_dup_key(views[i].children@, k)
        }
}

/// Checks the whole forest of descriptions for duplicated sibling keys.
fn validate_keys(views: &[ViewNode]) -> (r: Result<(), TreeError>)
    ensures
        r is Ok <==> views_valid(views@),
        r matches Err(e) ==> (e matches TreeError::DuplicateSiblingKey(k) && has_dup_key(views@, k@)),
    decreases views@,
{
    let n = views.len();
    let mut i: usize = 0;
    while i < n
        invariant
            n == views@.len(),
            0 <= i <= n,
            forall|a: int, b: int| 0 <= a < b < i ==> views@[a].key@ != views@[b].key@,
            forall|a: int| 0 <= a < i ==> #[trigger] views_valid(views@[a].children@),
        decreases n - i,
    {
        let mut j: usize = 0;
        while j < i
            invariant
                n == views@.len(),
                0 <= j <= i < n,
                forall|b: int| 0 <= b < j ==> views@[b].key@ != views@[i as int].key@,
            decreases i - j,
        {
            if views[j].key.same_as(&views[i].key) {
                proof {
                    assert(views@[j as int].key@ == views@[i as int].key@);
                    assert(!keys_distinct(views@));
                }
                return Err(TreeError::DuplicateSiblingKey(views[i].key.clone()));
            }
            j += 1;
        }
        proof {
            assert(decreases_to!(views@ => views@[i as int]));
        }
        let sub = validate_keys(views[i].children.as_slice());
        match sub {
            Err(e) => {
                proof {
                    let k = views@[i as int];
                    assert(!views_valid(views@));
                    if let TreeError::DuplicateSiblingKey(key) = &e {
                        assert(has_dup_key(views@, key@));
                    }
                }
                return Err(e);
            },
            Ok(()) => {},
        }
        i += 1;
    }
    proof {
        assert(keys_distinct(views@));
        assert forall|a: int| 0 <= a < views@.len() implies {
            #[trigger] views@[a];
            views_valid(views@[a].children@)
        } by {
            assert(views_valid(views@[a].children@));
        }
    }
    Ok(())
}

} // verus!

verus! {

/// Appends the ids of `e` and of all its descendants to `removed`, each
/// node after its children.
fn remove_subtree(e: Entry, removed: &mut Vec<NodeId>)
    ensures
        final(removed)@.len() >= old(removed)@.len(),
        final(removed)@.subrange(0, old(removed)@.len() as int) == old(removed)@,
        forall|id: NodeId| #[trigger] final(removed)@.contains(id) <==> (old(removed)@.contains(id) || in_entry(e, id.0)),
        old(removed)@.no_duplicates() && !in_forest(e.kids@, e.node.id.0) && forest_unique(e.kids@) && (forall|id: NodeId|
            #[trigger] old(removed)@.contains(id) ==> !in_entry(e, id.0)) ==> final(removed)@.no_duplicates(),
    decreases e,
{
    let ghost e0 = e;
    let ghost clean = old(removed)@.no_duplicates() && !in_forest(e.kids@, e.node.id.0) && forest_unique(e.kids@) && (forall|id: NodeId|
        #[trigger] old(removed)@.contains(id) ==> !in_entry(e, id.0));
    let Entry { node, kids } = e;
    let ghost ks = kids@;
    let ghost r0 = removed@;
    proof {
        assert(ks == e0.kids@);
        assert(ks.len() == kids.len());
    }
    let mut kids = kids;
    let mut idx: usize = 0;
    while kids.len() > 0
        invariant
            0 <= idx <= ks.len(),
            ks.len() <= usize::MAX,
            kids@ == ks.subrange(idx as int, ks.len() as int),
            removed@.len() >= r0.len(),
            removed@.subrange(0, r0.len() as int) == r0,
            forall|id: NodeId| #[trigger] removed@.contains(id) <==> (r0.contains(id) || exists|c: int| 0 <= c < idx && in_entry(#[trigger] ks[c], id.0)),
            decreases_to!(e => ks),
            ks == e0.kids@,
            clean == (r0.no_duplicates() && !in_forest(ks, e0.node.id.0) && forest_unique(ks) && (forall|id: NodeId|
                #[trigger] r0.contains(id) ==> !in_entry(e0, id.0))),
            clean ==> removed@.no_duplicates(),
        decreases kids@.len(),
    {
        proof {
            assert(kids@.len() == ks.len() - idx);
        }
        let c = kids.remove(0);
        proof {
            assert(c == ks[idx as int]);
            assert(decreases_to!(e => ks[idx as int]));
        }
        let ghost before = removed@;
        proof {
            if clean {
                assert(!in_forest(c.kids@, c.node.id.0) && forest_unique(c.kids@));
                assert forall|id: NodeId| #[trigger] before.contains(id) implies !in_entry(c, id.0) by {
                    if r0.contains(id) {
                        if in_entry(c, id.0) {
                            assert(in_forest(ks, id.0));
                            assert(in_entry(e0, id.0));
                        }
                    } else {
                        let c2 = choose|c2: int| 0 <= c2 < idx && in_entry(#[trigger] ks[c2], id.0);
                        assert(!(in_entry(ks[c2], id.0) && in_entry(ks[idx as int], id.0)));
                    }
                }
            }
        }
        remove_subtree(c, removed);
        proof {
            assert forall|id: NodeId| #[trigger] removed@.contains(id) <==> (r0.contains(id) || exists|c2: int| 0 <= c2 < idx + 1 && in_entry(#[trigger] ks[c2], id.0)) by {
                if removed@.contains(id) && !r0.contains(id) && !before.contains(id) {
                    assert(in_entry(ks[idx as int], id.0));
                }
                if exists|c2: int| 0 <= c2 < idx + 1 && in_entry(#[trigger] ks[c2], id.0) {
                    let c2 = choose|c2: int| 0 <= c2 < idx + 1 && in_entry(#[trigger] ks[c2], id.0);
                    if c2 < idx {
                        assert(before.contains(id));
                    }
                }
            }
            assert(removed@.subrange(0, r0.len() as int) == before.subrange(0, r0.len() as int));
        }
        idx += 1;
    }
    let ghost before = removed@;
    removed.push(node.id);
    proof {
        assert(idx == ks.len());
        if clean {
            if before.contains(node.id) {
                if r0.contains(node.id) {
                    assert(in_entry(e0, node.id.0));
                } else {
                    let c2 = choose|c2: int| 0 <= c2 < idx && in_entry(#[trigger] ks[c2], node.id.0);
                    assert(in_forest(ks, node.id.0));
                }
            }
            assert forall|a: int, b: int| 0 <= a < removed@.len() && 0 <= b < removed@.len() && a != b implies removed@[a]
                != removed@[b] by {
                if a < before.len() && b < before.len() {
                    assert(before[a] == removed@[a] && before[b] == removed@[b]);
                } else if a < before.len() {
                    assert(before.contains(before[a]));
                } else {
                    assert(before.contains(before[b]));
                }
            }
        }
        assert forall|id: NodeId| #[trigger] removed@.contains(id) <==> (r0.contains(id) || in_entry(e0, id.0)) by {
            assert(in_entry(e0, id.0) == (e0.node.id.0 == id.0 || in_forest(ks, id.0)));
            assert(in_forest(ks, id.0) == exists|c: int| 0 <= c < ks.len() && in_entry(#[trigger] ks[c], id.0));
            if in_forest(ks, id.0) {
                let c = choose|c: int| 0 <= c < ks.len() && in_entry(#[trigger] ks[c], id.0);
                assert(before.contains(id));
            }
            if removed@.contains(id) && id != node.id {
                assert(before.contains(id));
            }
            if exists|c2: int| 0 <= c2 < idx && in_entry(#[trigger] ks[c2], id.0) {
                let c2 = choose|c2: int| 0 <= c2 < idx && in_entry(#[trigger] ks[c2], id.0);
                assert(in_forest(ks, id.0));
            }
            if removed@.contains(id) && id == node.id {
                assert(in_entry(e0, id.0));
            }
            if e0.node.id.0 == id.0 {
                assert(id == node.id);
                assert(removed@[removed@.len() - 1] == node.id);
            }
            if before.contains(id) {
                let w = choose|w: int| 0 <= w < before.len() && before[w] == id;
                assert(removed@[w] == id);
            }
        }
        assert(removed@.subrange(0, r0.len() as int) == before.subrange(0, r0.len() as int));
    }
}

} // verus!

verus! {

/// Counting descriptions is monotone in the prefix taken.
proof fn lemma_view_count_prefix(views: Seq<ViewNode>, i: int)
    requires
        0 <= i <= views.len(),
    ensures
        view_count(views.take(i)) <= view_count(views),
    decreases views.len() - i,
{
    if i < views.len() {
        lemma_view_count_prefix(views, i + 1);
        let t = views.take(i + 1);
        assert(t.take(i) == views.take(i));
        assert(t[i] == views[i]);
    } else {
        assert(views.take(i) == views);
    }
}

/// The ids `lo`, `lo + 1`, ..., up to but not including `hi`, in order.
pub open spec fn id_range(lo: int, hi: int) -> Seq<NodeId> {
    Seq::new((hi - lo) as nat, |k: int| NodeId((lo + k) as u64))
}

/// Appends the lists of `b` to those of `a`.
fn merge(a: &mut ReconcileReport, b: ReconcileReport)
    ensures
        final(a).mounted@ == old(a).mounted@ + b.mounted@,
        final(a).reused@ == old(a).reused@ + b.reused@,
        final(a).removed@ == old(a).removed@ + b.removed@,
{
    let mut b = b;
    a.mounted.append(&mut b.mounted);
    a.reused.append(&mut b.reused);
    a.removed.append(&mut b.removed);
}

/// The ids of a forest's entries, in order.
fn collect_ids(f: &Vec<Entry>) -> (r: Vec<NodeId>)
    ensures
        r@ == ids_of(f@),
{
    let mut r: Vec<NodeId> = Vec::new();
    let mut c: usize = 0;
    while c < f.len()
        invariant
            0 <= c <= f@.len(),
            r@ == ids_of(f@.take(c as int)),
        decreases f@.len() - c,
    {
        r.push(f[c].node.id);
        c += 1;
        proof {
            assert(r@ =~= ids_of(f@.take(c as int)));
        }
    }
    proof {
        assert(f@.take(c as int) == f@);
    }
    r
}

/// The entry is well formed under `parent`, has distinct sibling keys and
/// ids, and mirrors the description.
spec fn placed(e: Entry, v: ViewNode, parent: Option<NodeId>) -> bool {
    &&& entry_wf(e, parent)
    &&& entry_keys(e)
    &&& entry_unique(e)
    &&& entry_mirrors(e, v)
}

/// Every id of the entry comes from old entry `o` (when `o` is an index)
/// or from the range `lo..hi`.
spec fn ids_from(e: Entry, old: Seq<Entry>, o: int, lo: int, hi: int) -> bool {
    forall|k: u64|
        #[trigger] in_entry(e, k) ==> ((0 <= o < old.len() && in_entry(old[o], k)) || (lo <= k < hi))
}

} // verus!

verus! {

/// The description asks for other kind or flags than the node has.
spec fn changed(n: Node, v: ViewNode) -> bool {
    !(n.kind@ == v.kind@ && n.focusable == v.focusable && n.disabled == v.disabled)
}

/// Every node of the forest is new: its id is at least `bound` and all of
/// its dirty flags are set.
spec fn fresh_forest(f: Seq<Entry>, bound: int) -> bool
    decreases f,
{
    forall|i: int|
        0 <= i < f.len() ==> {
            &&& (#[trigger] f[i]).node.id.0 >= bound
            &&& f[i].node.dirty.0 == 31
            &&& fresh_forest(f[i].kids@, bound)
        }
}

/// No entry of the forest carries the key.
spec fn key_absent(old: Seq<Entry>, key: Seq<char>) -> bool {
    forall|j: int| 0 <= j < old.len() ==> (#[trigger] old[j]).node.key@ != key
}

/// Keyed identity: the node built for description `i` is the old sibling
/// with the same key when there is one, with its dirty flags widened when
/// kind or flags change, and its children are reconciled the same way;
/// otherwise it and all its descendants are new.
spec fn reuses(old: Seq<Entry>, new: Seq<Entry>, views: Seq<ViewNode>, bound: int) -> bool
    decreases views,
{
    &&& new.len() == views.len()
    &&& forall|i: int|
        0 <= i < views.len() ==> {
            &&& forall|j: int|
                0 <= j < old.len() && (#[trigger] old[j]).node.key@ == (#[trigger] views[i]).key@ ==> {
                    &&& new[i].node.id == old[j].node.id
                    &&& new[i].node.dirty.0 == (if changed(old[j].node, views[i]) {
                        old[j].node.dirty.0 | 15u8
                    } else {
                        old[j].node.dirty.0
                    })
                    &&& reuses(old[j].kids@, new[i].kids@, views[i].children@, bound)
                }
            &&& key_absent(old, views[i].key@) ==> {
                &&& new[i].node.id.0 >= bound
                &&& new[i].node.dirty.0 == 31
                &&& fresh_forest(new[i].kids@, bound)
            }
        }
}

/// A smaller bound keeps freshness.
proof fn lemma_fresh_weaken(f: Seq<Entry>, b1: int, b2: int)
    requires
        fresh_forest(f, b2),
        b1 <= b2,
    ensures
        fresh_forest(f, b1),
    decreases f,
{
    assert forall|i: int| 0 <= i < f.len() implies {
        &&& (#[trigger] f[i]).node.id.0 >= b1
        &&& f[i].node.dirty.0 == 31
        &&& fresh_forest(f[i].kids@, b1)
    } by {
        lemma_fresh_weaken(f[i].kids@, b1, b2);
    }
}

/// A smaller bound keeps the reuse relation.
proof fn lemma_reuses_weaken(old: Seq<Entry>, new: Seq<Entry>, views: Seq<ViewNode>, b1: int, b2: int)
    requires
        reuses(old, new, views, b2),
        b1 <= b2,
    ensures
        reuses(old, new, views, b1),
    decreases views,
{
    assert forall|i: int| 0 <= i < views.len() implies {
        &&& forall|j: int|
            0 <= j < old.len() && (#[trigger] old[j]).node.key@ == (#[trigger] views[i]).key@ ==> {
                &&& new[i].node.id == old[j].node.id
                &&& new[i].node.dirty.0 == (if changed(old[j].node, views[i]) {
                    old[j].node.dirty.0 | 15u8
                } else {
                    old[j].node.dirty.0
                })
                &&& reuses(old[j].kids@, new[i].kids@, views[i].children@, b1)
            }
        &&& key_absent(old, views[i].key@) ==> {
            &&& new[i].node.id.0 >= b1
            &&& new[i].node.dirty.0 == 31
            &&& fresh_forest(new[i].kids@, b1)
        }
    } by {
        assert forall|j: int|
            0 <= j < old.len() && (#[trigger] old[j]).node.key@ == views[i].key@ implies
                reuses(old[j].kids@, new[i].kids@, views[i].children@, b1) by {
            lemma_reuses_weaken(old[j].kids@, new[i].kids@, views[i].children@, b1, b2);
        }
        if key_absent(old, views[i].key@) {
            assert(fresh_forest(new[i].kids@, b2));
            lemma_fresh_weaken(new[i].kids@, b1, b2);
        }
    }
}

/// With no old siblings, everything reconciled is new.
proof fn lemma_reuses_empty(new: Seq<Entry>, views: Seq<ViewNode>, b: int)
    requires
        reuses(Seq::empty(), new, views, b),
    ensures
        fresh_forest(new, b),
{
    assert forall|i: int| 0 <= i < new.len() implies {
        &&& (#[trigger] new[i]).node.id.0 >= b
        &&& new[i].node.dirty.0 == 31
        &&& fresh_forest(new[i].kids@, b)
    } by {
        assert(key_absent(Seq::empty(), views[i].key@));
    }
}

} // verus!

verus! {

/// The ids of a forest in pre-order: each node before its children, and
/// siblings in order.
spec fn preorder(f: Seq<Entry>) -> Seq<NodeId>
    decreases f,
{
    if f.len() == 0 {
        Seq::empty()
    } else {
        proof {
            assert(decreases_to!(f => f.subrange(0, f.len() - 1)));
            assert(decreases_to!(f => f[f.len() - 1]));
        }
        preorder(f.subrange(0, f.len() - 1)) + seq![f[f.len() - 1].node.id] + preorder(f[f.len() - 1].kids@)
    }
}

/// Appending an entry appends its id and then its subtree's pre-order.
proof fn lemma_preorder_push(f: Seq<Entry>, e: Entry)
    ensures
        preorder(f.push(e)) == preorder(f) + seq![e.node.id] + preorder(e.kids@),
{
    assert(f.push(e).subrange(0, f.len() as int) =~= f);
}

/// Every id listed in a forest's pre-order occurs in the forest.
proof fn lemma_preorder_members(f: Seq<Entry>, id: NodeId)
    requires
        preorder(f).contains(id),
    ensures
        in_forest(f, id.0),
    decreases f,
{
    let n = f.len() as int;
    let g = f.subrange(0, n - 1);
    let e = f[n - 1];
    assert(decreases_to!(f => g));
    assert(decreases_to!(f => e));
    let a = preorder(g);
    let b = seq![e.node.id];
    let c = preorder(e.kids@);
    let j = choose|j: int| 0 <= j < (a + b + c).len() && (a + b + c)[j] == id;
    if j < a.len() {
        assert(a[j] == id);
        lemma_preorder_members(g, id);
        let i = choose|i: int| 0 <= i < g.len() && in_entry(#[trigger] g[i], id.0);
        assert(f[i] == g[i]);
    } else if j == a.len() {
        assert(in_entry(f[n - 1], id.0));
    } else {
        assert(c[j - a.len() - 1] == id);
        lemma_preorder_members(e.kids@, id);
        assert(in_entry(f[n - 1], id.0));
    }
}

/// Keeping the entries of a sequence that pass `p` or `q` gives the same
/// when the two agree on every entry.
proof fn lemma_filter_agree(s: Seq<NodeId>, p: spec_fn(NodeId) -> bool, q: spec_fn(NodeId) -> bool)
    requires
        forall|j: int| 0 <= j < s.len() ==> p(#[trigger] s[j]) == q(s[j]),
    ensures
        s.filter(p) == s.filter(q),
    decreases s.len(),
{
    if s.len() > 0 {
        let t = s.drop_last();
        assert(s =~= t.push(s.last()));
        assert forall|j: int| 0 <= j < t.len() implies p(#[trigger] t[j]) == q(t[j]) by {
            assert(t[j] == s[j]);
        }
        lemma_filter_agree(t, p, q);
        t.lemma_filter_push(s.last(), p);
        t.lemma_filter_push(s.last(), q);
    }
}

/// Keeping some entries of a sequence without repeats gives one without
/// repeats.
pub(crate) proof fn lemma_filter_no_duplicates(s: Seq<NodeId>, p: spec_fn(NodeId) -> bool)
    requires
        s.no_duplicates(),
    ensures
        s.filter(p).no_duplicates(),
    decreases s.len(),
{
    if s.len() > 0 {
        let t = s.drop_last();
        let x = s.last();
        assert(s =~= t.push(x));
        assert forall|a: int, b: int| 0 <= a < t.len() && 0 <= b < t.len() && a != b implies t[a] != t[b] by {
            assert(s[a] == t[a] && s[b] == t[b]);
        }
        lemma_filter_no_duplicates(t, p);
        t.lemma_filter_push(x, p);
        if p(x) {
            if t.filter(p).contains(x) {
                t.lemma_filter_contains_rev(p, x);
                let j = choose|j: int| 0 <= j < t.len() && t[j] == x;
                assert(s[j] == s[s.len() - 1]);
            }
            let u = t.filter(p);
            assert forall|a: int, b: int| 0 <= a < u.push(x).len() && 0 <= b < u.push(x).len() && a != b implies u.push(x)[a]
                != u.push(x)[b] by {
                if a < u.len() && b < u.len() {
                } else if a < u.len() {
                    assert(u.contains(u[a]));
                } else {
                    assert(u.contains(u[b]));
                }
            }
        }
    }
}

/// Every id that occurs in a forest is listed in its pre-order.
proof fn lemma_preorder_complete(f: Seq<Entry>, k: u64)
    requires
        in_forest(f, k),
    ensures
        preorder(f).contains(NodeId(k)),
    decreases f,
{
    let n = f.len() as int;
    let g = f.subrange(0, n - 1);
    let e = f[n - 1];
    assert(decreases_to!(f => g));
    assert(decreases_to!(f => e));
    let a = preorder(g);
    let c = preorder(e.kids@);
    let all = a + seq![e.node.id] + c;
    let i = choose|i: int| 0 <= i < f.len() && in_entry(#[trigger] f[i], k);
    if i < n - 1 {
        assert(in_entry(g[i], k));
        lemma_preorder_complete(g, k);
        let j = choose|j: int| 0 <= j < a.len() && a[j] == NodeId(k);
        assert(all[j] == NodeId(k));
    } else if e.node.id.0 == k {
        assert(all[a.len() as int] == NodeId(k));
    } else {
        lemma_preorder_complete(e.kids@, k);
        let j = choose|j: int| 0 <= j < c.len() && c[j] == NodeId(k);
        assert(all[a.len() + 1 + j] == NodeId(k));
    }
}

/// A forest in which no id occurs twice lists each id once in pre-order.
proof fn lemma_preorder_unique(f: Seq<Entry>)
    requires
        forest_unique(f),
    ensures
        preorder(f).no_duplicates(),
    decreases f,
{
    if f.len() > 0 {
        let n = f.len() as int;
        let g = f.subrange(0, n - 1);
        let e = f[n - 1];
        assert(decreases_to!(f => g));
        assert(decreases_to!(f => e));
        assert forall|i: int, j: int, k: u64| 0 <= i < j < g.len() implies !(#[trigger] in_entry(g[i], k) && #[trigger] in_entry(g[j], k)) by {
            assert(g[i] == f[i] && g[j] == f[j]);
        }
        assert forall|i: int| 0 <= i < g.len() implies {
            &&& !in_forest((#[trigger] g[i]).kids@, g[i].node.id.0)
            &&& forest_unique(g[i].kids@)
        } by {
            assert(g[i] == f[i]);
        }
        lemma_preorder_unique(g);
        lemma_preorder_unique(e.kids@);
        let a = preorder(g);
        let c = preorder(e.kids@);
        let all = a + seq![e.node.id] + c;
        assert forall|x: int, y: int| 0 <= x < all.len() && 0 <= y < all.len() && x != y implies all[x] != all[y] by {
            if all[x] == all[y] {
                let id = all[x];
                let kx = if x < a.len() { 0int } else if x == a.len() { 1int } else { 2int };
                let ky = if y < a.len() { 0int } else if y == a.len() { 1int } else { 2int };
                if x < a.len() {
                    assert(a.contains(id));
                    lemma_preorder_members(g, id);
                }
                if y < a.len() {
                    assert(a[y] == id);
                    assert(a.contains(id));
                    lemma_preorder_members(g, id);
                }
                if x > a.len() {
                    assert(c[x - a.len() - 1] == id);
                    assert(c.contains(id));
                    lemma_preorder_members(e.kids@, id);
                }
                if y > a.len() {
                    assert(c[y - a.len() - 1] == id);
                    assert(c.contains(id));
                    lemma_preorder_members(e.kids@, id);
                }
                if kx != ky && (kx == 0 || ky == 0) {
                    let gi = choose|gi: int| 0 <= gi < g.len() && in_entry(#[trigger] g[gi], id.0);
                    assert(g[gi] == f[gi]);
                    assert(in_entry(f[n - 1], id.0));
                    assert(!(in_entry(f[gi], id.0) && in_entry(f[n - 1], id.0)));
                }
                if kx == ky && kx == 0 {
                    assert(a[x] == a[y]);
                }
                if kx == ky && kx == 2 {
                    assert(c[x - a.len() - 1] == c[y - a.len() - 1]);
                }
                assert(!in_forest(f[n - 1].kids@, f[n - 1].node.id.0));
            }
        }
    }
}

/// The test that an id was issued from `lo` on.
pub open spec fn issued_from(lo: int) -> spec_fn(NodeId) -> bool {
    |id: NodeId| id.0 >= lo
}

/// The test that an id was issued before `lo`.
pub open spec fn issued_before(lo: int) -> spec_fn(NodeId) -> bool {
    |id: NodeId| id.0 < lo
}

/// Reconciles the old entries of one sibling list against the descriptions
/// of that list: entries whose key reappears keep their id, new keys get
/// fresh ids from `next`, and the entries whose key is gone are dropped.
fn reconcile_children(
    next: &mut u64,
    parent: Option<NodeId>,
    prev: Vec<Entry>,
    views: &[ViewNode],
) -> (r: (Vec<Entry>, ReconcileReport))
    requires
        views_valid(views@),
        forest_wf(prev@, parent),
        forest_keys(prev@),
        forest_unique(prev@),
        bounded(prev@, 1, *old(next) as int),
        1 <= *old(next),
        parent matches Some(p) ==> p.0 < *old(next) && !in_forest(prev@, p.0),
        *old(next) + view_count(views@) <= u64::MAX,
    ensures
        *old(next) <= *final(next) <= *old(next) + view_count(views@),
        forest_wf(r.0@, parent),
        forest_keys(r.0@),
        forest_unique(r.0@),
        bounded(r.0@, 1, *final(next) as int),
        forest_mirrors(r.0@, views@),
        forall|k: u64| #[trigger] in_forest(r.0@, k) ==> in_forest(prev@, k) || *old(next) <= k,
        reuses(prev@, r.0@, views@, *old(next) as int),
        r.1.mounted@ == id_range(*old(next) as int, *final(next) as int),
        r.1.mounted@ == preorder(r.0@).filter(issued_from(*old(next) as int)),
        r.1.reused@ == preorder(r.0@).filter(issued_before(*old(next) as int)),
        r.1.removed@.no_duplicates(),
        forall|id: NodeId| #[trigger] r.1.mounted@.contains(id) <==> (in_forest(r.0@, id.0) && !in_forest(prev@, id.0)),
        forall|id: NodeId| #[trigger] r.1.reused@.contains(id) <==> (in_forest(r.0@, id.0) && in_forest(prev@, id.0)),
        forall|id: NodeId| #[trigger] r.1.removed@.contains(id) <==> (in_forest(prev@, id.0) && !in_forest(r.0@, id.0)),
    decreases views@,
{
    let ghost old0 = prev@;
    let ghost n0 = *next;
    let n = views.len();
    // Lay the old entries out in slots that can be taken one by one.
    let m = prev.len();
    let mut rest = prev;
    let mut slots: Vec<Option<Entry>> = Vec::new();
    while rest.len() > 0
        invariant
            m == old0.len(),
            slots@.len() + rest@.len() == m,
            rest@ == old0.subrange(slots@.len() as int, m as int),
            forall|j: int| 0 <= j < slots@.len() ==> #[trigger] slots@[j] == Some(old0[j]),
        decreases rest@.len(),
    {
        let e = rest.remove(0);
        slots.push(Some(e));
    }
    let mut result: Vec<Entry> = Vec::new();
    let mut report = ReconcileReport { mounted: Vec::new(), reused: Vec::new(), removed: Vec::new() };
    let ghost mut origin: Seq<int> = Seq::empty();
    let ghost mut marks: Seq<int> = seq![n0 as int];
    let mut i: usize = 0;
    while i < n
        invariant
            n == views@.len(),
            m == old0.len(),
            views_valid(views@),
            forest_wf(old0, parent),
            forest_keys(old0),
            forest_unique(old0),
            bounded(old0, 1, n0 as int),
            1 <= n0 <= *next,
            parent matches Some(p) ==> p.0 < n0 && !in_forest(old0, p.0),
            n0 + view_count(views@) <= u64::MAX,
            0 <= i <= n,
            *next <= n0 + view_count(views@.take(i as int)),
            result@.len() == i,
            slots@.len() == m,
            origin.len() == i,
            marks.len() == i + 1,
            marks[0] == n0,
            marks[i as int] == *next,
            forall|a: int, b: int| 0 <= a <= b <= i ==> marks[a] <= marks[b],
            forall|j: int| 0 <= j < m ==> (#[trigger] slots@[j] matches Some(x) ==> x == old0[j]),
            forall|a: int|
                0 <= a < i ==> (#[trigger] origin[a] == -1 || (0 <= origin[a] < m
                    && slots@[origin[a]] is None && old0[origin[a]].node.key@ == views@[a].key@)),
            forall|a: int| 0 <= a < i ==> #[trigger] placed(result@[a], views@[a], parent),
            forall|a: int|
                0 <= a < i ==> #[trigger] ids_from(result@[a], old0, origin[a], marks[a], marks[a + 1]),
            forall|j: int| 0 <= j < m && (#[trigger] slots@[j]) is None ==> exists|a: int| 0 <= a < i && origin[a] == j,
            forall|a: int|
                0 <= a < i ==> {
                    &&& forall|j: int|
                        0 <= j < m && (#[trigger] old0[j]).node.key@ == (#[trigger] views@[a]).key@ ==> {
                            &&& result@[a].node.id == old0[j].node.id
                            &&& result@[a].node.dirty.0 == (if changed(old0[j].node, views@[a]) {
                                old0[j].node.dirty.0 | 15u8
                            } else {
                                old0[j].node.dirty.0
                            })
                            &&& reuses(old0[j].kids@, result@[a].kids@, views@[a].children@, n0 as int)
                        }
                    &&& key_absent(old0, views@[a].key@) ==> {
                        &&& result@[a].node.id.0 >= n0
                        &&& result@[a].node.dirty.0 == 31
                        &&& fresh_forest(result@[a].kids@, n0 as int)
                    }
                },
            report.mounted@ == id_range(n0 as int, *next as int),
            report.mounted@ == preorder(result@).filter(issued_from(n0 as int)),
            report.reused@ == preorder(result@).filter(issued_before(n0 as int)),
            report.removed@.no_duplicates(),
            forall|id: NodeId| #[trigger] report.mounted@.contains(id) <==> (exists|a: int| 0 <= a < i && #[trigger] in_entry(result@[a], id.0) && !in_forest(old0, id.0)),
            forall|id: NodeId| #[trigger] report.reused@.contains(id) <==> (exists|a: int| 0 <= a < i && #[trigger] in_entry(result@[a], id.0) && in_forest(old0, id.0)),
            forall|id: NodeId| #[trigger] report.removed@.contains(id) <==> (exists|a: int| 0 <= a < i && 0 <= #[trigger] origin[a] && in_entry(old0[origin[a]], id.0) && !in_entry(result@[a], id.0)),
        decreases n - i,
    {
        let v = &views[i];
        let ghost rep0 = report;
        let ghost slots0 = slots@;
        let ghost origin0 = origin;
        // The last old sibling carrying the same key, if any.
        let mut found: Option<usize> = None;
        let mut j: usize = 0;
        while j < m
            invariant
                m == slots@.len(),
                0 <= j <= m,
                found matches Some(f) ==> f < j && slots@[f as int] is Some,
                found matches Some(f) ==> slots@[f as int]->Some_0.node.key@ == v.key@,
                found is None ==> forall|j2: int| 0 <= j2 < j && #[trigger] slots@[j2] is Some ==> slots@[j2]->Some_0.node.key@ != v.key@,
            decreases m - j,
        {
            match &slots[j] {
                Some(e) => {
                    if e.node.key.same_as(&v.key) {
                        found = Some(j);
                    }
                },
                None => {},
            }
            j += 1;
        }
        proof {
            lemma_view_count_prefix(views@, i + 1);
            let t = views@.take(i + 1);
            assert(t.take(i as int) == views@.take(i as int));
            assert(t[i as int] == views@[i as int]);
            assert(decreases_to!(views@ => views@[i as int]));
        }
        let ghost next_before = *next;
        let (node, kids_old) = match found {
            Some(f) => {
                let mut taken: Option<Entry> = None;
                std::mem::swap(&mut slots[f], &mut taken);
                let e = taken.unwrap();
                report.reused.push(e.node.id);
                proof {
                    origin = origin.push(f as int);
                    assert(e == old0[f as int]);
                    assert forall|j2: int| 0 <= j2 < m && (#[trigger] old0[j2]).node.key@ == v.key@ implies j2 == f by {
                        if j2 != f {
                            if j2 < f {
                                assert(old0[j2].node.key@ != old0[f as int].node.key@);
                            } else {
                                assert(old0[f as int].node.key@ != old0[j2].node.key@);
                            }
                        }
                    }
                    assert(in_entry(old0[f as int], e.node.id.0));
                    assert(in_forest(old0, e.node.id.0));
                    assert forall|k: u64| #[trigger] in_forest(e.kids@, k) implies 1 <= k < *next by {
                        assert(in_entry(old0[f as int], k));
                        assert(in_forest(old0, k));
                    }
                }
                let Entry { node, kids } = e;
                (node, kids)
            },
            None => {
                let id = NodeId(*next);
                *next = *next + 1;
                report.mounted.push(id);
                proof {
                    assert(report.mounted@ =~= id_range(n0 as int, *next as int));
                    origin = origin.push(-1);
                    assert forall|j2: int| 0 <= j2 < m implies (#[trigger] old0[j2]).node.key@ != v.key@ by {
                        if slots@[j2] is None {
                            let a = choose|a: int| 0 <= a < i && origin0[a] == j2;
                            assert(old0[origin0[a]].node.key@ == views@[a].key@);
                            assert(keys_distinct(views@));
                        }
                    }
                    assert(key_absent(old0, v.key@));
                }
                (
                    Node {
                        id,
                        key: v.key.clone(),
                        kind: v.kind.clone(),
                        parent,
                        children: Vec::new(),
                        dirty: DirtyFlags(31u8),
                        focusable: v.focusable,
                        disabled: v.disabled,
                    },
                    Vec::new(),
                )
            },
        };
        let ghost kids0 = kids_old@;
        let ghost next_mid = *next;
        let (new_kids, sub_report) = reconcile_children(next, Some(node.id), kids_old, v.children.as_slice());
        let ghost mounted_before = report.mounted@;
        let ghost reused_before = report.reused@;
        let ghost sub = sub_report;
        merge(&mut report, sub_report);
        proof {
            assert(mounted_before + sub_report.mounted@ =~= id_range(n0 as int, *next as int));
            let o = origin[i as int];
            assert forall|x: int, y: int| 0 <= x < rep0.removed@.len() && 0 <= y < sub.removed@.len() implies rep0.removed@[x]
                != sub.removed@[y] by {
                let id = sub.removed@[y];
                assert(sub.removed@.contains(id));
                if rep0.removed@[x] == id {
                    assert(rep0.removed@.contains(id));
                    let a = choose|a: int| 0 <= a < i && 0 <= #[trigger] origin0[a] && in_entry(old0[origin0[a]], id.0) && !in_entry(result@[a], id.0);
                    assert(origin[a] == origin0[a]);
                    assert(in_forest(kids0, id.0));
                    assert(o >= 0);
                    assert(in_entry(old0[o], id.0));
                    assert(slots0[origin0[a]] is None);
                    assert(origin0[a] != o);
                    if origin0[a] < o {
                        assert(!(in_entry(old0[origin0[a]], id.0) && in_entry(old0[o], id.0)));
                    } else {
                        assert(!(in_entry(old0[o], id.0) && in_entry(old0[origin0[a]], id.0)));
                    }
                }
            }
            vstd::seq_lib::lemma_no_dup_in_concat(rep0.removed@, sub.removed@);
        }
        let mut node = node;
        if !(node.kind == v.kind) || node.focusable != v.focusable || node.disabled != v.disabled {
            node.dirty.insert(DirtyFlags(15u8));
        }
        node.kind = v.kind.clone();
        node.parent = parent;
        node.children = collect_ids(&new_kids);
        node.focusable = v.focusable;
        node.disabled = v.disabled;
        let entry = Entry { node, kids: new_kids };
        proof {
            if origin[i as int] >= 0 {
                lemma_reuses_weaken(kids0, entry.kids@, v.children@, n0 as int, next_mid as int);
            } else {
                lemma_reuses_empty(entry.kids@, v.children@, next_mid as int);
                lemma_fresh_weaken(entry.kids@, n0 as int, next_mid as int);
            }
            marks = marks.push(*next as int);
            let o = origin[i as int];
            assert forall|k: u64| #[trigger] in_entry(entry, k) implies ((0 <= o < m && in_entry(old0[o], k)) || (marks[i as int] <= k < marks[i + 1])) by {
                if in_forest(entry.kids@, k) {
                    if in_forest(kids0, k) {
                        assert(in_entry(old0[o], k));
                    }
                }
            }
            assert(ids_from(entry, old0, o, marks[i as int], marks[i + 1]));
            assert(!in_forest(entry.kids@, entry.node.id.0));
            assert(placed(entry, views@[i as int], parent));
        }
        let ghost prev_result = result@;
        result.push(entry);
        proof {
            broadcast use vstd::seq_lib::lemma_seq_concat_contains_all_elements, vstd::seq_lib::lemma_seq_contains_after_push;
            let o = origin[i as int];
            let eid = entry.node.id;
            assert(result@[i as int] == entry);
            assert forall|a: int| 0 <= a < i implies result@[a] == prev_result[a] by {}
            assert forall|id: NodeId| #[trigger] report.mounted@.contains(id) <==> (exists|a: int| 0 <= a < i + 1 && #[trigger] in_entry(result@[a], id.0) && !in_forest(old0, id.0)) by {
                if report.mounted@.contains(id) {
                    if rep0.mounted@.contains(id) {
                        let a = choose|a: int| 0 <= a < i && #[trigger] in_entry(prev_result[a], id.0) && !in_forest(old0, id.0);
                        assert(in_entry(result@[a], id.0));
                    } else {
                        if o < 0 && id == eid {
                            assert(in_entry(result@[i as int], id.0));
                            assert(!in_forest(old0, id.0));
                        } else {
                            assert(in_forest(entry.kids@, id.0) && !in_forest(kids0, id.0));
                            assert(in_entry(result@[i as int], id.0));
                        }
                    }
                }
                if exists|a: int| 0 <= a < i + 1 && #[trigger] in_entry(result@[a], id.0) && !in_forest(old0, id.0) {
                    let a = choose|a: int| 0 <= a < i + 1 && #[trigger] in_entry(result@[a], id.0) && !in_forest(old0, id.0);
                    if a < i {
                        assert(in_entry(prev_result[a], id.0));
                        assert(rep0.mounted@.contains(id));
                    } else if id == eid {
                        if o >= 0 {
                            assert(in_entry(old0[o], id.0));
                            assert(false);
                        }
                    } else {
                        assert(in_forest(entry.kids@, id.0));
                        if in_forest(kids0, id.0) {
                            assert(in_entry(old0[o], id.0));
                        }
                    }
                }
            }
            assert forall|id: NodeId| #[trigger] report.reused@.contains(id) <==> (exists|a: int| 0 <= a < i + 1 && #[trigger] in_entry(result@[a], id.0) && in_forest(old0, id.0)) by {
                if report.reused@.contains(id) {
                    if rep0.reused@.contains(id) {
                        let a = choose|a: int| 0 <= a < i && #[trigger] in_entry(prev_result[a], id.0) && in_forest(old0, id.0);
                        assert(in_entry(result@[a], id.0));
                    } else {
                        assert(in_entry(result@[i as int], id.0));
                        if o >= 0 && id == eid {
                            assert(in_entry(old0[o], id.0));
                        } else {
                            assert(in_forest(kids0, id.0));
                            assert(in_entry(old0[o], id.0));
                        }
                    }
                }
                if exists|a: int| 0 <= a < i + 1 && #[trigger] in_entry(result@[a], id.0) && in_forest(old0, id.0) {
                    let a = choose|a: int| 0 <= a < i + 1 && #[trigger] in_entry(result@[a], id.0) && in_forest(old0, id.0);
                    if a < i {
                        assert(in_entry(prev_result[a], id.0));
                        assert(rep0.reused@.contains(id));
                    } else if id == eid {
                        if o < 0 {
                            assert(false);
                        }
                    } else {
                        assert(in_forest(entry.kids@, id.0));
                    }
                }
            }
            assert forall|id: NodeId| #[trigger] report.removed@.contains(id) <==> (exists|a: int| 0 <= a < i + 1 && 0 <= #[trigger] origin[a] && in_entry(old0[origin[a]], id.0) && !in_entry(result@[a], id.0)) by {
                if report.removed@.contains(id) {
                    if rep0.removed@.contains(id) {
                        let a = choose|a: int| 0 <= a < i && 0 <= #[trigger] origin0[a] && in_entry(old0[origin0[a]], id.0) && !in_entry(prev_result[a], id.0);
                        assert(origin[a] == origin0[a]);
                    } else {
                        assert(in_forest(kids0, id.0) && !in_forest(entry.kids@, id.0));
                        assert(o >= 0);
                        assert(in_entry(old0[o], id.0));
                        assert(id.0 != eid.0);
                        assert(!in_entry(result@[i as int], id.0));
                    }
                }
                if exists|a: int| 0 <= a < i + 1 && 0 <= #[trigger] origin[a] && in_entry(old0[origin[a]], id.0) && !in_entry(result@[a], id.0) {
                    let a = choose|a: int| 0 <= a < i + 1 && 0 <= #[trigger] origin[a] && in_entry(old0[origin[a]], id.0) && !in_entry(result@[a], id.0);
                    if a < i {
                        assert(origin[a] == origin0[a]);
                        assert(!in_entry(prev_result[a], id.0));
                        assert(rep0.removed@.contains(id));
                    } else {
                        assert(in_forest(kids0, id.0));
                    }
                }
            }
            assert forall|j: int| 0 <= j < m && (#[trigger] slots@[j]) is None implies exists|a: int| 0 <= a < i + 1 && origin[a] == j by {
                if origin[i as int] == j {
                } else {
                    assert(slots0[j] is None);
                    let a = choose|a: int| 0 <= a < i && origin0[a] == j;
                    assert(origin[a] == j);
                }
            }
        }
        proof {
            let o = origin[i as int];
            let eid = entry.node.id;
            let kk = entry.kids@;
            let pk = preorder(kk);
            lemma_preorder_push(prev_result, entry);
            assert forall|j: int| 0 <= j < pk.len() implies issued_from(n0 as int)(#[trigger] pk[j]) == issued_from(next_mid as int)(pk[j]) by {
                let id = pk[j];
                assert(pk.contains(id));
                lemma_preorder_members(kk, id);
                if in_forest(kids0, id.0) {
                    assert(in_entry(old0[o], id.0));
                    assert(in_forest(old0, id.0));
                }
            }
            assert forall|j: int| 0 <= j < pk.len() implies issued_before(n0 as int)(#[trigger] pk[j]) == issued_before(next_mid as int)(pk[j]) by {
                let id = pk[j];
                assert(pk.contains(id));
                lemma_preorder_members(kk, id);
                if in_forest(kids0, id.0) {
                    assert(in_entry(old0[o], id.0));
                    assert(in_forest(old0, id.0));
                }
            }
            lemma_filter_agree(pk, issued_from(n0 as int), issued_from(next_mid as int));
            lemma_filter_agree(pk, issued_before(n0 as int), issued_before(next_mid as int));
            assert(seq![eid] =~= Seq::<NodeId>::empty().push(eid));
            Seq::<NodeId>::empty().lemma_filter_push(eid, issued_from(n0 as int));
            Seq::<NodeId>::empty().lemma_filter_push(eid, issued_before(n0 as int));
            assert(Seq::<NodeId>::empty().filter(issued_from(n0 as int)) =~= Seq::<NodeId>::empty());
            assert(Seq::<NodeId>::empty().filter(issued_before(n0 as int)) =~= Seq::<NodeId>::empty());
            let pp = preorder(prev_result);
            Seq::filter_distributes_over_add(pp + seq![eid], pk, issued_from(n0 as int));
            Seq::filter_distributes_over_add(pp, seq![eid], issued_from(n0 as int));
            Seq::filter_distributes_over_add(pp + seq![eid], pk, issued_before(n0 as int));
            Seq::filter_distributes_over_add(pp, seq![eid], issued_before(n0 as int));
            if o >= 0 {
                assert(in_entry(old0[o], eid.0));
                assert(in_forest(old0, eid.0));
                assert(report.mounted@ =~= preorder(result@).filter(issued_from(n0 as int)));
                assert(report.reused@ =~= preorder(result@).filter(issued_before(n0 as int)));
            } else {
                assert(report.mounted@ =~= preorder(result@).filter(issued_from(n0 as int)));
                assert(report.reused@ =~= preorder(result@).filter(issued_before(n0 as int)));
            }
        }
        i += 1;
    }
    proof {
        assert(views@.take(n as int) == views@);
        let f = result@;
        assert forall|a: int| 0 <= a < f.len() implies {
            &&& (#[trigger] f[a]).node.parent == parent
            &&& f[a].node.children@ == ids_of(f[a].kids@)
            &&& forest_wf(f[a].kids@, Some(f[a].node.id))
        } by {
            assert(placed(f[a], views@[a], parent));
        }
        assert(forest_wf(f, parent));
        assert forall|a: int| 0 <= a < views@.len() implies {
            &&& f[a].node.key@ == (#[trigger] views@[a]).key@
            &&& f[a].node.kind@ == views@[a].kind@
            &&& f[a].node.focusable == views@[a].focusable
            &&& f[a].node.disabled == views@[a].disabled
            &&& forest_mirrors(f[a].kids@, views@[a].children@)
        } by {
            assert(placed(f[a], views@[a], parent));
        }
        assert(forest_mirrors(f, views@));
        assert forall|a: int, b: int| 0 <= a < b < f.len() implies f[a].node.key@ != f[b].node.key@ by {
            assert(placed(f[a], views@[a], parent));
            assert(placed(f[b], views@[b], parent));
            assert(keys_distinct(views@));
        }
        assert forall|a: int| 0 <= a < f.len() implies forest_keys((#[trigger] f[a]).kids@) by {
            assert(placed(f[a], views@[a], parent));
        }
        assert(forest_keys(f));
        assert forall|a: int, b: int, k: u64|
            0 <= a < b < f.len() implies !(#[trigger] in_entry(f[a], k) && #[trigger] in_entry(f[b], k)) by {
            if in_entry(f[a], k) && in_entry(f[b], k) {
                assert(ids_from(f[a], old0, origin[a], marks[a], marks[a + 1]));
                assert(ids_from(f[b], old0, origin[b], marks[b], marks[b + 1]));
                assert(marks[a + 1] <= marks[b]);
                let oa = origin[a];
                let ob = origin[b];
                if 0 <= oa < m && in_entry(old0[oa], k) && 0 <= ob < m && in_entry(old0[ob], k) {
                    assert(keys_distinct(views@));
                    assert(oa != ob);
                    if oa < ob {
                        assert(!(in_entry(old0[oa], k) && in_entry(old0[ob], k)));
                    } else {
                        assert(!(in_entry(old0[ob], k) && in_entry(old0[oa], k)));
                    }
                }
                if 0 <= oa < m && in_entry(old0[oa], k) {
                    assert(in_forest(old0, k));
                }
                if 0 <= ob < m && in_entry(old0[ob], k) {
                    assert(in_forest(old0, k));
                }
            }
        }
        assert forall|a: int| 0 <= a < f.len() implies {
            &&& !in_forest((#[trigger] f[a]).kids@, f[a].node.id.0)
            &&& forest_unique(f[a].kids@)
        } by {
            assert(placed(f[a], views@[a], parent));
        }
        assert(forest_unique(f));
        assert forall|a: int| 0 <= a < views@.len() implies {
            &&& forall|j: int|
                0 <= j < old0.len() && (#[trigger] old0[j]).node.key@ == (#[trigger] views@[a]).key@ ==> {
                    &&& f[a].node.id == old0[j].node.id
                    &&& f[a].node.dirty.0 == (if changed(old0[j].node, views@[a]) {
                        old0[j].node.dirty.0 | 15u8
                    } else {
                        old0[j].node.dirty.0
                    })
                    &&& reuses(old0[j].kids@, f[a].kids@, views@[a].children@, n0 as int)
                }
            &&& key_absent(old0, views@[a].key@) ==> {
                &&& f[a].node.id.0 >= n0
                &&& f[a].node.dirty.0 == 31
                &&& fresh_forest(f[a].kids@, n0 as int)
            }
        } by {
        }
        assert(reuses(old0, f, views@, n0 as int));
        assert forall|k: u64| #[trigger] in_forest(f, k) implies 1 <= k < *next && (in_forest(old0, k) || n0 <= k) by {
            let a = choose|a: int| 0 <= a < f.len() && in_entry(#[trigger] f[a], k);
            assert(ids_from(f[a], old0, origin[a], marks[a], marks[a + 1]));
            assert(marks[a + 1] <= marks[i as int]);
            let oa = origin[a];
            if 0 <= oa < m && in_entry(old0[oa], k) {
                assert(in_forest(old0, k));
            }
        }
    }
    // Old siblings whose key is gone leave the tree with their descendants.
    let ghost slots_end = slots@;
    let ghost rep_end = report;
    proof {
        assert forall|id: NodeId| #[trigger] rep_end.removed@.contains(id) implies exists|p: int|
            0 <= p < m && slots_end[p] is None && in_entry(old0[p], id.0) by {
            let a = choose|a: int| 0 <= a < i && 0 <= #[trigger] origin[a] && in_entry(old0[origin[a]], id.0) && !in_entry(result@[a], id.0);
            assert(slots_end[origin[a]] is None);
        }
    }
    let mut j: usize = 0;
    while j < m
        invariant
            m == slots@.len(),
            m == slots_end.len(),
            0 <= j <= m,
            forall|j2: int| j <= j2 < m ==> #[trigger] slots@[j2] == slots_end[j2],
            forall|j2: int| 0 <= j2 < m ==> (#[trigger] slots_end[j2] matches Some(x) ==> x == old0[j2]),
            report.mounted@ == rep_end.mounted@,
            report.reused@ == rep_end.reused@,
            forall|id: NodeId| #[trigger] report.removed@.contains(id) <==> (rep_end.removed@.contains(id) || exists|j2: int| 0 <= j2 < j && #[trigger] slots_end[j2] is Some && in_entry(old0[j2], id.0)),
            forall|id: NodeId| #[trigger] rep_end.removed@.contains(id) ==> exists|p: int|
                0 <= p < m && slots_end[p] is None && in_entry(old0[p], id.0),
            forest_unique(old0),
            m == old0.len(),
            report.removed@.no_duplicates(),
        decreases m - j,
    {
        let ghost before = report.removed@;
        proof {
            if slots_end[j as int] is Some {
                let e = old0[j as int];
                assert forall|id: NodeId| #[trigger] before.contains(id) implies !in_entry(e, id.0) by {
                    let p = if rep_end.removed@.contains(id) {
                        choose|p: int| 0 <= p < m && slots_end[p] is None && in_entry(old0[p], id.0)
                    } else {
                        choose|j2: int| 0 <= j2 < j && #[trigger] slots_end[j2] is Some && in_entry(old0[j2], id.0)
                    };
                    assert(in_entry(old0[p], id.0));
                    assert(p != j);
                    if p < j {
                        assert(!(in_entry(old0[p], id.0) && in_entry(old0[j as int], id.0)));
                    } else {
                        assert(!(in_entry(old0[j as int], id.0) && in_entry(old0[p], id.0)));
                    }
                }
                assert(!in_forest(e.kids@, e.node.id.0) && forest_unique(e.kids@));
            }
        }
        let mut taken: Option<Entry> = None;
        std::mem::swap(&mut slots[j], &mut taken);
        match taken {
            Some(e) => remove_subtree(e, &mut report.removed),
            None => {},
        }
        proof {
            assert forall|id: NodeId| #[trigger] report.removed@.contains(id) <==> (rep_end.removed@.contains(id) || exists|j2: int| 0 <= j2 < j + 1 && #[trigger] slots_end[j2] is Some && in_entry(old0[j2], id.0)) by {
                if exists|j2: int| 0 <= j2 < j + 1 && #[trigger] slots_end[j2] is Some && in_entry(old0[j2], id.0) {
                    let j2 = choose|j2: int| 0 <= j2 < j + 1 && #[trigger] slots_end[j2] is Some && in_entry(old0[j2], id.0);
                    if j2 < j {
                        assert(before.contains(id));
                    }
                }
            }
        }
        j += 1;
    }
    proof {
        let f = result@;
        assert forall|id: NodeId| #[trigger] report.removed@.contains(id) <==> (in_forest(old0, id.0) && !in_forest(f, id.0)) by {
            if report.removed@.contains(id) {
                if rep_end.removed@.contains(id) {
                    let a = choose|a: int| 0 <= a < i && 0 <= #[trigger] origin[a] && in_entry(old0[origin[a]], id.0) && !in_entry(f[a], id.0);
                    assert(in_forest(old0, id.0));
                    if in_forest(f, id.0) {
                        let b = choose|b: int| 0 <= b < f.len() && in_entry(#[trigger] f[b], id.0);
                        assert(ids_from(f[b], old0, origin[b], marks[b], marks[b + 1]));
                        assert(marks[0] <= marks[b]);
                        let oa = origin[a];
                        let ob = origin[b];
                        assert(0 <= ob < m && in_entry(old0[ob], id.0));
                        assert(b != a);
                        assert(keys_distinct(views@));
                        assert(oa != ob);
                        if oa < ob {
                            assert(!(in_entry(old0[oa], id.0) && in_entry(old0[ob], id.0)));
                        } else {
                            assert(!(in_entry(old0[ob], id.0) && in_entry(old0[oa], id.0)));
                        }
                    }
                } else {
                    let j2 = choose|j2: int| 0 <= j2 < m && #[trigger] slots_end[j2] is Some && in_entry(old0[j2], id.0);
                    assert(in_forest(old0, id.0));
                    if in_forest(f, id.0) {
                        let b = choose|b: int| 0 <= b < f.len() && in_entry(#[trigger] f[b], id.0);
                        assert(ids_from(f[b], old0, origin[b], marks[b], marks[b + 1]));
                        assert(marks[0] <= marks[b]);
                        let ob = origin[b];
                        assert(0 <= ob < m && in_entry(old0[ob], id.0));
                        assert(slots_end[ob] is None);
                        assert(ob != j2);
                        if j2 < ob {
                            assert(!(in_entry(old0[j2], id.0) && in_entry(old0[ob], id.0)));
                        } else {
                            assert(!(in_entry(old0[ob], id.0) && in_entry(old0[j2], id.0)));
                        }
                    }
                }
            }
            if in_forest(old0, id.0) && !in_forest(f, id.0) {
                let j2 = choose|j2: int| 0 <= j2 < m && in_entry(#[trigger] old0[j2], id.0);
                if slots_end[j2] is Some {
                    assert(report.removed@.contains(id));
                } else {
                    let a = choose|a: int| 0 <= a < i && origin[a] == j2;
                    assert(0 <= origin[a]);
                    assert(!in_entry(f[a], id.0));
                    assert(rep_end.removed@.contains(id));
                }
            }
        }
        assert forall|id: NodeId| #[trigger] report.mounted@.contains(id) <==> (in_forest(f, id.0) && !in_forest(old0, id.0)) by {
            if in_forest(f, id.0) && !in_forest(old0, id.0) {
                let b = choose|b: int| 0 <= b < f.len() && in_entry(#[trigger] f[b], id.0);
                assert(rep_end.mounted@.contains(id));
            }
        }
        assert forall|id: NodeId| #[trigger] report.reused@.contains(id) <==> (in_forest(f, id.0) && in_forest(old0, id.0)) by {
            if in_forest(f, id.0) && in_forest(old0, id.0) {
                let b = choose|b: int| 0 <= b < f.len() && in_entry(#[trigger] f[b], id.0);
                assert(rep_end.reused@.contains(id));
            }
        }
    }
    (result, report)
}

} // verus!

verus! {

/// The entry whose node has id `k`, searching entry `i` of the forest and
/// then the entries after it, each before its descendants.
spec fn find_entry(f: Seq<Entry>, k: u64, i: int) -> Option<Entry>
    decreases f, f.len() - i,
{
    if i < 0 || i >= f.len() {
        None
    } else if f[i].node.id.0 == k {
        Some(f[i])
    } else {
        proof {
            assert(decreases_to!(f => f[i]));
        }
        match find_entry(f[i].kids@, k, 0) {
            Some(e) => Some(e),
            None => find_entry(f, k, i + 1),
        }
    }
}

/// The search finds an entry exactly when the id occurs, and what it finds
/// carries that id.
proof fn lemma_find_entry(f: Seq<Entry>, k: u64, i: int)
    requires
        0 <= i <= f.len(),
    ensures
        find_entry(f, k, i) is Some <==> exists|c: int| i <= c < f.len() && in_entry(#[trigger] f[c], k),
        find_entry(f, k, i) matches Some(e) ==> e.node.id.0 == k,
    decreases f, f.len() - i,
{
    if i < f.len() {
        assert(decreases_to!(f => f[i]));
        lemma_find_entry(f[i].kids@, k, 0);
        lemma_find_entry(f, k, i + 1);
        if exists|c: int| i <= c < f.len() && in_entry(#[trigger] f[c], k) {
            let c = choose|c: int| i <= c < f.len() && in_entry(#[trigger] f[c], k);
            if c > i {
                assert(exists|c2: int| i + 1 <= c2 < f.len() && in_entry(#[trigger] f[c2], k));
            }
        }
    }
}

/// In a forest without repeated ids, searching for the id of entry `j`
/// finds entry `j`.
proof fn lemma_find_sibling(f: Seq<Entry>, j: int, i: int)
    requires
        forest_unique(f),
        0 <= i <= j < f.len(),
    ensures
        find_entry(f, f[j].node.id.0, i) == Some(f[j]),
    decreases j - i,
{
    let k = f[j].node.id.0;
    if i < j {
        assert(in_entry(f[j], k));
        assert(!in_entry(f[i], k));
        lemma_find_entry(f[i].kids@, k, 0);
        if find_entry(f[i].kids@, k, 0) is Some {
            let c = choose|c: int| 0 <= c < f[i].kids@.len() && in_entry(#[trigger] f[i].kids@[c], k);
            assert(in_forest(f[i].kids@, k));
        }
        lemma_find_sibling(f, j, i + 1);
    }
}

/// Whether id `k` occurs in the forest.
fn contains_in(f: &Vec<Entry>, k: u64) -> (r: bool)
    ensures
        r == in_forest(f@, k),
    decreases f@,
{
    let mut i: usize = 0;
    while i < f.len()
        invariant
            0 <= i <= f@.len(),
            forall|c: int| 0 <= c < i ==> !in_entry(#[trigger] f@[c], k),
        decreases f@.len() - i,
    {
        if f[i].node.id.0 == k {
            return true;
        }
        proof {
            assert(decreases_to!(f@ => f@[i as int]));
        }
        if contains_in(&f[i].kids, k) {
            return true;
        }
        i += 1;
    }
    false
}

/// The node with id `k`, if it occurs in the forest.
fn find_node<'a>(f: &'a Vec<Entry>, k: u64, i: usize) -> (r: Option<&'a Node>)
    requires
        i <= f@.len(),
    ensures
        match r {
            Some(n) => find_entry(f@, k, i as int) matches Some(e) && e.node == *n,
            None => find_entry(f@, k, i as int) is None,
        },
    decreases f@, f@.len() - i,
{
    if i >= f.len() {
        return None;
    }
    if f[i].node.id.0 == k {
        return Some(&f[i].node);
    }
    proof {
        assert(decreases_to!(f@ => f@[i as int]));
    }
    match find_node(&f[i].kids, k, 0) {
        Some(n) => Some(n),
        None => find_node(f, k, i + 1),
    }
}

} // verus!

verus! {

/// `new` is `old` with the bits of `fl` added to the dirty flags of the node
/// with id `k`, and, when `fl` propagates, to those of all its ancestors;
/// nothing else differs.
spec fn mark_rel(old: Seq<Entry>, new: Seq<Entry>, k: u64, fl: u8) -> bool
    decreases old,
{
    &&& new.len() == old.len()
    &&& forall|i: int|
        0 <= i < old.len() ==> {
            &&& (#[trigger] new[i]).node == Node {
                dirty: DirtyFlags(
                    if old[i].node.id.0 == k || (propagates(fl) && in_forest(old[i].kids@, k)) {
                        old[i].node.dirty.0 | fl
                    } else {
                        old[i].node.dirty.0
                    },
                ),
                ..old[i].node
            }
            &&& mark_rel(old[i].kids@, new[i].kids@, k, fl)
        }
}

/// `new` is `old` with the dirty flags of the node with id `k` cleared;
/// nothing else differs.
spec fn clear_rel(old: Seq<Entry>, new: Seq<Entry>, k: u64) -> bool
    decreases old,
{
    &&& new.len() == old.len()
    &&& forall|i: int|
        0 <= i < old.len() ==> {
            &&& (#[trigger] new[i]).node == Node {
                dirty: DirtyFlags(if old[i].node.id.0 == k { 0u8 } else { old[i].node.dirty.0 }),
                ..old[i].node
            }
            &&& clear_rel(old[i].kids@, new[i].kids@, k)
        }
}

/// Two forests with the same shape and the same nodes but for their dirty
/// flags.
spec fn same_shape(a: Seq<Entry>, b: Seq<Entry>) -> bool
    decreases a,
{
    &&& a.len() == b.len()
    &&& forall|i: int|
        0 <= i < a.len() ==> {
            &&& (#[trigger] a[i]).node.id == b[i].node.id
            &&& a[i].node.key == b[i].node.key
            &&& a[i].node.kind == b[i].node.kind
            &&& a[i].node.parent == b[i].node.parent
            &&& a[i].node.children == b[i].node.children
            &&& a[i].node.focusable == b[i].node.focusable
            &&& a[i].node.disabled == b[i].node.disabled
            &&& same_shape(a[i].kids@, b[i].kids@)
        }
}

proof fn lemma_mark_shape(old: Seq<Entry>, new: Seq<Entry>, k: u64, fl: u8)
    requires
        mark_rel(old, new, k, fl),
    ensures
        same_shape(old, new),
    decreases old,
{
    assert forall|i: int| 0 <= i < old.len() implies same_shape((#[trigger] old[i]).kids@, new[i].kids@) by {
        lemma_mark_shape(old[i].kids@, new[i].kids@, k, fl);
    }
}

proof fn lemma_clear_shape(old: Seq<Entry>, new: Seq<Entry>, k: u64)
    requires
        clear_rel(old, new, k),
    ensures
        same_shape(old, new),
    decreases old,
{
    assert forall|i: int| 0 <= i < old.len() implies same_shape((#[trigger] old[i]).kids@, new[i].kids@) by {
        lemma_clear_shape(old[i].kids@, new[i].kids@, k);
    }
}

/// Forests of the same shape hold the same ids and the same structure.
#[verifier::spinoff_prover]
proof fn lemma_same_shape(a: Seq<Entry>, b: Seq<Entry>, parent: Option<NodeId>)
    requires
        same_shape(a, b),
    ensures
        forall|k: u64| #![trigger in_forest(a, k)] #![trigger in_forest(b, k)] in_forest(a, k) == in_forest(b, k),
        forest_wf(a, parent) ==> forest_wf(b, parent),
        forest_keys(a) ==> forest_keys(b),
        forest_unique(a) ==> forest_unique(b),
    decreases a,
{
    assert forall|i: int| 0 <= i < a.len() implies {
        &&& forall|k: u64| #[trigger] in_forest((#[trigger] a[i]).kids@, k) == in_forest(b[i].kids@, k)
        &&& forest_wf(a[i].kids@, Some(a[i].node.id)) ==> forest_wf(b[i].kids@, Some(a[i].node.id))
        &&& forest_keys(a[i].kids@) ==> forest_keys(b[i].kids@)
        &&& forest_unique(a[i].kids@) ==> forest_unique(b[i].kids@)
        &&& ids_of(a[i].kids@) == ids_of(b[i].kids@)
    } by {
        lemma_same_shape(a[i].kids@, b[i].kids@, Some(a[i].node.id));
        assert(ids_of(a[i].kids@) =~= ids_of(b[i].kids@));
    }
    assert forall|k: u64| #[trigger] in_forest(a, k) == in_forest(b, k) by {
        if in_forest(a, k) {
            let c = choose|c: int| 0 <= c < a.len() && in_entry(#[trigger] a[c], k);
            assert(in_entry(b[c], k));
        }
        if in_forest(b, k) {
            let c = choose|c: int| 0 <= c < b.len() && in_entry(#[trigger] b[c], k);
            assert(in_entry(a[c], k));
        }
    }
    if forest_wf(a, parent) {
        assert forall|i: int| 0 <= i < b.len() implies {
            &&& (#[trigger] b[i]).node.parent == parent
            &&& b[i].node.children@ == ids_of(b[i].kids@)
            &&& forest_wf(b[i].kids@, Some(b[i].node.id))
        } by {
            let ai = a[i];
            let bi = b[i];
            assert(ai.node.parent == parent);
            assert(bi.node.parent == ai.node.parent);
            assert(ai.node.children@ == ids_of(ai.kids@));
            assert(ids_of(ai.kids@) == ids_of(bi.kids@));
            assert(forest_wf(ai.kids@, Some(ai.node.id)));
            assert(forest_wf(bi.kids@, Some(ai.node.id)));
        }
    }
    if forest_keys(a) {
        assert forall|i: int| 0 <= i < b.len() implies forest_keys((#[trigger] b[i]).kids@) by {
            let ai = a[i];
            assert(forest_keys(ai.kids@));
        }
        assert forall|i: int, j: int| 0 <= i < j < b.len() implies b[i].node.key@ != b[j].node.key@ by {
            assert(a[i].node.key == b[i].node.key);
            assert(a[j].node.key == b[j].node.key);
            assert(a[i].node.key@ != a[j].node.key@);
        }
    }
    if forest_unique(a) {
        assert forall|i: int| 0 <= i < b.len() implies {
            &&& !in_forest((#[trigger] b[i]).kids@, b[i].node.id.0)
            &&& forest_unique(b[i].kids@)
        } by {
            let ai = a[i];
            assert(!in_forest(ai.kids@, ai.node.id.0));
            assert(forest_unique(ai.kids@));
        }
        assert forall|i: int, j: int, k: u64|
            0 <= i < j < b.len() implies !(#[trigger] in_entry(b[i], k) && #[trigger] in_entry(b[j], k)) by {
            assert(!(in_entry(a[i], k) && in_entry(a[j], k)));
        }
    }
}

/// Adds `fl` to the node with id `k` and, when `fl` propagates, to all its
/// ancestors; reports whether the id occurs.
fn mark_in(f: &mut Vec<Entry>, k: u64, fl: DirtyFlags) -> (found: bool)
    ensures
        found == in_forest(old(f)@, k),
        mark_rel(old(f)@, final(f)@, k, fl.0),
    decreases old(f)@,
{
    let ghost f0 = f@;
    let prop = fl.contains(DirtyFlags(2u8)) || fl.contains(DirtyFlags(16u8));
    let mut found = false;
    let mut i: usize = 0;
    while i < f.len()
        invariant
            f0 == old(f)@,
            f@.len() == f0.len(),
            0 <= i <= f@.len(),
            prop == propagates(fl.0),
            found == exists|c: int| 0 <= c < i && in_entry(#[trigger] f0[c], k),
            forall|c: int| i <= c < f@.len() ==> #[trigger] f@[c] == f0[c],
            forall|c: int|
                0 <= c < i ==> {
                    &&& (#[trigger] f@[c]).node == Node {
                        dirty: DirtyFlags(
                            if f0[c].node.id.0 == k || (propagates(fl.0) && in_forest(f0[c].kids@, k)) {
                                f0[c].node.dirty.0 | fl.0
                            } else {
                                f0[c].node.dirty.0
                            },
                        ),
                        ..f0[c].node
                    }
                    &&& mark_rel(f0[c].kids@, f@[c].kids@, k, fl.0)
                },
        decreases f@.len() - i,
    {
        proof {
            assert(decreases_to!(f0 => f0[i as int]));
        }
        let e = &mut f[i];
        proof {
            assert(e.kids@ == f0[i as int].kids@);
            assert(decreases_to!(f0 => f0[i as int].kids@));
        }
        let sub = mark_in(&mut e.kids, k, fl);
        let hit = e.node.id.0 == k;
        if hit || (sub && prop) {
            e.node.dirty.insert(fl);
        }
        found = found || hit || sub;
        i += 1;
    }
    proof {
        assert(mark_rel(f0, f@, k, fl.0));
    }
    found
}

/// Clears the dirty flags of the node with id `k`.
fn clear_in(f: &mut Vec<Entry>, k: u64)
    ensures
        clear_rel(old(f)@, final(f)@, k),
    decreases old(f)@,
{
    let ghost f0 = f@;
    let mut i: usize = 0;
    while i < f.len()
        invariant
            f0 == old(f)@,
            f@.len() == f0.len(),
            0 <= i <= f@.len(),
            forall|c: int| i <= c < f@.len() ==> #[trigger] f@[c] == f0[c],
            forall|c: int|
                0 <= c < i ==> {
                    &&& (#[trigger] f@[c]).node == Node {
                        dirty: DirtyFlags(if f0[c].node.id.0 == k { 0u8 } else { f0[c].node.dirty.0 }),
                        ..f0[c].node
                    }
                    &&& clear_rel(f0[c].kids@, f@[c].kids@, k)
                },
        decreases f@.len() - i,
    {
        proof {
            assert(decreases_to!(f0 => f0[i as int]));
        }
        let e = &mut f[i];
        proof {
            assert(e.kids@ == f0[i as int].kids@);
            assert(decreases_to!(f0 => f0[i as int].kids@));
        }
        clear_in(&mut e.kids, k);
        if e.node.id.0 == k {
            e.node.dirty = DirtyFlags(0u8);
        }
        i += 1;
    }
    proof {
        assert(clear_rel(f0, f@, k));
    }
}

} // verus!

verus! {

/// The entry found for `x` in a forest marked at `k` is the entry found in
/// the unmarked forest, with `fl` added when `x` is `k` or, for flags that
/// propagate, when `k` lies below it.
proof fn lemma_mark_find(old: Seq<Entry>, new: Seq<Entry>, k: u64, fl: u8, x: u64, i: int)
    requires
        mark_rel(old, new, k, fl),
        0 <= i <= old.len(),
    ensures
        match find_entry(old, x, i) {
            None => find_entry(new, x, i) is None,
            Some(eo) => find_entry(new, x, i) matches Some(en) && {
                &&& en.node == Node {
                    dirty: DirtyFlags(
                        if eo.node.id.0 == k || (propagates(fl) && in_forest(eo.kids@, k)) {
                            eo.node.dirty.0 | fl
                        } else {
                            eo.node.dirty.0
                        },
                    ),
                    ..eo.node
                }
                &&& mark_rel(eo.kids@, en.kids@, k, fl)
            },
        },
    decreases old, old.len() - i,
{
    if i < old.len() {
        assert(decreases_to!(old => old[i]));
        let oi = old[i];
        let ni = new[i];
        assert(ni.node.id == oi.node.id);
        if oi.node.id.0 != x {
            lemma_mark_find(oi.kids@, ni.kids@, k, fl, x, 0);
            lemma_mark_find(old, new, k, fl, x, i + 1);
        }
    }
}

/// The entry found for `x` in a forest cleared at `k` is the entry found in
/// the forest before, with no flag left when `x` is `k`.
proof fn lemma_clear_find(old: Seq<Entry>, new: Seq<Entry>, k: u64, x: u64, i: int)
    requires
        clear_rel(old, new, k),
        0 <= i <= old.len(),
    ensures
        match find_entry(old, x, i) {
            None => find_entry(new, x, i) is None,
            Some(eo) => find_entry(new, x, i) matches Some(en) && {
                &&& en.node == Node {
                    dirty: DirtyFlags(if eo.node.id.0 == k { 0u8 } else { eo.node.dirty.0 }),
                    ..eo.node
                }
                &&& clear_rel(eo.kids@, en.kids@, k)
            },
        },
    decreases old, old.len() - i,
{
    if i < old.len() {
        assert(decreases_to!(old => old[i]));
        let oi = old[i];
        let ni = new[i];
        assert(ni.node.id == oi.node.id);
        if oi.node.id.0 != x {
            lemma_clear_find(oi.kids@, ni.kids@, k, x, 0);
            lemma_clear_find(old, new, k, x, i + 1);
        }
    }
}

/// Forests of the same shape list the same ids.
proof fn lemma_same_shape_ids(a: Seq<Entry>, b: Seq<Entry>)
    requires
        same_shape(a, b),
    ensures
        ids_of(a) == ids_of(b),
{
    assert(ids_of(a) =~= ids_of(b));
}

} // verus!

verus! {

/// The retained widget tree: nodes with stable ids, reconciled against
/// successive descriptions.
pub struct RetainedTree {
    next: u64,
    roots: Vec<NodeId>,
    forest: Vec<Entry>,
}

/// The node `n` with `bits` added to its dirty flags when `hit`.
pub open spec fn add_dirty(n: Option<Node>, hit: bool, bits: u8) -> Option<Node> {
    match n {
        Some(n) => Some(if hit { Node { dirty: DirtyFlags(n.dirty.0 | bits), ..n } } else { n }),
        None => None,
    }
}

/// The node `n` with no dirty flag left when `hit`.
pub open spec fn cleared(n: Option<Node>, hit: bool) -> Option<Node> {
    match n {
        Some(n) => Some(if hit { Node { dirty: DirtyFlags(0u8), ..n } } else { n }),
        None => None,
    }
}

impl RetainedTree {
    /// The tree is consistent: parents and child lists agree with the
    /// structure, sibling keys are distinct, no id occurs twice, every id is
    /// below the next one to hand out, and the roots are the top-level nodes.
    pub closed spec fn wf(&self) -> bool {
        &&& forest_wf(self.forest@, None)
        &&& forest_keys(self.forest@)
        &&& forest_unique(self.forest@)
        &&& bounded(self.forest@, 1, self.next as int)
        &&& 1 <= self.next
        &&& self.roots@ == ids_of(self.forest@)
    }

    /// The ids of the top-level nodes, in order.
    pub closed spec fn root_ids(&self) -> Seq<NodeId> {
        self.roots@
    }

    /// The id the next mounted node will get.
    pub closed spec fn next_id(&self) -> u64 {
        self.next
    }

    /// Whether a node with this id is in the tree.
    pub closed spec fn contains_id(&self, id: NodeId) -> bool {
        in_forest(self.forest@, id.0)
    }

    /// The node with this id, if it is in the tree.
    pub closed spec fn node_at(&self, id: NodeId) -> Option<Node> {
        match find_entry(self.forest@, id.0, 0) {
            Some(e) => Some(e.node),
            None => None,
        }
    }

    /// Node `d` lies strictly below node `a`.
    pub closed spec fn is_ancestor(&self, a: NodeId, d: NodeId) -> bool {
        find_entry(self.forest@, a.0, 0) matches Some(e) && in_forest(e.kids@, d.0)
    }

    /// The nodes `ids` are in the tree and were built for `views`, one for
    /// one and in order, under `parent`: each carries its id, the parent,
    /// the key, kind and flags of its description, and children built the
    /// same way for the description's children.
    pub open spec fn builds(&self, ids: Seq<NodeId>, views: Seq<ViewNode>, parent: Option<NodeId>) -> bool
        decreases views,
    {
        &&& ids.len() == views.len()
        &&& forall|i: int|
            0 <= i < views.len() ==> (self.node_at(ids[i]) matches Some(n) && {
                &&& n.id == ids[i]
                &&& n.parent == parent
                &&& n.key@ == (#[trigger] views[i]).key@
                &&& n.kind@ == views[i].kind@
                &&& n.focusable == views[i].focusable
                &&& n.disabled == views[i].disabled
                &&& self.builds(n.children@, views[i].children@, Some(ids[i]))
            })
    }

    /// The ids of the tree in pre-order: each node before its children,
    /// siblings in order, starting from the roots.
    pub closed spec fn preorder_ids(&self) -> Seq<NodeId> {
        preorder(self.forest@)
    }

    /// The pre-order lists every node of the tree exactly once.
    pub proof fn lemma_preorder_ids(&self, id: NodeId)
        requires
            self.wf(),
        ensures
            self.preorder_ids().contains(id) <==> self.contains_id(id),
            self.preorder_ids().no_duplicates(),
    {
        if self.preorder_ids().contains(id) {
            lemma_preorder_members(self.forest@, id);
        }
        if self.contains_id(id) {
            lemma_preorder_complete(self.forest@, id.0);
        }
        lemma_preorder_unique(self.forest@);
    }

    /// The tree has exactly the shape of the descriptions: one root per
    /// description, in order, each with the key, kind and flags of its
    /// description and children that mirror the description's children.
    pub closed spec fn mirrors(&self, views: Seq<ViewNode>) -> bool {
        forest_mirrors(self.forest@, views)
    }

    /// Keyed identity against the previous state: each node whose key
    /// occurred among its old siblings keeps that sibling's id, with its
    /// dirty flags widened when its kind or flags changed, and its children
    /// are matched the same way; every other node, and all below it, is new,
    /// with an id from `prev.next_id()` on and every dirty flag set.
    pub closed spec fn reconciled_from(&self, prev: RetainedTree, views: Seq<ViewNode>) -> bool {
        reuses(prev.forest@, self.forest@, views, prev.next as int)
    }

    /// The node that `node_at` finds for a present id carries that id, and
    /// `node_at` finds one exactly for the ids the tree contains.
    pub proof fn lemma_node_at(&self, id: NodeId)
        ensures
            self.node_at(id) is Some <==> self.contains_id(id),
            self.node_at(id) matches Some(n) ==> n.id == id,
    {
        lemma_find_entry(self.forest@, id.0, 0);
        if self.contains_id(id) {
            let c = choose|c: int| 0 <= c < self.forest@.len() && in_entry(#[trigger] self.forest@[c], id.0);
        }
    }

    /// Every child listed by a node of the tree is in the tree, carries that
    /// id, and has the node as its parent.
    pub proof fn lemma_children(&self, id: NodeId)
        requires
            self.wf(),
            self.contains_id(id),
        ensures
            self.node_at(id) matches Some(n) && forall|j: int|
                0 <= j < n.children@.len() ==> self.contains_id(#[trigger] n.children@[j]) && (self.node_at(
                    n.children@[j],
                ) matches Some(c) && c.id == n.children@[j] && c.parent == Some(id)) && self.is_ancestor(id, n.children@[j]),
    {
        self.lemma_node_at(id);
        let e = find_entry(self.forest@, id.0, 0)->Some_0;
        lemma_find_below(self.forest@, None, id.0, 0, 0);
        assert forall|j: int| 0 <= j < e.node.children@.len() implies self.contains_id(#[trigger] e.node.children@[j]) && (
        self.node_at(e.node.children@[j]) matches Some(c) && c.id == e.node.children@[j] && c.parent == Some(id))
            && self.is_ancestor(id, e.node.children@[j]) by {
            lemma_find_child(self.forest@, None, id.0, j);
            assert(e.node.children@[j] == e.kids@[j].node.id);
            assert(in_entry(e.kids@[j], e.kids@[j].node.id.0));
            self.lemma_node_at(e.node.children@[j]);
        }
    }

    /// A tree that mirrors descriptions consists of nodes built for them,
    /// all the way down from its roots.
    pub proof fn lemma_mirrors_builds(&self, views: Seq<ViewNode>)
        requires
            self.wf(),
            self.mirrors(views),
        ensures
            self.builds(self.root_ids(), views, None),
    {
        let f = self.forest@;
        assert forall|j: int| 0 <= j < f.len() implies find_entry(f, (#[trigger] f[j]).node.id.0, 0) == Some(f[j]) by {
            lemma_find_sibling(f, j, 0);
        }
        lemma_builds(*self, f, views, None);
    }

    /// A node of the tree without a parent is one of its roots.
    pub proof fn lemma_parentless_is_root(&self, id: NodeId)
        requires
            self.wf(),
            self.node_at(id) matches Some(n) && n.parent is None,
        ensures
            self.root_ids().contains(id),
    {
        let f = self.forest@;
        lemma_found_top_or_child(f, None, id.0, 0);
        lemma_find_entry(f, id.0, 0);
        let e = find_entry(f, id.0, 0)->Some_0;
        let c = choose|c: int| 0 <= c < f.len() && #[trigger] f[c] == e;
        assert(self.root_ids()[c] == f[c].node.id);
        self.lemma_node_at(id);
    }

    /// Both ends of an ancestor relation are in the tree.
    pub proof fn lemma_ancestor_present(&self, a: NodeId, d: NodeId)
        requires
            self.wf(),
            self.is_ancestor(a, d),
        ensures
            self.contains_id(a),
            self.contains_id(d),
    {
        lemma_find_below(self.forest@, None, a.0, 0, d.0);
        self.lemma_node_at(a);
        self.lemma_node_at(d);
    }

    /// An empty tree whose first node will get id 1.
    pub fn new() -> (r: Self)
        ensures
            r.wf(),
            r.root_ids() == Seq::<NodeId>::empty(),
            r.next_id() == 1,
            forall|id: NodeId| !r.contains_id(id),
    {
        let r = RetainedTree { next: 1, roots: Vec::new(), forest: Vec::new() };
        proof {
            assert(ids_of(r.forest@) =~= Seq::<NodeId>::empty());
        }
        r
    }

    /// The ids of the top-level nodes, in order.
    pub fn roots(&self) -> (r: &[NodeId])
        ensures
            r@ == self.root_ids(),
    {
        self.roots.as_slice()
    }

    /// The node with this id, if it is in the tree.
    pub fn get(&self, id: NodeId) -> (r: Option<&Node>)
        ensures
            match r {
                Some(n) => self.node_at(id) == Some(*n),
                None => self.node_at(id) is None,
            },
    {
        find_node(&self.forest, id.0, 0)
    }

    /// Whether a node with this id is in the tree.
    pub fn contains(&self, id: NodeId) -> (r: bool)
        ensures
            r == self.contains_id(id),
    {
        contains_in(&self.forest, id.0)
    }
}

} // verus!

verus! {

impl RetainedTree {
    /// Reconciles the top-level nodes against `views`. Descriptions whose
    /// key matches an existing sibling keep that node's id; new keys mount
    /// new nodes; nodes whose key is gone are removed with all their
    /// descendants. A description forest with a repeated sibling key is
    /// refused and leaves the tree untouched. New nodes take the ids from
    /// `next_id()` on, one by one in pre-order, and the report lists them in
    /// that order; it lists the kept nodes in pre-order too, and each id at
    /// most once in each list.
    pub fn reconcile_roots(&mut self, views: &[ViewNode]) -> (r: Result<ReconcileReport, TreeError>)
        requires
            old(self).wf(),
            old(self).next_id() + view_count(views@) <= u64::MAX,
        ensures
            r is Ok <==> views_valid(views@),
            r is Err ==> *final(self) == *old(self),
            r matches Err(e) ==> (e matches TreeError::DuplicateSiblingKey(k) && has_dup_key(views@, k@)),
            r matches Ok(rep) ==> {
                &&& final(self).wf()
                &&& final(self).mirrors(views@)
                &&& final(self).builds(final(self).root_ids(), views@, None)
                &&& forall|id: NodeId| #[trigger] final(self).contains_id(id) && !old(self).contains_id(id) ==> (final(self).node_at(id) matches Some(n) && n.dirty.0 == 31)
                &&& forall|id: NodeId| #[trigger] final(self).contains_id(id) && old(self).contains_id(id) ==> (final(self).node_at(id) matches Some(n)
                    && old(self).node_at(id) matches Some(o) && {
                    &&& n.dirty.0 == (if flags_changed(o, n) {
                        o.dirty.0 | 15u8
                    } else {
                        o.dirty.0
                    })
                    &&& forall|a: int, c: int|
                        0 <= a < n.children@.len() && 0 <= c < o.children@.len() && (old(self).node_at(#[trigger] o.children@[c]) matches Some(
                            oc,
                        ) && final(self).node_at(#[trigger] n.children@[a]) matches Some(nc) && oc.key@ == nc.key@) ==> n.children@[a]
                            == o.children@[c]
                })
                &&& final(self).reconciled_from(*old(self), views@)
                &&& old(self).next_id() <= final(self).next_id() <= old(self).next_id() + view_count(views@)
                &&& final(self).root_ids().len() == views@.len()
                &&& forall|i: int|
                    0 <= i < views@.len() ==> (final(self).node_at(#[trigger] final(self).root_ids()[i]) matches Some(n)
                        && n.key@ == views@[i].key@ && n.kind@ == views@[i].kind@
                        && n.focusable == views@[i].focusable && n.disabled == views@[i].disabled
                        && n.parent is None)
                &&& forall|i: int, j: int|
                    0 <= i < views@.len() && 0 <= j < old(self).root_ids().len()
                        && (old(self).node_at(#[trigger] old(self).root_ids()[j]) matches Some(o) && o.key@ == (#[trigger] views@[i]).key@)
                        ==> final(self).root_ids()[i] == old(self).root_ids()[j]
                &&& forall|id: NodeId| #[trigger] final(self).contains_id(id) && !old(self).contains_id(id) ==> old(self).next_id() <= id.0
                &&& rep.mounted@ == id_range(old(self).next_id() as int, final(self).next_id() as int)
                &&& rep.mounted@ == final(self).preorder_ids().filter(issued_from(old(self).next_id() as int))
                &&& rep.reused@ == final(self).preorder_ids().filter(issued_before(old(self).next_id() as int))
                &&& rep.mounted@.no_duplicates()
                &&& rep.reused@.no_duplicates()
                &&& rep.removed@.no_duplicates()
                &&& forall|id: NodeId| #[trigger] rep.mounted@.contains(id) <==> (final(self).contains_id(id) && !old(self).contains_id(id))
                &&& forall|id: NodeId| #[trigger] rep.reused@.contains(id) <==> (final(self).contains_id(id) && old(self).contains_id(id))
                &&& forall|id: NodeId| #[trigger] rep.removed@.contains(id) <==> (old(self).contains_id(id) && !final(self).contains_id(id))
            },
    {
        match validate_keys(views) {
            Err(e) => {
                return Err(e);
            },
            Ok(()) => {},
        }
        let ghost t0 = *self;
        let mut prev: Vec<Entry> = Vec::new();
        std::mem::swap(&mut prev, &mut self.forest);
        let mut next = self.next;
        let (f, rep) = reconcile_children(&mut next, None, prev, views);
        self.next = next;
        self.roots = collect_ids(&f);
        self.forest = f;
        proof {
            self.lemma_mirrors_builds(views@);
            assert forall|id: NodeId| #[trigger] self.contains_id(id) implies (!t0.contains_id(id) ==> (self.node_at(id) matches Some(n) && n.dirty.0 == 31))
                && (t0.contains_id(id) ==> (self.node_at(id) matches Some(n) && t0.node_at(id) matches Some(o) && {
                    &&& n.dirty.0 == (if flags_changed(o, n) {
                        o.dirty.0 | 15u8
                    } else {
                        o.dirty.0
                    })
                    &&& forall|a: int, c: int|
                        0 <= a < n.children@.len() && 0 <= c < o.children@.len() && (t0.node_at(#[trigger] o.children@[c]) matches Some(
                            oc,
                        ) && self.node_at(#[trigger] n.children@[a]) matches Some(nc) && oc.key@ == nc.key@) ==> n.children@[a]
                            == o.children@[c]
                })) by {
                lemma_reconciled_node(t0, *self, views@, id);
            }
        }
        proof {
            lemma_preorder_unique(self.forest@);
            lemma_filter_no_duplicates(self.preorder_ids(), issued_from(t0.next as int));
            lemma_filter_no_duplicates(self.preorder_ids(), issued_before(t0.next as int));
        }
        proof {
            let f0 = t0.forest@;
            let f1 = self.forest@;
            assert forall|i: int| 0 <= i < views@.len() implies (self.node_at(#[trigger] self.root_ids()[i]) matches Some(n)
                && n.key@ == views@[i].key@ && n.kind@ == views@[i].kind@
                && n.focusable == views@[i].focusable && n.disabled == views@[i].disabled
                && n.parent is None) by {
                lemma_find_sibling(f1, i, 0);
                assert(self.root_ids()[i] == f1[i].node.id);
                assert(views@[i] == views@[i]);
            }
            assert forall|i: int, j: int|
                0 <= i < views@.len() && 0 <= j < t0.root_ids().len()
                    && (t0.node_at(#[trigger] t0.root_ids()[j]) matches Some(o) && o.key@ == (#[trigger] views@[i]).key@)
                    implies self.root_ids()[i] == t0.root_ids()[j] by {
                lemma_find_sibling(f0, j, 0);
                assert(t0.root_ids()[j] == f0[j].node.id);
                assert(f0[j].node.key@ == views@[i].key@);
                assert(self.root_ids()[i] == f1[i].node.id);
            }
        }
        Ok(rep)
    }

    /// Adds `flags` to the dirty flags of node `id`; layout and child-list
    /// changes also mark every ancestor. Returns whether the node exists.
    pub fn mark_dirty(&mut self, id: NodeId, flags: DirtyFlags) -> (r: bool)
        requires
            old(self).wf(),
        ensures
            r == old(self).contains_id(id),
            final(self).wf(),
            final(self).root_ids() == old(self).root_ids(),
            final(self).next_id() == old(self).next_id(),
            forall|x: NodeId| #[trigger] final(self).contains_id(x) == old(self).contains_id(x),
            forall|x: NodeId|
                #[trigger] final(self).node_at(x) == add_dirty(
                    old(self).node_at(x),
                    x == id || (propagates(flags.0) && old(self).is_ancestor(x, id)),
                    flags.0,
                ),
            !r ==> forall|x: NodeId| #[trigger] final(self).node_at(x) == old(self).node_at(x),
            (flags.0 & 2u8) == 2u8 || (flags.0 & 16u8) == 16u8 ==> forall|x: NodeId|
                #[trigger] old(self).is_ancestor(x, id) ==> (final(self).node_at(x) matches Some(n) && old(self).node_at(
                    x,
                ) matches Some(o) && n.dirty.0 == (o.dirty.0 | flags.0) && (n.dirty.0 & flags.0) == flags.0),
            !((flags.0 & 2u8) == 2u8 || (flags.0 & 16u8) == 16u8) ==> forall|x: NodeId|
                x != id ==> #[trigger] final(self).node_at(x) == old(self).node_at(x),
    {
        let ghost t0 = *self;
        let found = mark_in(&mut self.forest, id.0, flags);
        proof {
            let f0 = t0.forest@;
            let f1 = self.forest@;
            lemma_mark_shape(f0, f1, id.0, flags.0);
            lemma_same_shape(f0, f1, None);
            lemma_same_shape_ids(f0, f1);
            assert forall|x: NodeId| #[trigger] self.node_at(x) == add_dirty(
                t0.node_at(x),
                x == id || (propagates(flags.0) && t0.is_ancestor(x, id)),
                flags.0,
            ) by {
                lemma_mark_find(f0, f1, id.0, flags.0, x.0, 0);
                lemma_find_entry(f0, x.0, 0);
                if let Some(eo) = find_entry(f0, x.0, 0) {
                    assert((eo.node.id.0 == id.0) == (x == id));
                }
            }
            let fl = flags.0;
            if (fl & 2u8) == 2u8 || (fl & 16u8) == 16u8 {
                assert forall|x: NodeId| #[trigger] t0.is_ancestor(x, id) implies (self.node_at(x) matches Some(n) && t0.node_at(
                    x,
                ) matches Some(o) && n.dirty.0 == (o.dirty.0 | fl) && (n.dirty.0 & fl) == fl) by {
                    t0.lemma_ancestor_present(x, id);
                    t0.lemma_node_at(x);
                    assert(self.node_at(x) == add_dirty(t0.node_at(x), x == id || (propagates(fl) && t0.is_ancestor(x, id)), fl));
                    let od = t0.node_at(x)->Some_0.dirty.0;
                    assert(((od | fl) & fl) == fl) by (bit_vector);
                }
            } else {
                assert(!propagates(fl));
            }
            if !found {
                assert forall|x: NodeId| #[trigger] self.node_at(x) == t0.node_at(x) by {
                    if t0.is_ancestor(x, id) {
                        t0.lemma_ancestor_present(x, id);
                    }
                    lemma_mark_find(f0, f1, id.0, flags.0, x.0, 0);
                    lemma_find_entry(f0, x.0, 0);
                    if x == id {
                        t0.lemma_node_at(id);
                    }
                }
            }
        }
        found
    }

    /// Clears every dirty flag of node `id`. Returns whether the node exists.
    pub fn clear_dirty(&mut self, id: NodeId) -> (r: bool)
        requires
            old(self).wf(),
        ensures
            r == old(self).contains_id(id),
            final(self).wf(),
            final(self).root_ids() == old(self).root_ids(),
            final(self).next_id() == old(self).next_id(),
            forall|x: NodeId| #[trigger] final(self).contains_id(x) == old(self).contains_id(x),
            forall|x: NodeId| #[trigger] final(self).node_at(x) == cleared(old(self).node_at(x), x == id),
    {
        let ghost t0 = *self;
        let found = contains_in(&self.forest, id.0);
        if !found {
            proof {
                assert forall|x: NodeId| #[trigger] self.node_at(x) == cleared(t0.node_at(x), x == id) by {
                    lemma_find_entry(t0.forest@, x.0, 0);
                    if x == id {
                        if find_entry(t0.forest@, x.0, 0) is Some {
                            let c = choose|c: int| 0 <= c < t0.forest@.len() && in_entry(#[trigger] t0.forest@[c], x.0);
                        }
                    }
                }
            }
            return false;
        }
        clear_in(&mut self.forest, id.0);
        proof {
            let f0 = t0.forest@;
            let f1 = self.forest@;
            lemma_clear_shape(f0, f1, id.0);
            lemma_same_shape(f0, f1, None);
            lemma_same_shape_ids(f0, f1);
            assert forall|x: NodeId| #[trigger] self.node_at(x) == cleared(t0.node_at(x), x == id) by {
                lemma_clear_find(f0, f1, id.0, x.0, 0);
                lemma_find_entry(f0, x.0, 0);
                if let Some(eo) = find_entry(f0, x.0, 0) {
                    assert((eo.node.id.0 == id.0) == (x == id));
                }
            }
        }
        true
    }
}

} // verus!

verus! {

/// Reconciling a forest against the descriptions it already mirrors keeps
/// every entry's id, all the way down.
proof fn lemma_reuses_mirrored(f1: Seq<Entry>, f2: Seq<Entry>, views: Seq<ViewNode>, b: int)
    requires
        forest_mirrors(f1, views),
        reuses(f1, f2, views, b),
    ensures
        ids_of(f2) == ids_of(f1),
        forall|k: u64| #![trigger in_forest(f1, k)] #![trigger in_forest(f2, k)] in_forest(f2, k) == in_forest(f1, k),
    decreases views,
{
    assert forall|i: int| 0 <= i < views.len() implies {
        &&& (#[trigger] f2[i]).node.id == f1[i].node.id
        &&& forall|k: u64| #![trigger in_forest(f1[i].kids@, k)] #![trigger in_forest(f2[i].kids@, k)]
            in_forest(f2[i].kids@, k) == in_forest(f1[i].kids@, k)
    } by {
        assert(f1[i].node.key@ == views[i].key@);
        assert(f2[i].node.id == f1[i].node.id);
        lemma_reuses_mirrored(f1[i].kids@, f2[i].kids@, views[i].children@, b);
    }
    assert(ids_of(f2) =~= ids_of(f1));
    assert forall|k: u64| #![trigger in_forest(f1, k)] #![trigger in_forest(f2, k)] in_forest(f2, k) == in_forest(f1, k) by {
        if in_forest(f2, k) {
            let c = choose|c: int| 0 <= c < f2.len() && in_entry(#[trigger] f2[c], k);
            assert(in_entry(f1[c], k));
        }
        if in_forest(f1, k) {
            let c = choose|c: int| 0 <= c < f1.len() && in_entry(#[trigger] f1[c], k);
            assert(in_entry(f2[c], k));
        }
    }
}

/// Two nodes agree in every field: id, key, kind, parent, children, dirty
/// flags and both flags.
pub open spec fn same_node(a: Node, b: Node) -> bool {
    &&& a.id == b.id
    &&& a.key@ == b.key@
    &&& a.kind@ == b.kind@
    &&& a.parent == b.parent
    &&& a.children@ == b.children@
    &&& a.dirty == b.dirty
    &&& a.focusable == b.focusable
    &&& a.disabled == b.disabled
}

/// Two forests have the same shape and agree node by node.
spec fn same_nodes(f1: Seq<Entry>, f2: Seq<Entry>) -> bool
    decreases f1,
{
    &&& f1.len() == f2.len()
    &&& forall|i: int|
        0 <= i < f1.len() ==> {
            &&& same_node((#[trigger] f1[i]).node, f2[i].node)
            &&& same_nodes(f1[i].kids@, f2[i].kids@)
        }
}

/// Reconciling a well-formed forest against the descriptions it already
/// mirrors gives back the same nodes, all the way down.
proof fn lemma_reuses_same(f1: Seq<Entry>, f2: Seq<Entry>, views: Seq<ViewNode>, b: int, p: Option<NodeId>)
    requires
        forest_mirrors(f1, views),
        forest_mirrors(f2, views),
        reuses(f1, f2, views, b),
        forest_wf(f1, p),
        forest_wf(f2, p),
    ensures
        same_nodes(f1, f2),
    decreases views,
{
    assert forall|i: int| 0 <= i < f1.len() implies {
        &&& same_node((#[trigger] f1[i]).node, f2[i].node)
        &&& same_nodes(f1[i].kids@, f2[i].kids@)
    } by {
        assert(f1[i].node.key@ == views[i].key@);
        assert(f2[i].node.id == f1[i].node.id);
        assert(!changed(f1[i].node, views[i]));
        lemma_reuses_mirrored(f1[i].kids@, f2[i].kids@, views[i].children@, b);
        lemma_reuses_same(f1[i].kids@, f2[i].kids@, views[i].children@, b, Some(f1[i].node.id));
    }
}

/// Forests that agree node by node hold the same nodes under each id.
proof fn lemma_same_find(f1: Seq<Entry>, f2: Seq<Entry>, k: u64, i: int)
    requires
        same_nodes(f1, f2),
    ensures
        find_entry(f2, k, i) is Some <==> find_entry(f1, k, i) is Some,
        find_entry(f2, k, i) matches Some(e2) ==> (find_entry(f1, k, i) matches Some(e1) && same_node(e1.node, e2.node)),
    decreases f1, f1.len() - i,
{
    if 0 <= i < f1.len() {
        assert(same_node(f1[i].node, f2[i].node));
        if f1[i].node.id.0 != k {
            assert(decreases_to!(f1 => f1[i]));
            lemma_same_find(f1[i].kids@, f2[i].kids@, k, 0);
            lemma_same_find(f1, f2, k, i + 1);
        }
    }
}

/// Marking a node with layout or child-list invalidation among its flags
/// (`mark_dirty`) reaches every ancestor: each of them ends up with all of
/// those flags set, whatever else the flags hold.
pub proof fn lemma_mark_reaches_ancestors(t0: RetainedTree, t1: RetainedTree, id: NodeId, flags: u8, a: NodeId)
    requires
        t0.wf(),
        forall|x: NodeId| #[trigger] t1.node_at(x) == add_dirty(
            t0.node_at(x),
            x == id || (propagates(flags) && t0.is_ancestor(x, id)),
            flags,
        ),
        (flags & 2u8) == 2u8 || (flags & 16u8) == 16u8,
        t0.is_ancestor(a, id),
    ensures
        t1.node_at(a) matches Some(n) && (n.dirty.0 & flags) == flags,
{
    t0.lemma_ancestor_present(a, id);
    t0.lemma_node_at(a);
    assert(t1.node_at(a) == add_dirty(t0.node_at(a), a == id || (propagates(flags) && t0.is_ancestor(a, id)), flags));
    let od = t0.node_at(a)->Some_0.dirty.0;
    assert(((od | flags) & flags) == flags) by (bit_vector);
}

/// Reconciling a tree against the descriptions it already mirrors changes
/// nothing: the same roots in the same order, and under every id the same
/// node, with the same key, kind, parent, children, dirty flags and flags.
/// Its report mounts and removes nothing, and lists every node as reused.
pub proof fn lemma_reconcile_stable(t1: RetainedTree, t2: RetainedTree, views: Seq<ViewNode>, rep: ReconcileReport)
    requires
        t1.wf(),
        t2.wf(),
        t1.mirrors(views),
        t2.mirrors(views),
        t2.reconciled_from(t1, views),
        forall|id: NodeId| #[trigger] rep.mounted@.contains(id) <==> (t2.contains_id(id) && !t1.contains_id(id)),
        forall|id: NodeId| #[trigger] rep.reused@.contains(id) <==> (t2.contains_id(id) && t1.contains_id(id)),
        forall|id: NodeId| #[trigger] rep.removed@.contains(id) <==> (t1.contains_id(id) && !t2.contains_id(id)),
    ensures
        t2.root_ids() == t1.root_ids(),
        forall|id: NodeId| #[trigger] t2.contains_id(id) == t1.contains_id(id),
        forall|id: NodeId|
            (#[trigger] t2.node_at(id) is Some <==> t1.node_at(id) is Some) && (t2.node_at(id) matches Some(n2) ==> (t1.node_at(
                id,
            ) matches Some(n1) && same_node(n1, n2))),
        rep.mounted@.len() == 0,
        rep.removed@.len() == 0,
        forall|id: NodeId| #[trigger] rep.reused@.contains(id) == t1.contains_id(id),
{
    lemma_reuses_mirrored(t1.forest@, t2.forest@, views, t1.next as int);
    lemma_reuses_same(t1.forest@, t2.forest@, views, t1.next as int, None);
    assert forall|id: NodeId|
        (#[trigger] t2.node_at(id) is Some <==> t1.node_at(id) is Some) && (t2.node_at(id) matches Some(n2) ==> (t1.node_at(
            id,
        ) matches Some(n1) && same_node(n1, n2))) by {
        lemma_same_find(t1.forest@, t2.forest@, id.0, 0);
    }
    if rep.mounted@.len() > 0 {
        assert(rep.mounted@.contains(rep.mounted@[0]));
    }
    if rep.removed@.len() > 0 {
        assert(rep.removed@.contains(rep.removed@[0]));
    }
}

/// Keeping the entries that all pass a test keeps them all.
proof fn lemma_filter_all(s: Seq<NodeId>, p: spec_fn(NodeId) -> bool)
    requires
        forall|j: int| 0 <= j < s.len() ==> p(#[trigger] s[j]),
    ensures
        s.filter(p) == s,
    decreases s.len(),
{
    if s.len() > 0 {
        let t = s.drop_last();
        assert(s =~= t.push(s.last()));
        assert forall|j: int| 0 <= j < t.len() implies p(#[trigger] t[j]) by {
            assert(t[j] == s[j]);
        }
        lemma_filter_all(t, p);
        t.lemma_filter_push(s.last(), p);
    }
}

/// Reconciling a tree that holds no node numbers all the nodes it mounts
/// one by one from `next_id()`, in pre-order: on a new tree, 1, 2, 3, ...
pub proof fn lemma_first_ids_in_preorder(t1: RetainedTree, t2: RetainedTree, rep: ReconcileReport)
    requires
        t2.wf(),
        forall|id: NodeId| !t1.contains_id(id),
        forall|id: NodeId| #[trigger] t2.contains_id(id) && !t1.contains_id(id) ==> t1.next_id() <= id.0,
        rep.mounted@ == id_range(t1.next_id() as int, t2.next_id() as int),
        rep.mounted@ == t2.preorder_ids().filter(issued_from(t1.next_id() as int)),
    ensures
        t2.preorder_ids() == id_range(t1.next_id() as int, t2.next_id() as int),
        rep.mounted@ == t2.preorder_ids(),
{
    let pre = t2.preorder_ids();
    assert forall|j: int| 0 <= j < pre.len() implies issued_from(t1.next_id() as int)(#[trigger] pre[j]) by {
        t2.lemma_preorder_ids(pre[j]);
        assert(pre.contains(pre[j]));
        assert(t2.contains_id(pre[j]));
    }
    lemma_filter_all(pre, issued_from(t1.next_id() as int));
}

/// Every id of a fresh forest is at least its bound.
proof fn lemma_fresh_ids(f: Seq<Entry>, b: int, k: u64)
    requires
        fresh_forest(f, b),
        in_forest(f, k),
    ensures
        k >= b,
    decreases f,
{
    let c = choose|c: int| 0 <= c < f.len() && in_entry(#[trigger] f[c], k);
    if f[c].node.id.0 != k {
        lemma_fresh_ids(f[c].kids@, b, k);
    }
}

/// Every id of a reconciled forest was in the old forest or is fresh.
proof fn lemma_reuses_ids(old: Seq<Entry>, new: Seq<Entry>, views: Seq<ViewNode>, b: int, k: u64)
    requires
        reuses(old, new, views, b),
        in_forest(new, k),
    ensures
        in_forest(old, k) || k >= b,
    decreases views,
{
    let i = choose|i: int| 0 <= i < new.len() && in_entry(#[trigger] new[i], k);
    assert(views[i] == views[i]);
    if key_absent(old, views[i].key@) {
        if new[i].node.id.0 != k {
            lemma_fresh_ids(new[i].kids@, b, k);
        }
    } else {
        let j = choose|j: int| 0 <= j < old.len() && (#[trigger] old[j]).node.key@ == views[i].key@;
        if new[i].node.id.0 == k {
            assert(in_entry(old[j], k));
        } else {
            lemma_reuses_ids(old[j].kids@, new[i].kids@, views[i].children@, b, k);
            if in_forest(old[j].kids@, k) {
                assert(in_entry(old[j], k));
            }
        }
    }
}

/// In a forest without repeated ids, the search for an id below entry `i`
/// finds what the search among that entry's children finds.
proof fn lemma_find_in_child(f: Seq<Entry>, i: int, k: u64, c: int)
    requires
        forest_unique(f),
        0 <= c <= i < f.len(),
        in_forest(f[i].kids@, k),
    ensures
        find_entry(f, k, c) == find_entry(f[i].kids@, k, 0),
    decreases i - c,
{
    assert(in_entry(f[i], k));
    if c < i {
        assert(!in_entry(f[c], k));
        lemma_find_entry(f[c].kids@, k, 0);
        if find_entry(f[c].kids@, k, 0) is Some {
            let d = choose|d: int| 0 <= d < f[c].kids@.len() && in_entry(#[trigger] f[c].kids@[d], k);
            assert(in_forest(f[c].kids@, k));
        }
        lemma_find_in_child(f, i, k, c + 1);
    } else {
        lemma_find_entry(f[i].kids@, k, 0);
    }
}

/// In a forest without repeated ids, the entry that the search finds has
/// consistent children without repeats, and below it the search finds what
/// the search among its children finds.
proof fn lemma_find_below(f: Seq<Entry>, par: Option<NodeId>, k: u64, i: int, x: u64)
    requires
        forest_unique(f),
        forest_wf(f, par),
        0 <= i <= f.len(),
        find_entry(f, k, i) is Some,
    ensures
        find_entry(f, k, i) matches Some(e) && {
            &&& forest_unique(e.kids@)
            &&& forest_wf(e.kids@, Some(e.node.id))
            &&& e.node.children@ == ids_of(e.kids@)
            &&& e.node.id.0 == k
            &&& in_forest(e.kids@, x) ==> find_entry(f, x, i) == find_entry(e.kids@, x, 0) && find_entry(f, x, i) is Some
        },
    decreases f, f.len() - i,
{
    assert(decreases_to!(f => f[i]));
    lemma_find_entry(f, k, i);
    if f[i].node.id.0 == k {
        if in_forest(f[i].kids@, x) {
            lemma_find_in_child(f, i, x, i);
            lemma_find_entry(f[i].kids@, x, 0);
        }
    } else if find_entry(f[i].kids@, k, 0) is Some {
        lemma_find_below(f[i].kids@, Some(f[i].node.id), k, 0, x);
        let e = find_entry(f[i].kids@, k, 0)->Some_0;
        if in_forest(e.kids@, x) {
            lemma_find_entry(f[i].kids@, x, 0);
            let d = choose|d: int| 0 <= d < f[i].kids@.len() && in_entry(#[trigger] f[i].kids@[d], x);
            assert(in_forest(f[i].kids@, x));
            lemma_find_in_child(f, i, x, i);
        }
    } else {
        lemma_find_below(f, par, k, i + 1, x);
        let e = find_entry(f, k, i + 1)->Some_0;
        if in_forest(e.kids@, x) {
            lemma_find_entry(f, x, i + 1);
            let c = choose|c: int| i + 1 <= c < f.len() && in_entry(#[trigger] f[c], x);
            assert(!(in_entry(f[i], x) && in_entry(f[c], x)));
            lemma_find_entry(f[i].kids@, x, 0);
            if find_entry(f[i].kids@, x, 0) is Some {
                let d = choose|d: int| 0 <= d < f[i].kids@.len() && in_entry(#[trigger] f[i].kids@[d], x);
                assert(in_forest(f[i].kids@, x));
                assert(in_entry(f[i], x));
            }
        }
    }
}

/// In a forest without repeated ids, the search for the id of a child of
/// an entry that the search finds finds that child.
proof fn lemma_find_child(f: Seq<Entry>, par: Option<NodeId>, k: u64, j: int)
    requires
        forest_unique(f),
        forest_wf(f, par),
        find_entry(f, k, 0) matches Some(e) && 0 <= j < e.kids@.len(),
    ensures
        find_entry(f, k, 0) matches Some(e) && find_entry(f, e.kids@[j].node.id.0, 0) == Some(e.kids@[j]),
{
    let e = find_entry(f, k, 0)->Some_0;
    let x = e.kids@[j].node.id.0;
    lemma_find_below(f, par, k, 0, x);
    assert(in_entry(e.kids@[j], x));
    assert(in_forest(e.kids@, x));
    lemma_find_sibling(e.kids@, j, 0);
}

/// What the search finds is an entry of the forest itself, or a node with
/// a parent.
proof fn lemma_found_top_or_child(f: Seq<Entry>, par: Option<NodeId>, k: u64, i: int)
    requires
        forest_wf(f, par),
        0 <= i <= f.len(),
    ensures
        find_entry(f, k, i) matches Some(e) ==> (exists|c: int| i <= c < f.len() && #[trigger] f[c] == e)
            || e.node.parent is Some,
    decreases f, f.len() - i,
{
    if i < f.len() {
        assert(decreases_to!(f => f[i]));
        if f[i].node.id.0 != k {
            lemma_found_top_or_child(f[i].kids@, Some(f[i].node.id), k, 0);
            lemma_found_top_or_child(f, par, k, i + 1);
            if let Some(e) = find_entry(f[i].kids@, k, 0) {
                if exists|c: int| 0 <= c < f[i].kids@.len() && #[trigger] f[i].kids@[c] == e {
                    let c = choose|c: int| 0 <= c < f[i].kids@.len() && #[trigger] f[i].kids@[c] == e;
                    assert(forest_wf(f[i].kids@, Some(f[i].node.id)));
                    assert(f[i].kids@[c].node.parent == Some(f[i].node.id));
                }
            } else if let Some(e) = find_entry(f, k, i + 1) {
                if exists|c: int| i + 1 <= c < f.len() && #[trigger] f[c] == e {
                    let c = choose|c: int| i + 1 <= c < f.len() && #[trigger] f[c] == e;
                    assert(i <= c);
                }
            }
        }
    }
}

/// A forest of the tree that mirrors the descriptions, each of whose
/// entries the search over the whole tree finds, consists of nodes built
/// for those descriptions.
proof fn lemma_builds(t: RetainedTree, f: Seq<Entry>, views: Seq<ViewNode>, par: Option<NodeId>)
    requires
        t.wf(),
        forest_mirrors(f, views),
        forest_wf(f, par),
        forest_unique(f),
        forall|j: int| 0 <= j < f.len() ==> find_entry(t.forest@, (#[trigger] f[j]).node.id.0, 0) == Some(f[j]),
    ensures
        t.builds(ids_of(f), views, par),
    decreases views,
{
    assert forall|i: int| 0 <= i < views.len() implies (t.node_at(ids_of(f)[i]) matches Some(n) && {
        &&& n.id == ids_of(f)[i]
        &&& n.parent == par
        &&& n.key@ == (#[trigger] views[i]).key@
        &&& n.kind@ == views[i].kind@
        &&& n.focusable == views[i].focusable
        &&& n.disabled == views[i].disabled
        &&& t.builds(n.children@, views[i].children@, Some(ids_of(f)[i]))
    }) by {
        let e = f[i];
        assert(find_entry(t.forest@, e.node.id.0, 0) == Some(e));
        assert forall|m: int| 0 <= m < e.kids@.len() implies find_entry(t.forest@, (#[trigger] e.kids@[m]).node.id.0, 0)
            == Some(e.kids@[m]) by {
            lemma_find_child(t.forest@, None, e.node.id.0, m);
        }
        lemma_builds(t, e.kids@, views[i].children@, Some(e.node.id));
    }
}

/// The parent of a node that the search finds is the forest's parent or
/// a node of the forest.
proof fn lemma_parent_present(f: Seq<Entry>, par: Option<NodeId>, k: u64, i: int)
    requires
        forest_wf(f, par),
        0 <= i <= f.len(),
        find_entry(f, k, i) matches Some(e) && e.node.parent matches Some(p) && Some(p) != par,
    ensures
        find_entry(f, k, i) matches Some(e) && e.node.parent matches Some(p) && in_forest(f, p.0),
    decreases f, f.len() - i,
{
    assert(decreases_to!(f => f[i]));
    if f[i].node.id.0 != k {
        match find_entry(f[i].kids@, k, 0) {
            Some(e) => {
                let p = e.node.parent->0;
                if Some(p) != Some(f[i].node.id) {
                    lemma_parent_present(f[i].kids@, Some(f[i].node.id), k, 0);
                    assert(in_entry(f[i], p.0));
                } else {
                    assert(in_entry(f[i], p.0));
                }
            },
            None => {
                lemma_parent_present(f, par, k, i + 1);
            },
        }
    }
}

/// A node that occurs in both the old and the reconciled forest has the
/// same parent in both.
proof fn lemma_survivor_parent(
    f0: Seq<Entry>,
    f1: Seq<Entry>,
    views: Seq<ViewNode>,
    b: int,
    par: Option<NodeId>,
    k: u64,
)
    requires
        forest_wf(f0, par),
        forest_wf(f1, par),
        forest_unique(f0),
        forest_unique(f1),
        bounded(f0, 1, b),
        reuses(f0, f1, views, b),
        in_forest(f0, k),
        in_forest(f1, k),
    ensures
        find_entry(f1, k, 0) matches Some(e1) && find_entry(f0, k, 0) matches Some(e0) && e1.node.parent
            == e0.node.parent,
    decreases views,
{
    let i = choose|i: int| 0 <= i < f1.len() && in_entry(#[trigger] f1[i], k);
    assert(views[i] == views[i]);
    assert(k < b);
    if key_absent(f0, views[i].key@) {
        if f1[i].node.id.0 != k {
            lemma_fresh_ids(f1[i].kids@, b, k);
        }
        assert(false);
    } else {
        let j = choose|j: int| 0 <= j < f0.len() && (#[trigger] f0[j]).node.key@ == views[i].key@;
        if f1[i].node.id.0 == k {
            lemma_find_sibling(f1, i, 0);
            lemma_find_sibling(f0, j, 0);
        } else {
            lemma_reuses_ids(f0[j].kids@, f1[i].kids@, views[i].children@, b, k);
            assert(bounded(f0[j].kids@, 1, b)) by {
                assert forall|x: u64| #[trigger] in_forest(f0[j].kids@, x) implies 1 <= x < b by {
                    assert(in_entry(f0[j], x));
                    assert(in_forest(f0, x));
                }
            }
            lemma_survivor_parent(
                f0[j].kids@,
                f1[i].kids@,
                views[i].children@,
                b,
                Some(f1[i].node.id),
                k,
            );
            lemma_find_in_child(f1, i, k, 0);
            lemma_find_in_child(f0, j, k, 0);
        }
    }
}

/// Whatever the search finds in a fresh forest has every dirty flag set.
proof fn lemma_fresh_find(f: Seq<Entry>, b: int, k: u64, i: int)
    requires
        fresh_forest(f, b),
        0 <= i <= f.len(),
    ensures
        find_entry(f, k, i) matches Some(e) ==> e.node.dirty.0 == 31,
    decreases f, f.len() - i,
{
    if i < f.len() {
        assert(decreases_to!(f => f[i]));
        if f[i].node.id.0 != k {
            lemma_fresh_find(f[i].kids@, b, k, 0);
            lemma_fresh_find(f, b, k, i + 1);
        }
    }
}

/// A node that a reconciliation mounted has every dirty flag set.
proof fn lemma_new_entry(f0: Seq<Entry>, f1: Seq<Entry>, views: Seq<ViewNode>, b: int, k: u64)
    requires
        forest_unique(f1),
        reuses(f0, f1, views, b),
        in_forest(f1, k),
        !in_forest(f0, k),
    ensures
        find_entry(f1, k, 0) matches Some(e) && e.node.dirty.0 == 31,
    decreases views,
{
    let i = choose|i: int| 0 <= i < f1.len() && in_entry(#[trigger] f1[i], k);
    assert(views[i] == views[i]);
    if f1[i].node.id.0 == k {
        lemma_find_sibling(f1, i, 0);
        if !key_absent(f0, views[i].key@) {
            let j = choose|j: int| 0 <= j < f0.len() && (#[trigger] f0[j]).node.key@ == views[i].key@;
            assert(in_entry(f0[j], k));
        }
    } else {
        lemma_find_in_child(f1, i, k, 0);
        if key_absent(f0, views[i].key@) {
            lemma_fresh_find(f1[i].kids@, b, k, 0);
            lemma_find_entry(f1[i].kids@, k, 0);
        } else {
            let j = choose|j: int| 0 <= j < f0.len() && (#[trigger] f0[j]).node.key@ == views[i].key@;
            if in_forest(f0[j].kids@, k) {
                assert(in_entry(f0[j], k));
            }
            lemma_new_entry(f0[j].kids@, f1[i].kids@, views[i].children@, b, k);
        }
    }
}

/// The kind or one of the flags of a node differs between two states.
pub open spec fn flags_changed(o: Node, n: Node) -> bool {
    !(o.kind@ == n.kind@ && o.focusable == n.focusable && o.disabled == n.disabled)
}

/// A node that survives a reconciliation has its dirty flags widened by
/// style, layout, paint and semantics exactly when its kind or a flag
/// changed, and each of its children whose key an old child had keeps that
/// child's id.
proof fn lemma_kept_entry(
    f0: Seq<Entry>,
    f1: Seq<Entry>,
    views: Seq<ViewNode>,
    b: int,
    k: u64,
)
    requires
        forest_unique(f0),
        forest_unique(f1),
        bounded(f0, 1, b),
        reuses(f0, f1, views, b),
        forest_mirrors(f1, views),
        in_forest(f0, k),
        in_forest(f1, k),
    ensures
        find_entry(f1, k, 0) matches Some(e1) && find_entry(f0, k, 0) matches Some(e0) && {
            &&& e1.node.dirty.0 == (if flags_changed(e0.node, e1.node) {
                e0.node.dirty.0 | 15u8
            } else {
                e0.node.dirty.0
            })
            &&& forall|a: int, c: int|
                0 <= a < e1.kids@.len() && 0 <= c < e0.kids@.len() && (#[trigger] e0.kids@[c]).node.key@ == (
                #[trigger] e1.kids@[a]).node.key@ ==> e1.kids@[a].node.id == e0.kids@[c].node.id
        },
    decreases views,
{
    let i = choose|i: int| 0 <= i < f1.len() && in_entry(#[trigger] f1[i], k);
    assert(views[i] == views[i]);
    assert(k < b);
    if key_absent(f0, views[i].key@) {
        if f1[i].node.id.0 != k {
            lemma_fresh_ids(f1[i].kids@, b, k);
        }
        assert(false);
    } else {
        let j = choose|j: int| 0 <= j < f0.len() && (#[trigger] f0[j]).node.key@ == views[i].key@;
        if f1[i].node.id.0 == k {
            lemma_find_sibling(f1, i, 0);
            lemma_find_sibling(f0, j, 0);
            let v = views[i];
            assert(reuses(f0[j].kids@, f1[i].kids@, v.children@, b));
            assert(forest_mirrors(f1[i].kids@, v.children@));
            assert forall|a: int, c: int|
                0 <= a < f1[i].kids@.len() && 0 <= c < f0[j].kids@.len() && (#[trigger] f0[j].kids@[c]).node.key@ == (
                #[trigger] f1[i].kids@[a]).node.key@ implies f1[i].kids@[a].node.id == f0[j].kids@[c].node.id by {
                assert(f1[i].kids@[a].node.key@ == v.children@[a].key@);
            }
        } else {
            lemma_reuses_ids(f0[j].kids@, f1[i].kids@, views[i].children@, b, k);
            assert(bounded(f0[j].kids@, 1, b)) by {
                assert forall|x: u64| #[trigger] in_forest(f0[j].kids@, x) implies 1 <= x < b by {
                    assert(in_entry(f0[j], x));
                    assert(in_forest(f0, x));
                }
            }
            lemma_kept_entry(f0[j].kids@, f1[i].kids@, views[i].children@, b, k);
            lemma_find_in_child(f1, i, k, 0);
            lemma_find_in_child(f0, j, k, 0);
        }
    }
}

/// After a reconciliation, a mounted node has every dirty flag set; a kept
/// node has its dirty flags widened by style, layout, paint and semantics
/// exactly when its kind or a flag changed, and each of its children whose
/// key one of its old children had keeps that child's id.
pub proof fn lemma_reconciled_node(t1: RetainedTree, t2: RetainedTree, views: Seq<ViewNode>, d: NodeId)
    requires
        t1.wf(),
        t2.wf(),
        t2.reconciled_from(t1, views),
        t2.mirrors(views),
        t2.contains_id(d),
    ensures
        !t1.contains_id(d) ==> (t2.node_at(d) matches Some(n) && n.dirty.0 == 31),
        t1.contains_id(d) ==> (t2.node_at(d) matches Some(n) && t1.node_at(d) matches Some(o) && {
            &&& n.dirty.0 == (if flags_changed(o, n) {
                o.dirty.0 | 15u8
            } else {
                o.dirty.0
            })
            &&& forall|a: int, c: int|
                0 <= a < n.children@.len() && 0 <= c < o.children@.len() && (t1.node_at(#[trigger] o.children@[c]) matches Some(
                    oc,
                ) && t2.node_at(#[trigger] n.children@[a]) matches Some(nc) && oc.key@ == nc.key@) ==> n.children@[a]
                    == o.children@[c]
        }),
{
    let f0 = t1.forest@;
    let f1 = t2.forest@;
    if !t1.contains_id(d) {
        lemma_new_entry(f0, f1, views, t1.next as int, d.0);
    } else {
        lemma_kept_entry(f0, f1, views, t1.next as int, d.0);
        let e0 = find_entry(f0, d.0, 0)->Some_0;
        let e1 = find_entry(f1, d.0, 0)->Some_0;
        lemma_find_below(f0, None, d.0, 0, 0);
        lemma_find_below(f1, None, d.0, 0, 0);
        assert forall|a: int, c: int|
            0 <= a < e1.node.children@.len() && 0 <= c < e0.node.children@.len() && (t1.node_at(
                #[trigger] e0.node.children@[c],
            ) matches Some(oc) && t2.node_at(#[trigger] e1.node.children@[a]) matches Some(nc) && oc.key@ == nc.key@)
                implies e1.node.children@[a] == e0.node.children@[c] by {
            lemma_find_child(f0, None, d.0, c);
            lemma_find_child(f1, None, d.0, a);
            assert(e0.node.children@[c] == e0.kids@[c].node.id);
            assert(e1.node.children@[a] == e1.kids@[a].node.id);
            assert(e0.kids@[c].node.key@ == e1.kids@[a].node.key@);
        }
    }
}

/// A node that survives a reconciliation keeps its parent, and that
/// parent is in the tree too.
pub proof fn lemma_survivor_keeps_parent(t1: RetainedTree, t2: RetainedTree, views: Seq<ViewNode>, d: NodeId)
    requires
        t1.wf(),
        t2.wf(),
        t2.reconciled_from(t1, views),
        t1.contains_id(d),
        t2.contains_id(d),
    ensures
        t2.node_at(d) matches Some(n2) && t1.node_at(d) matches Some(n1) && n2.parent == n1.parent,
        t2.node_at(d) matches Some(n2) && n2.parent matches Some(p) ==> t2.contains_id(p),
{
    lemma_survivor_parent(t1.forest@, t2.forest@, views, t1.next as int, None, d.0);
    if t2.node_at(d) matches Some(n2) && n2.parent is Some {
        lemma_parent_present(t2.forest@, None, d.0, 0);
    }
}

/// Removal takes whole subtrees: a node whose parent a reconciliation
/// removed is removed as well, and so, one level at a time, is everything
/// below a removed node.
pub proof fn lemma_removal_is_atomic(t1: RetainedTree, t2: RetainedTree, views: Seq<ViewNode>, d: NodeId, p: NodeId)
    requires
        t1.wf(),
        t2.wf(),
        t2.reconciled_from(t1, views),
        t1.node_at(d) matches Some(n) && n.parent == Some(p),
        !t2.contains_id(p),
    ensures
        !t2.contains_id(d),
{
    t1.lemma_node_at(d);
    if t2.contains_id(d) {
        lemma_survivor_keeps_parent(t1, t2, views, d);
    }
}

impl Default for RetainedTree {
    /// The same tree as `RetainedTree::new`.
    fn default() -> (r: Self)
        ensures
            r.wf(),
            r.root_ids() == Seq::<NodeId>::empty(),
            r.next_id() == 1,
            forall|id: NodeId| !r.contains_id(id),
    {
        RetainedTree::new()
    }
}

} // verus!

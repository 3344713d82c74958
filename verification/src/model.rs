//! The persistent sketch model: every drawn object stays a live vector
//! object, ordered bottom to top, arranged in a tree of groups, and
//! edited through an undo history. This module owns the object list,
//! the tree queries and the history; what an object looks like (its
//! shape, transform and physics) is its `body`, which the model moves
//! around but never inspects.

use vstd::prelude::*;
use crate::geometry::GridRect;
use vstd::set_lib::{set_int_range, lemma_int_range, lemma_map_size, lemma_subset_equality};

verus! {

#[derive(Clone, Copy, PartialEq, Eq, Structural, Debug)]
pub enum ObjMaterial {
    Wall,
    Fan,
    Smoke,
    Drain,
}

impl ObjMaterial {
    /// The material's name as the palette shows it.
    pub fn label(&self) -> (r: &'static str)
        ensures
            r@ == match *self {
                ObjMaterial::Wall => "Wall"@,
                ObjMaterial::Fan => "Fan"@,
                ObjMaterial::Smoke => "Smoke"@,
                ObjMaterial::Drain => "Drain"@,
            },
    {
        match self {
            ObjMaterial::Wall => "Wall",
            ObjMaterial::Fan => "Fan",
            ObjMaterial::Smoke => "Smoke",
            ObjMaterial::Drain => "Drain",
        }
    }
}

/// One sketch object: its identity and place in the group tree, its
/// tree-managed flags, and its drawing.
#[derive(Clone, PartialEq, Debug)]
pub struct SketchObject<B> {
    pub id: u64,
    /// Enclosing group id; None = a root object in world coordinates.
    pub parent: Option<u64>,
    /// Not click-selectable and not editable (effective state includes
    /// ancestors, see `SketchModel::eff_locked`).
    pub locked: bool,
    /// Not rasterized and not click-selectable (effective state includes
    /// ancestors, see `SketchModel::eff_hidden`).
    pub hidden: bool,
    /// A group node: no geometry of its own, only the transform that
    /// maps its members' space into its parent's.
    pub is_group: bool,
    /// Shape, transform and physical properties.
    pub body: B,
}

/// Hops an ancestor walk takes at most, so that a corrupt parent cycle
/// cannot hang a query.
pub const MAX_DEPTH: usize = 256;

/// Object `i` of `l` is the first with this id.
pub open spec fn is_first<B>(l: Seq<SketchObject<B>>, id: u64, i: int) -> bool {
    0 <= i < l.len() && l[i].id == id && forall|j: int| 0 <= j < i ==> l[j].id != id
}

/// Some object of `l` has this id.
pub open spec fn has_id<B>(l: Seq<SketchObject<B>>, id: u64) -> bool {
    exists|i: int| 0 <= i < l.len() && l[i].id == id
}

/// Position of the first object with this id.
pub open spec fn index_of<B>(l: Seq<SketchObject<B>>, id: u64) -> Option<int> {
    if has_id(l, id) {
        Some(choose|i: int| is_first(l, id, i))
    } else {
        None
    }
}

/// The first match exists whenever a match does, and `index_of` names it.
pub proof fn lemma_index_of<B>(l: Seq<SketchObject<B>>, id: u64)
    ensures
        match index_of(l, id) {
            Some(i) => is_first(l, id, i),
            None => forall|j: int| 0 <= j < l.len() ==> l[j].id != id,
        },
{
    if has_id(l, id) {
        let k = choose|k: int| 0 <= k < l.len() && l[k].id == id;
        lemma_first_below(l, id, k);
    }
}

proof fn lemma_first_below<B>(l: Seq<SketchObject<B>>, id: u64, k: int)
    requires
        0 <= k < l.len(),
        l[k].id == id,
    ensures
        exists|i: int| is_first(l, id, i),
    decreases k,
{
    if exists|j: int| 0 <= j < k && l[j].id == id {
        let j = choose|j: int| 0 <= j < k && l[j].id == id;
        lemma_first_below(l, id, j);
    } else {
        assert(is_first(l, id, k));
    }
}

/// Two first matches are the same position.
proof fn lemma_first_unique<B>(l: Seq<SketchObject<B>>, id: u64, i: int, j: int)
    requires
        is_first(l, id, i),
        is_first(l, id, j),
    ensures
        i == j,
{
}

/// Position of the parent of object `i`, when its parent id resolves.
pub open spec fn parent_index<B>(l: Seq<SketchObject<B>>, i: int) -> Option<int> {
    match l[i].parent {
        Some(p) => index_of(l, p),
        None => None,
    }
}

/// Position of the `k`-th ancestor of object `i` (0 = itself), walking
/// parent links through `index_of`; None once the chain ends.
pub open spec fn ancestor_at<B>(l: Seq<SketchObject<B>>, i: int, k: nat) -> Option<int>
    decreases k,
{
    if k == 0 {
        if 0 <= i < l.len() { Some(i) } else { None }
    } else {
        match ancestor_at(l, i, (k - 1) as nat) {
            Some(j) => parent_index(l, j),
            None => None,
        }
    }
}

proof fn lemma_ancestor_in_range<B>(l: Seq<SketchObject<B>>, i: int, k: nat)
    ensures
        ancestor_at(l, i, k) matches Some(j) ==> 0 <= j < l.len(),
    decreases k,
{
    if k > 0 {
        lemma_ancestor_in_range(l, i, (k - 1) as nat);
        if let Some(j) = ancestor_at(l, i, (k - 1) as nat) {
            lemma_index_of(l, l[j].parent.unwrap_or(0));
            if let Some(p) = l[j].parent {
                lemma_index_of(l, p);
            }
        }
    }
}

impl<B> SketchObject<B> {
    /// The object with a new parent and body, everything else kept.
    pub open spec fn moved(self, parent: Option<u64>, body: B) -> SketchObject<B> {
        SketchObject { parent, body, ..self }
    }
}

/// One change to the object list, in the form it takes on a history
/// stack. `held` is the object while it is off the list (a removal
/// waiting to be undone, an addition waiting to be redone); `other` is
/// the object's state on the far side of a modification.
///
/// The history moves objects rather than copying them: every object
/// value lives either in the list or in one entry, never both (a copy
/// of a generic body would be a `clone`, of which nothing is known). So
/// an entry takes an object as it stands when the entry is undone or
/// redone: an addition holds nothing until undone, and a modification
/// swaps the slot with `other`. When every change to the list goes
/// through a recording operation (live edits via `set_object` before
/// the gesture's record), this gives the same lists as keeping a
/// snapshot at record time, and an object drawn live after `add` needs
/// no separate step to bring its addition entry up to date.
pub enum Edit<B> {
    /// An object appended at the top.
    Add { id: u64, held: Option<SketchObject<B>> },
    /// The object at `index` removed.
    Remove { index: usize, held: Option<SketchObject<B>> },
    /// An object inserted at `index` (eraser fragments just above their
    /// source, bucket fills at the bottom).
    Insert { index: usize, id: u64, held: Option<SketchObject<B>> },
    /// The object at `index` (id `id`) replaced; panel edits with
    /// `coalesce` merge into an open entry of the same kind.
    Modify { index: usize, id: u64, other: SketchObject<B>, coalesce: bool },
}

/// One undo step.
pub enum ModelOp<B> {
    Edit(Edit<B>),
    /// The whole list swapped (clear, presets, scene loads); holds the
    /// list on the far side.
    Replace(Vec<SketchObject<B>>),
    /// Z-order permutation: id order before, id order after.
    Reorder(Vec<u64>, Vec<u64>),
    /// One user action over several objects, undone in reverse.
    Group { edits: Vec<Edit<B>>, coalesce: bool },
}


/// Ids of the objects among the first `k` of `l` whose position
/// satisfies `pred`, in list order.
pub open spec fn ids_upto<B>(l: Seq<SketchObject<B>>, k: int, pred: spec_fn(int) -> bool) -> Seq<u64>
    decreases k,
{
    if k <= 0 {
        Seq::empty()
    } else {
        let r = ids_upto(l, k - 1, pred);
        if pred(k - 1) {
            r.push(l[k - 1].id)
        } else {
            r
        }
    }
}

/// The object at `a`, if any, has `ancestor` as its parent.
pub open spec fn parent_hit<B>(l: Seq<SketchObject<B>>, a: Option<int>, ancestor: u64) -> bool {
    match a {
        Some(j) => l[j].parent == Some(ancestor),
        None => false,
    }
}

/// The object at `a`, if any, has its hidden (or locked) flag set.
pub open spec fn flag_hit<B>(l: Seq<SketchObject<B>>, a: Option<int>, hidden: bool) -> bool {
    match a {
        Some(j) => if hidden { l[j].hidden } else { l[j].locked },
        None => false,
    }
}

/// `id` sits below `ancestor`: some ancestor of the first object with
/// that id, within `MAX_DEPTH` hops, has `ancestor` as its parent.
pub open spec fn descends<B>(l: Seq<SketchObject<B>>, id: u64, ancestor: u64) -> bool {
    match index_of(l, id) {
        Some(i) => exists|t: nat| t < MAX_DEPTH && parent_hit(l, #[trigger] ancestor_at(l, i, t), ancestor),
        None => false,
    }
}

/// Hops from object `i` towards the root, counting at most `k`.
pub open spec fn depth_upto<B>(l: Seq<SketchObject<B>>, i: int, k: nat) -> nat
    decreases k,
{
    if k == 0 {
        0
    } else if ancestor_at(l, i, k) is Some {
        k
    } else {
        depth_upto(l, i, (k - 1) as nat)
    }
}

/// Object `id`, or one of its ancestors within `MAX_DEPTH` hops, has the
/// flag set (`hidden` picks the hidden flag, else the locked one).
pub open spec fn flag_inherited<B>(l: Seq<SketchObject<B>>, id: u64, hidden: bool) -> bool {
    match index_of(l, id) {
        Some(i) => exists|t: nat| t < MAX_DEPTH && flag_hit(l, #[trigger] ancestor_at(l, i, t), hidden),
        None => false,
    }
}

/// Once an ancestor walk ends it stays ended.
pub(crate) proof fn lemma_ancestor_ends<B>(l: Seq<SketchObject<B>>, i: int, t: nat, u: nat)
    requires
        ancestor_at(l, i, t) is None,
        t <= u,
    ensures
        ancestor_at(l, i, u) is None,
    decreases u - t,
{
    if t < u {
        lemma_ancestor_ends(l, i, t, (u - 1) as nat);
    }
}

/// The object at `k` can be picked by a pointer that touches it: it is
/// touched, not a group node, and neither locked nor hidden through its
/// own flags or an ancestor's.
pub open spec fn pickable<B>(l: Seq<SketchObject<B>>, touches: Seq<bool>, k: int) -> bool {
    touches[k] && !l[k].is_group && !flag_inherited(l, l[k].id, false) && !flag_inherited(l, l[k].id, true)
}

/// The rect `mark_all_dirty` records: a quarter of the i32 range on
/// every side, far beyond any grid yet safe to offset by a margin.
pub open spec fn everything() -> GridRect {
    GridRect { x0: -536_870_912i32, y0: -536_870_912i32, x1: 536_870_911i32, y1: 536_870_911i32 }
}

/// The sketch model: the object list in z-order (later = painted later
/// = wins overlaps), the id counter, the undo and redo stacks, and the
/// region waiting to be re-rasterized.
///
/// Damage marking: an object's world footprint is a floating-point box
/// that depends on its body and its ancestors' transforms, which this
/// model carries opaquely. So an edit that adds, removes, moves or
/// changes objects leaves the dirty region as it was, and the caller
/// marks the footprints of the objects it touched (before and after
/// the edit, undo and redo included) through `mark_dirty`. Whole-list
/// swaps (`replace_all`, and undoing or redoing one) need no footprint
/// and mark everything here.
pub struct SketchModel<B> {
    pub objects: Vec<SketchObject<B>>,
    next_id: u64,
    undo: Vec<ModelOp<B>>,
    redo: Vec<ModelOp<B>>,
    dirty: Option<GridRect>,
}

impl<B> SketchModel<B> {
    /// The object list, bottom to top. Direct writes to the public
    /// `objects` field are outside every contract; verified callers
    /// write through `set_object`.
    pub closed spec fn objs(&self) -> Seq<SketchObject<B>> {
        self.objects@
    }

    /// The undo history, oldest first.
    pub closed spec fn undo_stack(&self) -> Seq<ModelOp<B>> {
        self.undo@
    }

    /// The redo history, oldest first.
    pub closed spec fn redo_stack(&self) -> Seq<ModelOp<B>> {
        self.redo@
    }

    /// The last id handed out by `fresh_id` or raised to by a load (0
    /// for a new model); the next fresh id is one past it.
    pub closed spec fn last_id(&self) -> u64 {
        self.next_id
    }

    /// The grid region marked for re-rasterising, if any.
    pub closed spec fn dirty_region(&self) -> Option<GridRect> {
        self.dirty
    }

    /// An empty model with no history.
    pub fn new() -> (m: Self)
        ensures
            m.objs().len() == 0,
            m.last_id() == 0,
            m.undo_stack().len() == 0,
            m.redo_stack().len() == 0,
            m.dirty_region() is None,
    {
        SketchModel { objects: Vec::new(), next_id: 0, undo: Vec::new(), redo: Vec::new(), dirty: None }
    }

    /// The last id handed out or loaded (0 for a new model).
    pub fn current_id(&self) -> (r: u64)
        ensures
            r == self.last_id(),
    {
        self.next_id
    }

    /// A fresh object id (one past the last one handed out or loaded).
    pub fn fresh_id(&mut self) -> (id: u64)
        requires
            old(self).last_id() < u64::MAX,
        ensures
            id == old(self).last_id() + 1,
            final(self).last_id() == id,
            final(self).objs() == old(self).objs(),
            ids_at_most(old(self).objs(), old(self).last_id()) ==> !has_id(final(self).objs(), id)
                && ids_at_most(final(self).objs(), id),
            final(self).undo_stack() == old(self).undo_stack(),
            final(self).redo_stack() == old(self).redo_stack(),
            final(self).dirty_region() == old(self).dirty_region(),
    {
        self.next_id = self.next_id + 1;
        self.next_id
    }

    /// Grow the pending re-rasterization region by `r` (empty rects are
    /// ignored).
    pub fn mark_dirty(&mut self, r: GridRect)
        ensures
            final(self).dirty_region() == if r.empty() {
                old(self).dirty_region()
            } else {
                match old(self).dirty_region() {
                    Some(d) => Some(d.union_of(r)),
                    None => Some(r),
                }
            },
            final(self).objs() == old(self).objs(),
            final(self).last_id() == old(self).last_id(),
            final(self).undo_stack() == old(self).undo_stack(),
            final(self).redo_stack() == old(self).redo_stack(),
    {
        if r.is_empty() {
            return;
        }
        self.dirty = Some(match self.dirty {
            Some(d) => d.union(r),
            None => r,
        });
    }

    /// Mark everything (a rect far beyond any grid) for re-rasterization.
    pub fn mark_all_dirty(&mut self)
        ensures
            final(self).dirty_region() == Some(everything()),
            final(self).objs() == old(self).objs(),
            final(self).last_id() == old(self).last_id(),
            final(self).undo_stack() == old(self).undo_stack(),
            final(self).redo_stack() == old(self).redo_stack(),
    {
        self.dirty = Some(
            GridRect { x0: -536_870_912i32, y0: -536_870_912i32, x1: 536_870_911i32, y1: 536_870_911i32 },
        );
    }

    /// Hand out the pending region and mark the model clean.
    pub fn take_dirty(&mut self) -> (r: Option<GridRect>)
        ensures
            r == old(self).dirty_region(),
            final(self).dirty_region() is None,
            final(self).objs() == old(self).objs(),
            final(self).last_id() == old(self).last_id(),
            final(self).undo_stack() == old(self).undo_stack(),
            final(self).redo_stack() == old(self).redo_stack(),
    {
        let r = self.dirty;
        self.dirty = None;
        r
    }

    /// Number of objects.
    pub fn len(&self) -> (r: usize)
        ensures
            r == self.objs().len(),
    {
        self.objects.len()
    }

    /// Overwrite the object at position `k` without recording anything
    /// (a live edit during a gesture; the gesture's end records it).
    pub fn set_object(&mut self, k: usize, o: SketchObject<B>)
        requires
            k < old(self).objs().len(),
        ensures
            final(self).objs() == old(self).objs().update(k as int, o),
            final(self).undo_stack() == old(self).undo_stack(),
            final(self).redo_stack() == old(self).redo_stack(),
            final(self).last_id() == old(self).last_id(),
            final(self).dirty_region() == old(self).dirty_region(),
    {
        self.objects.set(k, o);
    }

    /// The object at position `k`.
    pub fn object_at(&self, k: usize) -> (r: &SketchObject<B>)
        requires
            k < self.objs().len(),
        ensures
            *r == self.objs()[k as int],
    {
        &self.objects[k]
    }

    /// Id of the object at position `k`.
    pub fn id_at(&self, k: usize) -> (r: u64)
        requires
            k < self.objs().len(),
        ensures
            r == self.objs()[k as int].id,
    {
        self.objects[k].id
    }

    /// True when the object at position `k` is a group node.
    pub fn is_group_at(&self, k: usize) -> (r: bool)
        requires
            k < self.objs().len(),
        ensures
            r == self.objs()[k as int].is_group,
    {
        self.objects[k].is_group
    }

    /// True when `id` resolves to a group node.
    pub fn is_group(&self, id: u64) -> (r: bool)
        ensures
            r == is_group_id(self.objs(), id),
    {
        match self.find(id) {
            Some(i) => self.objects[i].is_group,
            None => false,
        }
    }

    /// The topmost object a pointer picks, given which objects' shapes
    /// it touches (`touches[k]` for the object at position `k`): group
    /// nodes, and objects locked or hidden by their own flag or an
    /// ancestor's, are passed over.
    pub fn topmost_hit(&self, touches: &Vec<bool>) -> (r: Option<u64>)
        requires
            touches@.len() == self.objs().len(),
        ensures
            ({
                let l = self.objs();
                match r {
                    Some(id) => exists|k: int| 0 <= k < l.len() && pickable(l, touches@, k) && l[k].id == id
                        && forall|j: int| k < j < l.len() ==> !#[trigger] pickable(l, touches@, j),
                    None => forall|j: int| 0 <= j < l.len() ==> !#[trigger] pickable(l, touches@, j),
                }
            }),
    {
        let ghost l = self.objects@;
        let mut k: usize = self.objects.len();
        while k > 0
            invariant
                l == self.objects@,
                touches@.len() == l.len(),
                k <= l.len(),
                forall|j: int| k <= j < l.len() ==> !#[trigger] pickable(l, touches@, j),
            decreases k,
        {
            k = k - 1;
            let o = &self.objects[k];
            if touches[k] && !o.is_group && !self.eff_locked(o.id) && !self.eff_hidden(o.id) {
                proof {
                    assert(pickable(l, touches@, k as int));
                }
                return Some(o.id);
            }
        }
        None
    }

    /// Position of the first object with this id.
    pub fn find(&self, id: u64) -> (r: Option<usize>)
        ensures
            match r {
                Some(i) => index_of(self.objs(), id) == Some(i as int) && is_first(self.objs(), id, i as int),
                None => index_of(self.objs(), id) is None && !has_id(self.objs(), id),
            },
    {
        let n = self.objects.len();
        let mut i: usize = 0;
        while i < n
            invariant
                n == self.objects@.len(),
                i <= n,
                forall|j: int| 0 <= j < i ==> self.objects@[j].id != id,
            decreases n - i,
        {
            if self.objects[i].id == id {
                proof {
                    assert(is_first(self.objects@, id, i as int));
                    lemma_index_of(self.objects@, id);
                }
                return Some(i);
            }
            i = i + 1;
        }
        None
    }

    /// Position of the parent of the object at `i`, when it resolves.
    fn parent_pos(&self, i: usize) -> (r: Option<usize>)
        requires
            i < self.objects@.len(),
        ensures
            match r {
                Some(j) => parent_index(self.objects@, i as int) == Some(j as int) && j < self.objects@.len(),
                None => parent_index(self.objects@, i as int) is None,
            },
    {
        match self.objects[i].parent {
            Some(p) => self.find(p),
            None => None,
        }
    }

    /// True when `id` sits somewhere below `ancestor` in the tree (walks
    /// at most `MAX_DEPTH` hops).
    pub fn is_descendant(&self, id: u64, ancestor: u64) -> (r: bool)
        ensures
            r == descends(self.objs(), id, ancestor),
    {
        let l = Ghost(self.objects@);
        let Some(mut i) = self.find(id) else { return false };
        let ghost i0 = i as int;
        let mut t: usize = 0;
        while t < MAX_DEPTH
            invariant
                l@ == self.objects@,
                index_of(l@, id) == Some(i0),
                t <= MAX_DEPTH,
                ancestor_at(l@, i0, t as nat) == Some(i as int),
                forall|u: nat| u < t ==> !parent_hit(l@, #[trigger] ancestor_at(l@, i0, u), ancestor),
            decreases MAX_DEPTH - t,
        {
            proof {
                lemma_ancestor_in_range(l@, i0, t as nat);
            }
            match self.objects[i].parent {
                Some(p) => {
                    if p == ancestor {
                        return true;
                    }
                    match self.find(p) {
                        Some(pi) => {
                            i = pi;
                        },
                        None => {
                            proof {
                                assert forall|u: nat| u < MAX_DEPTH implies !parent_hit(l@, #[trigger] ancestor_at(l@, i0, u), ancestor) by {
                                    if u > t {
                                        assert(ancestor_at(l@, i0, (t + 1) as nat) is None);
                                        lemma_ancestor_ends(l@, i0, (t + 1) as nat, u);
                                    }
                                }
                            }
                            return false;
                        },
                    }
                },
                None => {
                    proof {
                        assert forall|u: nat| u < MAX_DEPTH implies !parent_hit(l@, #[trigger] ancestor_at(l@, i0, u), ancestor) by {
                            if u > t {
                                assert(ancestor_at(l@, i0, (t + 1) as nat) is None);
                                lemma_ancestor_ends(l@, i0, (t + 1) as nat, u);
                            }
                        }
                    }
                    return false;
                },
            }
            t = t + 1;
        }
        false
    }

    /// Nesting depth: 0 for roots, 1 for direct group members, ...
    /// (counting at most `MAX_DEPTH` hops).
    pub fn depth(&self, id: u64) -> (r: usize)
        ensures
            r == match index_of(self.objs(), id) {
                Some(i) => depth_upto(self.objs(), i, MAX_DEPTH as nat),
                None => 0,
            },
    {
        let ghost l = self.objects@;
        let Some(mut i) = self.find(id) else { return 0 };
        let ghost i0 = i as int;
        let mut d: usize = 0;
        while d < MAX_DEPTH
            invariant
                l == self.objects@,
                index_of(l, id) == Some(i0),
                d <= MAX_DEPTH,
                ancestor_at(l, i0, d as nat) == Some(i as int),
                depth_upto(l, i0, d as nat) == d,
            decreases MAX_DEPTH - d,
        {
            proof {
                lemma_ancestor_in_range(l, i0, d as nat);
            }
            match self.parent_pos(i) {
                Some(pi) => {
                    d = d + 1;
                    i = pi;
                },
                None => {
                    proof {
                        assert(ancestor_at(l, i0, (d + 1) as nat) is None);
                        lemma_depth_stops(l, i0, d as nat, MAX_DEPTH as nat);
                    }
                    return d;
                },
            }
        }
        d
    }

    /// Effective hidden state: the object's own flag or any ancestor's.
    pub fn eff_hidden(&self, id: u64) -> (r: bool)
        ensures
            r == flag_inherited(self.objs(), id, true),
    {
        self.eff_flag(id, true)
    }

    /// Effective locked state: the object's own flag or any ancestor's.
    pub fn eff_locked(&self, id: u64) -> (r: bool)
        ensures
            r == flag_inherited(self.objs(), id, false),
    {
        self.eff_flag(id, false)
    }

    fn eff_flag(&self, id: u64, hidden: bool) -> (r: bool)
        ensures
            r == flag_inherited(self.objs(), id, hidden),
    {
        let ghost l = self.objects@;
        let Some(mut i) = self.find(id) else { return false };
        let ghost i0 = i as int;
        let mut t: usize = 0;
        while t < MAX_DEPTH
            invariant
                l == self.objects@,
                index_of(l, id) == Some(i0),
                t <= MAX_DEPTH,
                ancestor_at(l, i0, t as nat) == Some(i as int),
                forall|u: nat| u < t ==> !flag_hit(l, #[trigger] ancestor_at(l, i0, u), hidden),
            decreases MAX_DEPTH - t,
        {
            proof {
                lemma_ancestor_in_range(l, i0, t as nat);
            }
            let o = &self.objects[i];
            if (hidden && o.hidden) || (!hidden && o.locked) {
                return true;
            }
            match self.parent_pos(i) {
                Some(pi) => {
                    i = pi;
                },
                None => {
                    proof {
                        assert forall|u: nat| u < MAX_DEPTH implies !flag_hit(l, #[trigger] ancestor_at(l, i0, u), hidden) by {
                            if u > t {
                                assert(ancestor_at(l, i0, (t + 1) as nat) is None);
                                lemma_ancestor_ends(l, i0, (t + 1) as nat, u);
                            }
                        }
                    }
                    return false;
                },
            }
            t = t + 1;
        }
        false
    }

    /// Direct children of a group, in model (z) order.
    pub fn children_of(&self, id: u64) -> (r: Vec<u64>)
        ensures
            r@ == ids_upto(self.objs(), self.objs().len() as int, |k: int| self.objs()[k].parent == Some(id)),
    {
        let ghost l = self.objects@;
        let ghost pred = |k: int| l[k].parent == Some(id);
        let mut r: Vec<u64> = Vec::new();
        let n = self.objects.len();
        let mut k: usize = 0;
        while k < n
            invariant
                l == self.objects@,
                n == l.len(),
                k <= n,
                pred == (|k: int| l[k].parent == Some(id)),
                r@ == ids_upto(l, k as int, pred),
            decreases n - k,
        {
            if self.objects[k].parent == Some(id) {
                r.push(self.objects[k].id);
            }
            k = k + 1;
        }
        r
    }

    /// `id` plus every descendant, in model (z) order.
    pub fn subtree_ids(&self, id: u64) -> (r: Vec<u64>)
        ensures
            r@ == ids_upto(
                self.objs(),
                self.objs().len() as int,
                |k: int| self.objs()[k].id == id || descends(self.objs(), self.objs()[k].id, id),
            ),
    {
        let ghost l = self.objects@;
        let ghost pred = |k: int| l[k].id == id || descends(l, l[k].id, id);
        let mut r: Vec<u64> = Vec::new();
        let n = self.objects.len();
        let mut k: usize = 0;
        while k < n
            invariant
                l == self.objects@,
                n == l.len(),
                k <= n,
                pred == (|k: int| l[k].id == id || descends(l, l[k].id, id)),
                r@ == ids_upto(l, k as int, pred),
            decreases n - k,
        {
            let oid = self.objects[k].id;
            if oid == id || self.is_descendant(oid, id) {
                r.push(oid);
            }
            k = k + 1;
        }
        r
    }

    /// The ancestor chain of `leaf`, leaf first, root last (at most 64
    /// hops; a dangling parent id ends the chain as its last entry).
    pub fn ancestor_chain(&self, leaf: u64) -> (r: Vec<u64>)
        ensures
            r@ == chain_ids(self.objs(), leaf, 64),
            r@.len() >= 1,
            r@[0] == leaf,
    {
        let mut chain: Vec<u64> = Vec::new();
        chain.push(leaf);
        let mut cur = leaf;
        let mut t: usize = 0;
        while t < 64
            invariant
                t <= 64,
                chain@ == chain_ids(self.objects@, leaf, t as nat),
                chain@.len() >= 1,
                chain@[0] == leaf,
                cur == chain@.last(),
            decreases 64 - t,
        {
            let next = match self.find(cur) {
                Some(i) => self.objects[i].parent,
                None => None,
            };
            match next {
                Some(p) => {
                    chain.push(p);
                    cur = p;
                },
                None => {
                    proof {
                        lemma_chain_stops(self.objects@, leaf, t as nat, 64);
                    }
                    return chain;
                },
            }
            t = t + 1;
        }
        chain
    }
}

/// The ancestor-id chain from `leaf` after `k` steps: each step appends
/// the parent id of the first object carrying the last id, and the chain
/// stops growing at a root or an unknown id.
pub open spec fn chain_ids<B>(l: Seq<SketchObject<B>>, leaf: u64, k: nat) -> Seq<u64>
    decreases k,
{
    if k == 0 {
        seq![leaf]
    } else {
        let c = chain_ids(l, leaf, (k - 1) as nat);
        match next_up(l, c.last()) {
            Some(p) => c.push(p),
            None => c,
        }
    }
}

/// The parent id of the first object with this id.
pub open spec fn next_up<B>(l: Seq<SketchObject<B>>, id: u64) -> Option<u64> {
    match index_of(l, id) {
        Some(i) => l[i].parent,
        None => None,
    }
}

proof fn lemma_chain_stops<B>(l: Seq<SketchObject<B>>, leaf: u64, t: nat, u: nat)
    requires
        t <= u,
        next_up(l, chain_ids(l, leaf, t).last()) is None,
    ensures
        chain_ids(l, leaf, u) == chain_ids(l, leaf, t),
    decreases u - t,
{
    if t < u {
        lemma_chain_stops(l, leaf, t, (u - 1) as nat);
    }
}

proof fn lemma_depth_stops<B>(l: Seq<SketchObject<B>>, i: int, d: nat, u: nat)
    requires
        d < u,
        ancestor_at(l, i, (d + 1) as nat) is None,
        ancestor_at(l, i, d) is Some,
        depth_upto(l, i, d) == d,
    ensures
        depth_upto(l, i, u) == d,
    decreases u - d,
{
    if u > d + 1 {
        lemma_depth_stops(l, i, d, (u - 1) as nat);
        lemma_ancestor_ends(l, i, (d + 1) as nat, u);
    }
}

// --- History semantics -----------------------------------------------------

/// `i` clamped to a list of length `n`.
pub open spec fn clamp_index(i: usize, n: int) -> int {
    if (i as int) < n { i as int } else { n }
}

/// Undoing one edit: the list afterwards, and the edit in the form it
/// takes on the redo stack.
pub open spec fn undo_edit<B>(l: Seq<SketchObject<B>>, e: Edit<B>) -> (Seq<SketchObject<B>>, Edit<B>) {
    match e {
        Edit::Add { id, held } => match index_of(l, id) {
            Some(i) => (l.remove(i), Edit::Add { id, held: Some(l[i]) }),
            None => (l, Edit::Add { id, held }),
        },
        Edit::Remove { index, held } => match held {
            Some(o) => (l.insert(clamp_index(index, l.len() as int), o), Edit::Remove { index, held: None }),
            None => (l, Edit::Remove { index, held: None }),
        },
        Edit::Insert { index, id, held } => if (index as int) < l.len() && l[index as int].id == id {
            (l.remove(index as int), Edit::Insert { index, id, held: Some(l[index as int]) })
        } else {
            match index_of(l, id) {
                Some(j) => (l.remove(j), Edit::Insert { index, id, held: Some(l[j]) }),
                None => (l, Edit::Insert { index, id, held }),
            }
        },
        Edit::Modify { index, id, other, coalesce } => if (index as int) < l.len() {
            (l.update(index as int, other), Edit::Modify { index, id, other: l[index as int], coalesce })
        } else {
            (l, Edit::Modify { index, id, other, coalesce })
        },
    }
}

/// Redoing one edit: the list afterwards, and the edit in the form it
/// takes on the undo stack.
pub open spec fn redo_edit<B>(l: Seq<SketchObject<B>>, e: Edit<B>) -> (Seq<SketchObject<B>>, Edit<B>) {
    match e {
        Edit::Add { id, held } => match held {
            Some(o) => (l.push(o), Edit::Add { id, held: None }),
            None => (l, Edit::Add { id, held: None }),
        },
        Edit::Remove { index, held } => if (index as int) < l.len() {
            (l.remove(index as int), Edit::Remove { index, held: Some(l[index as int]) })
        } else if l.len() > 0 {
            (l.drop_last(), Edit::Remove { index, held: Some(l.last()) })
        } else {
            (l, Edit::Remove { index, held })
        },
        Edit::Insert { index, id, held } => match held {
            Some(o) => (l.insert(clamp_index(index, l.len() as int), o), Edit::Insert { index, id, held: None }),
            None => (l, Edit::Insert { index, id, held: None }),
        },
        Edit::Modify { index, id, other, coalesce } => if (index as int) < l.len() {
            (l.update(index as int, other), Edit::Modify { index, id, other: l[index as int], coalesce })
        } else {
            (l, Edit::Modify { index, id, other, coalesce })
        },
    }
}

/// Undoing a group of edits, last first.
pub open spec fn undo_edits<B>(l: Seq<SketchObject<B>>, es: Seq<Edit<B>>) -> (Seq<SketchObject<B>>, Seq<Edit<B>>)
    decreases es.len(),
{
    if es.len() == 0 {
        (l, Seq::empty())
    } else {
        let (l1, e1) = undo_edit(l, es.last());
        let (l2, rest) = undo_edits(l1, es.drop_last());
        (l2, rest.push(e1))
    }
}

/// Redoing a group of edits, first first.
pub open spec fn redo_edits<B>(l: Seq<SketchObject<B>>, es: Seq<Edit<B>>) -> (Seq<SketchObject<B>>, Seq<Edit<B>>)
    decreases es.len(),
{
    if es.len() == 0 {
        (l, Seq::empty())
    } else {
        let (l1, e1) = redo_edit(l, es[0]);
        let (l2, rest) = redo_edits(l1, es.drop_first());
        (l2, seq![e1] + rest)
    }
}

/// The ids of the list, in order.
pub open spec fn ids_of<B>(l: Seq<SketchObject<B>>) -> Seq<u64> {
    Seq::new(l.len(), |k: int| l[k].id)
}

/// `ids` names every object of `l` once: same length, every id found,
/// no id twice.
pub open spec fn is_permutation_of<B>(l: Seq<SketchObject<B>>, ids: Seq<u64>) -> bool {
    &&& ids.len() == l.len()
    &&& forall|k: int| 0 <= k < ids.len() ==> has_id(l, #[trigger] ids[k])
    &&& forall|a: int, b: int| 0 <= a < b < ids.len() ==> #[trigger] ids[a] != #[trigger] ids[b]
}

/// `l` rearranged into the order `ids` gives, when that is a
/// permutation; otherwise `l` itself.
pub open spec fn reordered<B>(l: Seq<SketchObject<B>>, ids: Seq<u64>) -> Seq<SketchObject<B>> {
    if is_permutation_of(l, ids) {
        Seq::new(l.len(), |k: int| l[index_of(l, ids[k]).unwrap()])
    } else {
        l
    }
}

/// Undoing `op` on list `l` gives list `l2`, and `op2` is what the redo
/// stack receives.
pub open spec fn undo_step<B>(l: Seq<SketchObject<B>>, op: ModelOp<B>, l2: Seq<SketchObject<B>>, op2: ModelOp<B>) -> bool {
    match op {
        ModelOp::Edit(e) => l2 == undo_edit(l, e).0 && op2 == ModelOp::Edit(undo_edit(l, e).1),
        ModelOp::Replace(v) => l2 == v@ && (match op2 {
            ModelOp::Replace(v2) => v2@ == l,
            _ => false,
        }),
        ModelOp::Reorder(a, b) => l2 == reordered(l, a@) && op2 == ModelOp::<B>::Reorder(a, b),
        ModelOp::Group { edits, coalesce } => l2 == undo_edits(l, edits@).0 && (match op2 {
            ModelOp::Group { edits: e2, coalesce: c2 } => e2@ == undo_edits(l, edits@).1 && c2 == coalesce,
            _ => false,
        }),
    }
}

/// Redoing `op` on list `l` gives list `l2`, and `op2` is what the undo
/// stack receives.
pub open spec fn redo_step<B>(l: Seq<SketchObject<B>>, op: ModelOp<B>, l2: Seq<SketchObject<B>>, op2: ModelOp<B>) -> bool {
    match op {
        ModelOp::Edit(e) => l2 == redo_edit(l, e).0 && op2 == ModelOp::Edit(redo_edit(l, e).1),
        ModelOp::Replace(v) => l2 == v@ && (match op2 {
            ModelOp::Replace(v2) => v2@ == l,
            _ => false,
        }),
        ModelOp::Reorder(a, b) => l2 == reordered(l, b@) && op2 == ModelOp::<B>::Reorder(a, b),
        ModelOp::Group { edits, coalesce } => l2 == redo_edits(l, edits@).0 && (match op2 {
            ModelOp::Group { edits: e2, coalesce: c2 } => e2@ == redo_edits(l, edits@).1 && c2 == coalesce,
            _ => false,
        }),
    }
}

/// `op`, on top of the undo stack, took the list from `l0` to `l1`
/// reversibly: undoing it gives `l0` back, and redoing what the undo
/// left on the redo stack gives `l1` again.
pub open spec fn round_trips<B>(l0: Seq<SketchObject<B>>, l1: Seq<SketchObject<B>>, op: ModelOp<B>) -> bool {
    forall|l2: Seq<SketchObject<B>>, op2: ModelOp<B>|
        #[trigger] undo_step(l1, op, l2, op2) ==> l2 == l0 && forall|l3: Seq<SketchObject<B>>, op3: ModelOp<B>|
            #[trigger] redo_step(l2, op2, l3, op3) ==> l3 == l1
}

/// Every id of `l` is at most `last`.
pub open spec fn ids_at_most<B>(l: Seq<SketchObject<B>>, last: u64) -> bool {
    forall|k: int| 0 <= k < l.len() ==> (#[trigger] l[k]).id <= last
}

/// A single edit whose undo and redo invert each other round-trips.
proof fn lemma_edit_round_trips<B>(l0: Seq<SketchObject<B>>, l1: Seq<SketchObject<B>>, e: Edit<B>, back: Edit<B>)
    requires
        undo_edit(l1, e) == (l0, back),
        redo_edit(l0, back) == (l1, e),
    ensures
        round_trips(l0, l1, ModelOp::Edit(e)),
{
}

/// A group of edits whose undo and redo invert each other round-trips.
proof fn lemma_group_round_trips<B>(
    l0: Seq<SketchObject<B>>,
    l1: Seq<SketchObject<B>>,
    edits: Vec<Edit<B>>,
    coalesce: bool,
    back: Seq<Edit<B>>,
)
    requires
        undo_edits(l1, edits@) == (l0, back),
        redo_edits(l0, back) == (l1, edits@),
    ensures
        round_trips(l0, l1, ModelOp::Group { edits, coalesce }),
{
}

/// A reordering into a permutation round-trips.
proof fn lemma_reorder_round_trips<B>(l0: Seq<SketchObject<B>>, a: Vec<u64>, b: Vec<u64>)
    requires
        a@ == ids_of(l0),
        is_permutation_of(l0, b@),
    ensures
        round_trips(l0, reordered(l0, b@), ModelOp::Reorder(a, b)),
{
    lemma_reorder_round_trip(l0, b@);
}

/// Swapping in a whole list round-trips.
proof fn lemma_replace_round_trips<B>(l0: Seq<SketchObject<B>>, l1: Seq<SketchObject<B>>, v: Vec<SketchObject<B>>)
    requires
        v@ == l0,
    ensures
        round_trips(l0, l1, ModelOp::Replace(v)),
{
}

/// Undo after any recorded change restores the list the change started
/// from, and redo after that gives the changed list back. Every
/// operation that records an undo entry (add, add_many, insert_at,
/// remove_many, apply_erase, reorder, group_objects, ungroup, reparent,
/// replace_all) states `round_trips` of its entry in its `ensures`.
pub proof fn lemma_undo_redo_round_trip<B>(
    l0: Seq<SketchObject<B>>,
    l1: Seq<SketchObject<B>>,
    op: ModelOp<B>,
    l2: Seq<SketchObject<B>>,
    op2: ModelOp<B>,
    l3: Seq<SketchObject<B>>,
    op3: ModelOp<B>,
)
    requires
        round_trips(l0, l1, op),
        undo_step(l1, op, l2, op2),
        redo_step(l2, op2, l3, op3),
    ensures
        l2 == l0,
        l3 == l1,
{
}

impl<B> SketchModel<B> {
    fn apply_undo_edit(&mut self, e: Edit<B>) -> (r: Edit<B>)
        ensures
            (final(self).objects@, r) == undo_edit(old(self).objects@, e),
            final(self).next_id == old(self).next_id,
            final(self).undo == old(self).undo,
            final(self).redo == old(self).redo,
            final(self).dirty == old(self).dirty,
    {
        match e {
            Edit::Add { id, held } => match self.find(id) {
                Some(i) => {
                    let o = self.objects.remove(i);
                    Edit::Add { id, held: Some(o) }
                },
                None => Edit::Add { id, held },
            },
            Edit::Remove { index, held } => match held {
                Some(o) => {
                    let n = self.objects.len();
                    let at = if index < n { index } else { n };
                    self.objects.insert(at, o);
                    Edit::Remove { index, held: None }
                },
                None => Edit::Remove { index, held: None },
            },
            Edit::Insert { index, id, held } => {
                if index < self.objects.len() && self.objects[index].id == id {
                    let o = self.objects.remove(index);
                    Edit::Insert { index, id, held: Some(o) }
                } else {
                    match self.find(id) {
                        Some(j) => {
                            let o = self.objects.remove(j);
                            Edit::Insert { index, id, held: Some(o) }
                        },
                        None => Edit::Insert { index, id, held },
                    }
                }
            },
            Edit::Modify { index, id, other, coalesce } => {
                let mut other = other;
                if index < self.objects.len() {
                    std::mem::swap(&mut self.objects[index], &mut other);
                }
                Edit::Modify { index, id, other, coalesce }
            },
        }
    }

    fn apply_redo_edit(&mut self, e: Edit<B>) -> (r: Edit<B>)
        ensures
            (final(self).objects@, r) == redo_edit(old(self).objects@, e),
            final(self).next_id == old(self).next_id,
            final(self).undo == old(self).undo,
            final(self).redo == old(self).redo,
            final(self).dirty == old(self).dirty,
    {
        match e {
            Edit::Add { id, held } => match held {
                Some(o) => {
                    self.objects.push(o);
                    Edit::Add { id, held: None }
                },
                None => Edit::Add { id, held: None },
            },
            Edit::Remove { index, held } => {
                if index < self.objects.len() {
                    let o = self.objects.remove(index);
                    Edit::Remove { index, held: Some(o) }
                } else {
                    match self.objects.pop() {
                        Some(o) => Edit::Remove { index, held: Some(o) },
                        None => Edit::Remove { index, held },
                    }
                }
            },
            Edit::Insert { index, id, held } => match held {
                Some(o) => {
                    let n = self.objects.len();
                    let at = if index < n { index } else { n };
                    self.objects.insert(at, o);
                    Edit::Insert { index, id, held: None }
                },
                None => Edit::Insert { index, id, held: None },
            },
            Edit::Modify { index, id, other, coalesce } => {
                let mut other = other;
                if index < self.objects.len() {
                    std::mem::swap(&mut self.objects[index], &mut other);
                }
                Edit::Modify { index, id, other, coalesce }
            },
        }
    }

    fn apply_undo_edits(&mut self, edits: Vec<Edit<B>>) -> (r: Vec<Edit<B>>)
        ensures
            (final(self).objects@, r@) == undo_edits(old(self).objects@, edits@),
            final(self).next_id == old(self).next_id,
            final(self).undo == old(self).undo,
            final(self).redo == old(self).redo,
            final(self).dirty == old(self).dirty,
    {
        let ghost l0 = self.objects@;
        let ghost es0 = edits@;
        let mut rem = edits;
        let mut out: Vec<Edit<B>> = Vec::new();
        while rem.len() > 0
            invariant
                undo_edits(l0, es0) == (undo_edits(self.objects@, rem@).0, undo_edits(self.objects@, rem@).1 + out@),
                self.next_id == old(self).next_id,
                self.undo == old(self).undo,
                self.redo == old(self).redo,
                self.dirty == old(self).dirty,
            decreases rem@.len(),
        {
            let ghost cur = self.objects@;
            let ghost r0 = rem@;
            let e = rem.pop().unwrap();
            proof {
                assert(r0.drop_last() =~= rem@);
            }
            let e1 = self.apply_undo_edit(e);
            let ghost out0 = out@;
            out.insert(0, e1);
            proof {
                let rest = undo_edits(self.objects@, rem@).1;
                assert(rest.push(e1) + out0 =~= rest + out@);
            }
        }
        proof {
            assert(out@ =~= Seq::<Edit<B>>::empty() + out@);
        }
        out
    }

    fn apply_redo_edits(&mut self, edits: Vec<Edit<B>>) -> (r: Vec<Edit<B>>)
        ensures
            (final(self).objects@, r@) == redo_edits(old(self).objects@, edits@),
            final(self).next_id == old(self).next_id,
            final(self).undo == old(self).undo,
            final(self).redo == old(self).redo,
            final(self).dirty == old(self).dirty,
    {
        let ghost l0 = self.objects@;
        let ghost es0 = edits@;
        let mut rem = edits;
        let mut out: Vec<Edit<B>> = Vec::new();
        while rem.len() > 0
            invariant
                redo_edits(l0, es0) == (redo_edits(self.objects@, rem@).0, out@ + redo_edits(self.objects@, rem@).1),
                self.next_id == old(self).next_id,
                self.undo == old(self).undo,
                self.redo == old(self).redo,
                self.dirty == old(self).dirty,
            decreases rem@.len(),
        {
            let ghost r0 = rem@;
            let e = rem.remove(0);
            proof {
                assert(r0.drop_first() =~= rem@);
            }
            let e1 = self.apply_redo_edit(e);
            let ghost out0 = out@;
            out.push(e1);
            proof {
                let rest = redo_edits(self.objects@, rem@).1;
                assert(out0 + (seq![e1] + rest) =~= out@ + rest);
            }
        }
        proof {
            assert(out@ =~= out@ + Seq::<Edit<B>>::empty());
        }
        out
    }

    /// Permute the list into the given id order when `ids` names every
    /// object exactly once; otherwise leave it untouched.
    fn apply_order(&mut self, ids: &Vec<u64>) -> (ok: bool)
        ensures
            ok == is_permutation_of(old(self).objects@, ids@),
            final(self).objects@ == reordered(old(self).objects@, ids@),
            final(self).next_id == old(self).next_id,
            final(self).undo == old(self).undo,
            final(self).redo == old(self).redo,
            final(self).dirty == old(self).dirty,
    {
        let ghost l = self.objects@;
        let n = self.objects.len();
        if ids.len() != n {
            return false;
        }
        let mut idx: Vec<usize> = Vec::new();
        let mut k: usize = 0;
        while k < n
            invariant
                l == self.objects@,
                n == l.len(),
                ids@.len() == n,
                k <= n,
                idx@.len() == k,
                forall|j: int| 0 <= j < k ==> index_of(l, #[trigger] ids@[j]) == Some(idx@[j] as int),
                forall|j: int| 0 <= j < k ==> has_id(l, #[trigger] ids@[j]),
                forall|a: int, b: int| 0 <= a < b < k ==> #[trigger] ids@[a] != #[trigger] ids@[b],
            decreases n - k,
        {
            let id = ids[k];
            match self.find(id) {
                Some(i) => {
                    if vec_contains_usize(&idx, i) {
                        proof {
                            let j = choose|j: int| 0 <= j < idx@.len() && idx@[j] == i;
                            lemma_index_of(l, ids@[j]);
                            lemma_index_of(l, id);
                            assert(ids@[j] == id);
                            assert(!is_permutation_of(l, ids@)) by {
                                assert(ids@[j] == ids@[k as int]);
                            }
                        }
                        return false;
                    }
                    proof {
                        assert forall|a: int, b: int| 0 <= a < b < k + 1 implies #[trigger] ids@[a] != #[trigger] ids@[b] by {
                            if b == k && ids@[a] == ids@[b] {
                                assert(idx@[a] == i);
                            }
                        }
                    }
                    idx.push(i);
                },
                None => {
                    proof {
                        assert(!has_id(l, ids@[k as int]));
                    }
                    return false;
                },
            }
            k = k + 1;
        }
        proof {
            assert(is_permutation_of(l, ids@));
        }
        // Move every object into a slot (slot n-1-i holds object i), then
        // take them out in the new order.
        let mut old_list: Vec<SketchObject<B>> = Vec::new();
        std::mem::swap(&mut old_list, &mut self.objects);
        let mut slots: Vec<Option<SketchObject<B>>> = Vec::new();
        while old_list.len() > 0
            invariant
                old_list@.len() + slots@.len() == n,
                n == l.len(),
                old_list@ == l.subrange(0, old_list@.len() as int),
                forall|j: int| 0 <= j < slots@.len() ==> #[trigger] slots@[j] == Some(l[n - 1 - j]),
            decreases old_list@.len(),
        {
            let o = old_list.pop().unwrap();
            slots.push(Some(o));
        }
        let mut t: usize = 0;
        while t < n
            invariant
                n == l.len(),
                slots@.len() == n,
                idx@.len() == n,
                ids@.len() == n,
                t <= n,
                forall|j: int| 0 <= j < n ==> index_of(l, #[trigger] ids@[j]) == Some(idx@[j] as int),
                forall|j: int| 0 <= j < n ==> has_id(l, #[trigger] ids@[j]),
                forall|a: int, b: int| 0 <= a < b < n ==> #[trigger] ids@[a] != #[trigger] ids@[b],
                self.objects@ == Seq::new(t as nat, |k: int| l[index_of(l, ids@[k]).unwrap()]),
                forall|i: int| 0 <= i < n ==> #[trigger] slots@[n - 1 - i] == (if exists|j: int| 0 <= j < t && idx@[j] == i {
                    None
                } else {
                    Some(l[i])
                }),
                self.next_id == old(self).next_id,
                self.undo == old(self).undo,
                self.redo == old(self).redo,
                self.dirty == old(self).dirty,
            decreases n - t,
        {
            let i = idx[t];
            proof {
                lemma_index_of(l, ids@[t as int]);
                assert(!exists|j: int| 0 <= j < t && idx@[j] == i) by {
                    if exists|j: int| 0 <= j < t && idx@[j] == i {
                        let j = choose|j: int| 0 <= j < t && idx@[j] == i;
                        lemma_index_of(l, ids@[j]);
                        assert(ids@[j] == ids@[t as int]);
                    }
                }
                assert(slots@[n - 1 - i] == Some(l[i as int]));
            }
            let mut taken: Option<SketchObject<B>> = None;
            std::mem::swap(&mut slots[n - 1 - i], &mut taken);
            match taken {
                Some(o) => {
                    self.objects.push(o);
                },
                None => {},
            }
            proof {
                assert forall|ii: int| 0 <= ii < n implies #[trigger] slots@[n - 1 - ii] == (if exists|j: int| 0 <= j < t + 1 && idx@[j] == ii {
                    None
                } else {
                    Some(l[ii])
                }) by {
                    if ii == i {
                        assert(idx@[t as int] == ii);
                    } else {
                        if exists|j: int| 0 <= j < t + 1 && idx@[j] == ii {
                            let j = choose|j: int| 0 <= j < t + 1 && idx@[j] == ii;
                            assert(j < t);
                        }
                    }
                }
                assert(self.objects@ =~= Seq::new((t + 1) as nat, |k: int| l[index_of(l, ids@[k]).unwrap()]));
            }
            t = t + 1;
        }
        true
    }
}

impl<B> SketchModel<B> {
    fn apply_undo(&mut self, op: ModelOp<B>) -> (r: ModelOp<B>)
        ensures
            undo_step(old(self).objects@, op, final(self).objects@, r),
            final(self).next_id == old(self).next_id,
            final(self).undo == old(self).undo,
            final(self).redo == old(self).redo,
            final(self).dirty == old(self).dirty,
    {
        match op {
            ModelOp::Edit(e) => ModelOp::Edit(self.apply_undo_edit(e)),
            ModelOp::Replace(v) => {
                let mut v = v;
                std::mem::swap(&mut self.objects, &mut v);
                ModelOp::Replace(v)
            },
            ModelOp::Reorder(a, b) => {
                self.apply_order(&a);
                ModelOp::Reorder(a, b)
            },
            ModelOp::Group { edits, coalesce } => {
                let edits = self.apply_undo_edits(edits);
                ModelOp::Group { edits, coalesce }
            },
        }
    }

    fn apply_redo(&mut self, op: ModelOp<B>) -> (r: ModelOp<B>)
        ensures
            redo_step(old(self).objects@, op, final(self).objects@, r),
            final(self).next_id == old(self).next_id,
            final(self).undo == old(self).undo,
            final(self).redo == old(self).redo,
            final(self).dirty == old(self).dirty,
    {
        match op {
            ModelOp::Edit(e) => ModelOp::Edit(self.apply_redo_edit(e)),
            ModelOp::Replace(v) => {
                let mut v = v;
                std::mem::swap(&mut self.objects, &mut v);
                ModelOp::Replace(v)
            },
            ModelOp::Reorder(a, b) => {
                self.apply_order(&b);
                ModelOp::Reorder(a, b)
            },
            ModelOp::Group { edits, coalesce } => {
                let edits = self.apply_redo_edits(edits);
                ModelOp::Group { edits, coalesce }
            },
        }
    }

    /// Whether there is an operation to undo.
    pub fn can_undo(&self) -> (r: bool)
        ensures
            r == (self.undo_stack().len() > 0),
    {
        self.undo.len() > 0
    }

    /// Whether there is an operation to redo.
    pub fn can_redo(&self) -> (r: bool)
        ensures
            r == (self.redo_stack().len() > 0),
    {
        self.redo.len() > 0
    }

    /// Undo the newest entry, moving it to the redo stack. Undoing a
    /// whole-list swap marks everything for re-rasterization.
    pub fn undo(&mut self)
        ensures
            old(self).undo_stack().len() == 0 ==> final(self).objs() == old(self).objs()
                && final(self).undo_stack() == old(self).undo_stack() && final(self).redo_stack()
                == old(self).redo_stack(),
            old(self).undo_stack().len() > 0 ==> {
                &&& final(self).undo_stack() == old(self).undo_stack().drop_last()
                &&& final(self).redo_stack().len() == old(self).redo_stack().len() + 1
                &&& final(self).redo_stack().drop_last() == old(self).redo_stack()
                &&& undo_step(
                    old(self).objs(),
                    old(self).undo_stack().last(),
                    final(self).objs(),
                    final(self).redo_stack().last(),
                )
            },
            final(self).last_id() == old(self).last_id(),
            final(self).dirty_region() == if old(self).undo_stack().len() > 0 && old(self).undo_stack().last() is Replace {
                Some(everything())
            } else {
                old(self).dirty_region()
            },
    {
        if let Some(op) = self.undo.pop() {
            let whole = match &op {
                ModelOp::Replace(_) => true,
                _ => false,
            };
            let op2 = self.apply_undo(op);
            if whole {
                self.mark_all_dirty();
            }
            self.redo.push(op2);
            proof {
                assert(self.redo@.drop_last() =~= old(self).redo@);
            }
        }
    }

    /// Redo the newest undone entry, moving it back to the undo stack.
    /// Redoing a whole-list swap marks everything for re-rasterization.
    pub fn redo(&mut self)
        ensures
            old(self).redo_stack().len() == 0 ==> final(self).objs() == old(self).objs()
                && final(self).undo_stack() == old(self).undo_stack() && final(self).redo_stack()
                == old(self).redo_stack(),
            old(self).redo_stack().len() > 0 ==> {
                &&& final(self).redo_stack() == old(self).redo_stack().drop_last()
                &&& final(self).undo_stack().len() == old(self).undo_stack().len() + 1
                &&& final(self).undo_stack().drop_last() == old(self).undo_stack()
                &&& redo_step(
                    old(self).objs(),
                    old(self).redo_stack().last(),
                    final(self).objs(),
                    final(self).undo_stack().last(),
                )
            },
            final(self).last_id() == old(self).last_id(),
            final(self).dirty_region() == if old(self).redo_stack().len() > 0 && old(self).redo_stack().last() is Replace {
                Some(everything())
            } else {
                old(self).dirty_region()
            },
    {
        if let Some(op) = self.redo.pop() {
            let whole = match &op {
                ModelOp::Replace(_) => true,
                _ => false,
            };
            let op2 = self.apply_redo(op);
            if whole {
                self.mark_all_dirty();
            }
            self.undo.push(op2);
            proof {
                assert(self.undo@.drop_last() =~= old(self).undo@);
            }
        }
    }
}

/// The history entries an `add_many` of `os` records.
pub open spec fn add_edits<B>(os: Seq<SketchObject<B>>) -> Seq<Edit<B>> {
    Seq::new(os.len(), |k: int| Edit::Add { id: os[k].id, held: None })
}

/// Removing, in turn, the first object carrying each id (ids not
/// present are skipped): the list afterwards and the removals made.
pub open spec fn remove_each<B>(l: Seq<SketchObject<B>>, ids: Seq<u64>) -> (Seq<SketchObject<B>>, Seq<Edit<B>>)
    decreases ids.len(),
{
    if ids.len() == 0 {
        (l, Seq::empty())
    } else {
        let (l1, e1) = remove_each(l, ids.drop_last());
        match index_of(l1, ids.last()) {
            Some(i) => (l1.remove(i), e1.push(Edit::Remove { index: i as usize, held: Some(l1[i]) })),
            None => (l1, e1),
        }
    }
}

/// An edit left `o` as it was at gesture start (`before`): every field
/// matches, the body by the caller's comparison `body_same` (bodies are
/// floating point and opaque here).
pub open spec fn unchanged<B>(o: SketchObject<B>, before: SketchObject<B>, body_same: bool) -> bool {
    &&& body_same
    &&& o.id == before.id
    &&& o.parent == before.parent
    &&& o.locked == before.locked
    &&& o.hidden == before.hidden
    &&& o.is_group == before.is_group
}

/// The modification entries recorded for `(id, before, body_same)`
/// triples whose id is present in `l` and whose object changed.
pub open spec fn modify_edits<B>(l: Seq<SketchObject<B>>, pairs: Seq<(u64, SketchObject<B>, bool)>, coalesce: bool) -> Seq<Edit<B>>
    decreases pairs.len(),
{
    if pairs.len() == 0 {
        Seq::empty()
    } else {
        let r = modify_edits(l, pairs.drop_last(), coalesce);
        let p = pairs.last();
        match index_of(l, p.0) {
            Some(i) => if unchanged(l[i], p.1, p.2) {
                r
            } else {
                r.push(Edit::Modify { index: i as usize, id: p.0, other: p.1, coalesce })
            },
            None => r,
        }
    }
}

/// Whether `o` matches `before` in every field but the body.
fn same_but_body<B>(o: &SketchObject<B>, before: &SketchObject<B>) -> (r: bool)
    ensures
        r == unchanged(*o, *before, true),
{
    o.id == before.id && o.parent == before.parent && o.locked == before.locked && o.hidden == before.hidden
        && o.is_group == before.is_group
}

/// Ids of the coalescable modifications in a group, in order.
pub open spec fn coalesced_ids<B>(es: Seq<Edit<B>>) -> Seq<u64>
    decreases es.len(),
{
    if es.len() == 0 {
        Seq::empty()
    } else {
        let r = coalesced_ids(es.drop_last());
        match es.last() {
            Edit::Modify { id, coalesce, .. } => if coalesce { r.push(id) } else { r },
            _ => r,
        }
    }
}

/// The newest history entry records the addition of `id`.
pub open spec fn top_is_add<B>(undo: Seq<ModelOp<B>>, id: u64) -> bool {
    undo.len() > 0 && match undo.last() {
        ModelOp::Edit(Edit::Add { id: t, .. }) => t == id,
        _ => false,
    }
}

/// The newest history entry is a coalescable modification of object
/// `id` at slot `i`.
pub open spec fn top_merges_modify<B>(undo: Seq<ModelOp<B>>, i: int, id: u64) -> bool {
    undo.len() > 0 && match undo.last() {
        ModelOp::Edit(Edit::Modify { index: j, id: t, coalesce: c, .. }) => c && j == i && t == id,
        _ => false,
    }
}

/// The newest history entry is a coalescable group over the same ids as
/// the edits `es`.
pub open spec fn top_merges_group<B>(undo: Seq<ModelOp<B>>, es: Seq<Edit<B>>) -> bool {
    undo.len() > 0 && match undo.last() {
        ModelOp::Group { edits: top, coalesce: c } => c && coalesced_ids(top@) == coalesced_ids(es),
        _ => false,
    }
}

/// The largest id in the list (0 for none).
pub open spec fn max_id<B>(l: Seq<SketchObject<B>>) -> u64
    decreases l.len(),
{
    if l.len() == 0 {
        0
    } else {
        let m = max_id(l.drop_last());
        if l.last().id > m { l.last().id } else { m }
    }
}

impl<B> SketchModel<B> {
    /// Append an object at the top, undoably.
    pub fn add(&mut self, obj: SketchObject<B>)
        ensures
            final(self).objs() == old(self).objs().push(obj),
            final(self).undo_stack() == old(self).undo_stack().push(ModelOp::Edit(Edit::Add { id: obj.id, held: None })),
            final(self).redo_stack().len() == 0,
            final(self).last_id() == old(self).last_id(),
            final(self).dirty_region() == old(self).dirty_region(),
            !has_id(old(self).objs(), obj.id) ==> round_trips(
                old(self).objs(),
                final(self).objs(),
                final(self).undo_stack().last(),
            ),
            ids_at_most(old(self).objs(), old(self).last_id()) && obj.id <= old(self).last_id() ==> ids_at_most(
                final(self).objs(),
                final(self).last_id(),
            ),
    {
        self.undo.push(ModelOp::Edit(Edit::Add { id: obj.id, held: None }));
        self.redo.clear();
        proof {
            if !has_id(self.objects@, obj.id) {
                lemma_add_round_trip(self.objects@, obj);
                lemma_edit_round_trips(
                    self.objects@,
                    self.objects@.push(obj),
                    Edit::Add { id: obj.id, held: None },
                    Edit::Add { id: obj.id, held: Some(obj) },
                );
            }
        }
        self.objects.push(obj);
    }

    /// Append a whole set as ONE undo entry (paste, multi-duplicate).
    pub fn add_many(&mut self, objs: Vec<SketchObject<B>>)
        ensures
            objs@.len() == 0 ==> final(self).objs() == old(self).objs() && final(self).undo_stack()
                == old(self).undo_stack() && final(self).redo_stack() == old(self).redo_stack(),
            objs@.len() > 0 ==> {
                &&& final(self).objs() == old(self).objs() + objs@
                &&& final(self).undo_stack().drop_last() == old(self).undo_stack()
                &&& final(self).undo_stack().len() == old(self).undo_stack().len() + 1
                &&& final(self).undo_stack().last() matches ModelOp::Group { edits, coalesce }
                    && edits@ == add_edits(objs@) && !coalesce
                &&& final(self).redo_stack().len() == 0
            },
            final(self).last_id() == old(self).last_id(),
            final(self).dirty_region() == old(self).dirty_region(),
            (objs@.len() > 0 && (forall|k: int| 0 <= k < objs@.len() ==> !has_id(old(self).objs(), #[trigger] objs@[k].id))
                && (forall|a: int, b: int| 0 <= a < b < objs@.len() ==> #[trigger] objs@[a].id != #[trigger] objs@[b].id))
                ==> round_trips(old(self).objs(), final(self).objs(), final(self).undo_stack().last()),
            ids_at_most(old(self).objs(), old(self).last_id()) && ids_at_most(objs@, old(self).last_id()) ==> ids_at_most(
                final(self).objs(),
                final(self).last_id(),
            ),
    {
        if objs.len() == 0 {
            return;
        }
        let ghost all = objs@;
        let ghost l0 = self.objects@;
        let mut rest = objs;
        let mut edits: Vec<Edit<B>> = Vec::new();
        while rest.len() > 0
            invariant
                edits@.len() + rest@.len() == all.len(),
                rest@ == all.subrange(edits@.len() as int, all.len() as int),
                self.objects@ == l0 + all.subrange(0, edits@.len() as int),
                edits@ == add_edits(all.subrange(0, edits@.len() as int)),
                self.undo == old(self).undo,
                self.redo == old(self).redo,
                self.next_id == old(self).next_id,
                self.dirty == old(self).dirty,
            decreases rest@.len(),
        {
            let ghost k = edits@.len() as int;
            let o = rest.remove(0);
            edits.push(Edit::Add { id: o.id, held: None });
            self.objects.push(o);
            proof {
                assert(all.subrange(0, k + 1) =~= all.subrange(0, k).push(all[k]));
                assert(rest@ =~= all.subrange(k + 1, all.len() as int));
                assert(self.objects@ =~= l0 + all.subrange(0, k + 1));
                assert(edits@ =~= add_edits(all.subrange(0, k + 1)));
            }
        }
        proof {
            assert(all.subrange(0, all.len() as int) =~= all);
            if ids_at_most(l0, self.next_id) && ids_at_most(all, self.next_id) {
                assert forall|k: int| 0 <= k < self.objects@.len() implies (#[trigger] self.objects@[k]).id <= self.next_id by {
                    if k >= l0.len() {
                        assert(self.objects@[k] == all[k - l0.len()]);
                    } else {
                        assert(self.objects@[k] == l0[k]);
                    }
                }
            }
        }
        proof {
            if (forall|k: int| 0 <= k < all.len() ==> !has_id(l0, #[trigger] all[k].id))
                && (forall|a: int, b: int| 0 <= a < b < all.len() ==> #[trigger] all[a].id != #[trigger] all[b].id) {
                lemma_add_many_round_trip(l0, all);
                lemma_group_round_trips(
                    l0,
                    self.objects@,
                    edits,
                    false,
                    Seq::new(all.len(), |k: int| Edit::Add { id: all[k].id, held: Some(all[k]) }),
                );
            }
        }
        self.undo.push(ModelOp::Group { edits, coalesce: false });
        self.redo.clear();
        proof {
            assert(self.undo@.drop_last() =~= old(self).undo@);
        }
    }

    /// Remove the first object carrying each id, in turn, as ONE undo
    /// entry; ids not present are skipped, and removing nothing records
    /// nothing.
    pub fn remove_many(&mut self, ids: &[u64])
        ensures
            final(self).objs() == remove_each(old(self).objs(), ids@).0,
            ids_at_most(old(self).objs(), old(self).last_id()) ==> ids_at_most(final(self).objs(), final(self).last_id()),
            remove_each(old(self).objs(), ids@).1.len() == 0 ==> final(self).undo_stack()
                == old(self).undo_stack() && final(self).redo_stack() == old(self).redo_stack(),
            remove_each(old(self).objs(), ids@).1.len() > 0 ==> {
                &&& final(self).undo_stack().drop_last() == old(self).undo_stack()
                &&& final(self).undo_stack().len() == old(self).undo_stack().len() + 1
                &&& final(self).undo_stack().last() matches ModelOp::Group { edits, coalesce }
                    && edits@ == remove_each(old(self).objs(), ids@).1 && !coalesce
                &&& final(self).redo_stack().len() == 0
                &&& round_trips(old(self).objs(), final(self).objs(), final(self).undo_stack().last())
            },
            final(self).last_id() == old(self).last_id(),
            final(self).dirty_region() == old(self).dirty_region(),
    {
        let ghost l0 = self.objects@;
        let mut edits: Vec<Edit<B>> = Vec::new();
        let n = ids.len();
        let mut k: usize = 0;
        while k < n
            invariant
                n == ids@.len(),
                k <= n,
                (self.objects@, edits@) == remove_each(l0, ids@.subrange(0, k as int)),
                self.undo == old(self).undo,
                self.redo == old(self).redo,
                self.next_id == old(self).next_id,
                self.dirty == old(self).dirty,
            decreases n - k,
        {
            proof {
                let t = ids@.subrange(0, k as int + 1);
                assert(t.drop_last() =~= ids@.subrange(0, k as int));
                assert(t.last() == ids@[k as int]);
            }
            match self.find(ids[k]) {
                Some(i) => {
                    let o = self.objects.remove(i);
                    edits.push(Edit::Remove { index: i, held: Some(o) });
                },
                None => {},
            }
            k = k + 1;
        }
        proof {
            assert(ids@.subrange(0, n as int) =~= ids@);
            if ids_at_most(l0, self.next_id) {
                lemma_remove_each_at_most(l0, ids@, self.next_id);
            }
        }
        if edits.len() > 0 {
            proof {
                assert(l0.len() == old(self).objects.len());
                lemma_remove_many_round_trip(l0, ids@);
                let back = undo_edits(self.objects@, edits@).1;
                lemma_group_round_trips(l0, self.objects@, edits, false, back);
            }
            self.undo.push(ModelOp::Group { edits, coalesce: false });
            self.redo.clear();
            proof {
                assert(self.undo@.drop_last() =~= old(self).undo@);
            }
        }
    }

    /// Insert at a z-slot (clamped to the list), undoably.
    pub fn insert_at(&mut self, index: usize, obj: SketchObject<B>)
        ensures
            ({
                let i = clamp_index(index, old(self).objs().len() as int);
                &&& final(self).objs() == old(self).objs().insert(i, obj)
                &&& final(self).undo_stack() == old(self).undo_stack().push(
                    ModelOp::Edit(Edit::Insert { index: i as usize, id: obj.id, held: None }),
                )
            }),
            final(self).redo_stack().len() == 0,
            final(self).last_id() == old(self).last_id(),
            final(self).dirty_region() == old(self).dirty_region(),
            round_trips(old(self).objs(), final(self).objs(), final(self).undo_stack().last()),
            ids_at_most(old(self).objs(), old(self).last_id()) && obj.id <= old(self).last_id() ==> ids_at_most(
                final(self).objs(),
                final(self).last_id(),
            ),
    {
        let n = self.objects.len();
        let i = if index < n { index } else { n };
        proof {
            let l0 = self.objects@;
            let l1 = l0.insert(i as int, obj);
            if ids_at_most(l0, self.next_id) && obj.id <= self.next_id {
                assert forall|k: int| 0 <= k < l1.len() implies (#[trigger] l1[k]).id <= self.next_id by {
                    if k < i {
                        assert(l1[k] == l0[k]);
                    } else if k > i {
                        assert(l1[k] == l0[k - 1]);
                    }
                }
            }
        }
        proof {
            lemma_insert_round_trip(self.objects@, index, obj);
            lemma_edit_round_trips(
                self.objects@,
                self.objects@.insert(i as int, obj),
                Edit::Insert { index: i, id: obj.id, held: None },
                Edit::Insert { index: i, id: obj.id, held: Some(obj) },
            );
        }
        self.undo.push(ModelOp::Edit(Edit::Insert { index: i, id: obj.id, held: None }));
        self.redo.clear();
        self.objects.insert(i, obj);
    }

    /// Drop an object added by the in-flight gesture together with its
    /// undo record, as if it was never drawn.
    pub fn cancel_last_add(&mut self, id: u64)
        ensures
            final(self).objs() == match index_of(old(self).objs(), id) {
                Some(i) => old(self).objs().remove(i),
                None => old(self).objs(),
            },
            final(self).undo_stack() == if top_is_add(old(self).undo_stack(), id) {
                old(self).undo_stack().drop_last()
            } else {
                old(self).undo_stack()
            },
            final(self).redo_stack() == old(self).redo_stack(),
            final(self).last_id() == old(self).last_id(),
            final(self).dirty_region() == old(self).dirty_region(),
            ids_at_most(old(self).objs(), old(self).last_id()) ==> ids_at_most(final(self).objs(), final(self).last_id()),
    {
        if let Some(i) = self.find(id) {
            proof {
                let l0 = self.objects@;
                let l1 = l0.remove(i as int);
                if ids_at_most(l0, self.next_id) {
                    assert forall|k: int| 0 <= k < l1.len() implies (#[trigger] l1[k]).id <= self.next_id by {
                        if k < i {
                            assert(l1[k] == l0[k]);
                        } else {
                            assert(l1[k] == l0[k + 1]);
                        }
                    }
                }
            }
            self.objects.remove(i);
        }
        let n = self.undo.len();
        if n > 0 {
            let top_is_add = match &self.undo[n - 1] {
                ModelOp::Edit(Edit::Add { id: t, .. }) => *t == id,
                _ => false,
            };
            if top_is_add {
                self.undo.pop();
            }
        }
    }

    /// Replace the whole list (clear, presets, scene loads), undoably.
    /// The id counter moves past every loaded id, so fresh ids never
    /// collide with them.
    pub fn replace_all(&mut self, new: Vec<SketchObject<B>>)
        ensures
            final(self).objs() == new@,
            final(self).last_id() == (if max_id(new@) > old(self).last_id() {
                max_id(new@)
            } else {
                old(self).last_id()
            }),
            final(self).undo_stack().drop_last() == old(self).undo_stack(),
            final(self).undo_stack().len() == old(self).undo_stack().len() + 1,
            final(self).undo_stack().last() matches ModelOp::Replace(v) && v@ == old(self).objs(),
            final(self).redo_stack().len() == 0,
            final(self).dirty_region() == Some(everything()),
            round_trips(old(self).objs(), final(self).objs(), final(self).undo_stack().last()),
            ids_at_most(final(self).objs(), final(self).last_id()),
    {
        proof {
            lemma_loaded_ids_below_counter(new@, self.next_id);
        }
        let mut m: u64 = 0;
        let mut k: usize = 0;
        let n = new.len();
        while k < n
            invariant
                n == new@.len(),
                k <= n,
                m == max_id(new@.subrange(0, k as int)),
            decreases n - k,
        {
            proof {
                assert(new@.subrange(0, k as int + 1).drop_last() =~= new@.subrange(0, k as int));
            }
            if new[k].id > m {
                m = new[k].id;
            }
            k = k + 1;
        }
        proof {
            assert(new@.subrange(0, n as int) =~= new@);
        }
        if m > self.next_id {
            self.next_id = m;
        }
        let mut old_list = new;
        std::mem::swap(&mut self.objects, &mut old_list);
        proof {
            lemma_replace_round_trips(old(self).objects@, self.objects@, old_list);
        }
        self.undo.push(ModelOp::Replace(old_list));
        self.redo.clear();
        self.mark_all_dirty();
        proof {
            assert(self.undo@.drop_last() =~= old(self).undo@);
        }
    }

    /// Forget the whole history (after every body was rescaled for a
    /// resolution switch) and mark everything for re-rasterization.
    pub fn clear_history(&mut self)
        ensures
            final(self).objs() == old(self).objs(),
            final(self).undo_stack().len() == 0,
            final(self).redo_stack().len() == 0,
            final(self).last_id() == old(self).last_id(),
            final(self).dirty_region() == Some(everything()),
    {
        self.undo.clear();
        self.redo.clear();
        self.mark_all_dirty();
    }

    /// Record a finished modification of object `id`, whose state at
    /// gesture start was `before`; `body_same` is the caller's comparison
    /// of its body now with `before`'s. An edit that changed nothing (a
    /// click without a drag) records nothing and keeps the redo stack.
    pub fn record_modify(&mut self, id: u64, before: SketchObject<B>, body_same: bool)
        ensures
            final(self).objs() == old(self).objs(),
            match index_of(old(self).objs(), id) {
                Some(i) => if unchanged(old(self).objs()[i], before, body_same) {
                    final(self).undo_stack() == old(self).undo_stack() && final(self).redo_stack()
                        == old(self).redo_stack()
                } else {
                    final(self).undo_stack() == old(self).undo_stack().push(
                        ModelOp::Edit(Edit::Modify { index: i as usize, id, other: before, coalesce: false }),
                    ) && final(self).redo_stack().len() == 0
                },
                None => final(self).undo_stack() == old(self).undo_stack() && final(self).redo_stack()
                    == old(self).redo_stack(),
            },
            final(self).last_id() == old(self).last_id(),
            final(self).dirty_region() == old(self).dirty_region(),
    {
        if let Some(i) = self.find(id) {
            if body_same && same_but_body(&self.objects[i], &before) {
                return;
            }
            self.undo.push(ModelOp::Edit(Edit::Modify { index: i, id, other: before, coalesce: false }));
            self.redo.clear();
        }
    }

    /// Like `record_modify`, but consecutive panel edits to the same
    /// object merge into one undo step: when the newest entry is already
    /// a coalescable modification of this object at this slot, it keeps
    /// its original `before` and nothing new is pushed. An edit that
    /// changed nothing records nothing and keeps the redo stack.
    pub fn record_modify_coalesced(&mut self, id: u64, before: SketchObject<B>, body_same: bool)
        ensures
            final(self).objs() == old(self).objs(),
            match index_of(old(self).objs(), id) {
                Some(i) => if unchanged(old(self).objs()[i], before, body_same) {
                    final(self).undo_stack() == old(self).undo_stack() && final(self).redo_stack()
                        == old(self).redo_stack()
                } else {
                    final(self).redo_stack().len() == 0 && final(self).undo_stack() == if top_merges_modify(
                        old(self).undo_stack(),
                        i,
                        id,
                    ) {
                        old(self).undo_stack()
                    } else {
                        old(self).undo_stack().push(
                            ModelOp::Edit(Edit::Modify { index: i as usize, id, other: before, coalesce: true }),
                        )
                    }
                },
                None => final(self).undo_stack() == old(self).undo_stack() && final(self).redo_stack()
                    == old(self).redo_stack(),
            },
            final(self).last_id() == old(self).last_id(),
            final(self).dirty_region() == old(self).dirty_region(),
    {
        let Some(i) = self.find(id) else { return };
        if body_same && same_but_body(&self.objects[i], &before) {
            return;
        }
        self.redo.clear();
        let n = self.undo.len();
        if n > 0 {
            let merge = match &self.undo[n - 1] {
                ModelOp::Edit(Edit::Modify { index: j, id: t, coalesce: c, .. }) => *c && *j == i && *t == id,
                _ => false,
            };
            if merge {
                return;
            }
        }
        self.undo.push(ModelOp::Edit(Edit::Modify { index: i, id, other: before, coalesce: true }));
    }

    fn build_modify_edits(&self, pairs: Vec<(u64, SketchObject<B>, bool)>, coalesce: bool) -> (r: Vec<Edit<B>>)
        ensures
            r@ == modify_edits(self.objects@, pairs@, coalesce),
    {
        let ghost all = pairs@;
        let mut rest = pairs;
        let mut r: Vec<Edit<B>> = Vec::new();
        while rest.len() > 0
            invariant
                rest@ == all.subrange(all.len() - rest@.len(), all.len() as int),
                rest@.len() <= all.len(),
                r@ == modify_edits(self.objects@, all.subrange(0, all.len() - rest@.len()), coalesce),
            decreases rest@.len(),
        {
            let ghost k = all.len() - rest@.len();
            let (id, before, body_same) = rest.remove(0);
            proof {
                assert(all.subrange(0, k + 1).drop_last() =~= all.subrange(0, k));
                assert(all.subrange(0, k + 1).last() == all[k]);
                assert(rest@ =~= all.subrange(k + 1, all.len() as int));
            }
            if let Some(i) = self.find(id) {
                if !(body_same && same_but_body(&self.objects[i], &before)) {
                    r.push(Edit::Modify { index: i, id, other: before, coalesce });
                }
            }
        }
        proof {
            assert(all.subrange(0, all.len() as int) =~= all);
        }
        r
    }

    /// Record one finished edit across a set as ONE undo entry; `pairs`
    /// hold (id, state at gesture start, whether its body is unchanged)
    /// per member. Unchanged members are dropped, and an edit that
    /// changed nothing records nothing and keeps the redo stack.
    pub fn record_modify_many(&mut self, pairs: Vec<(u64, SketchObject<B>, bool)>)
        ensures
            final(self).objs() == old(self).objs(),
            modify_edits(old(self).objs(), pairs@, false).len() == 0 ==> final(self).undo_stack()
                == old(self).undo_stack() && final(self).redo_stack() == old(self).redo_stack(),
            modify_edits(old(self).objs(), pairs@, false).len() > 0 ==> {
                &&& final(self).undo_stack().drop_last() == old(self).undo_stack()
                &&& final(self).undo_stack().len() == old(self).undo_stack().len() + 1
                &&& final(self).undo_stack().last() matches ModelOp::Group { edits, coalesce }
                    && edits@ == modify_edits(old(self).objs(), pairs@, false) && !coalesce
                &&& final(self).redo_stack().len() == 0
            },
            final(self).last_id() == old(self).last_id(),
            final(self).dirty_region() == old(self).dirty_region(),
    {
        let edits = self.build_modify_edits(pairs, false);
        if edits.len() > 0 {
            self.undo.push(ModelOp::Group { edits, coalesce: false });
            self.redo.clear();
            proof {
                assert(self.undo@.drop_last() =~= old(self).undo@);
            }
        }
    }

    /// Like `record_modify_many`, but consecutive panel edits to the same
    /// id set merge: when the newest entry is a coalescable group over
    /// the same ids, it keeps its original states and nothing is pushed.
    pub fn record_modify_many_coalesced(&mut self, pairs: Vec<(u64, SketchObject<B>, bool)>)
        ensures
            final(self).objs() == old(self).objs(),
            ({
                let es = modify_edits(old(self).objs(), pairs@, true);
                let merge = top_merges_group(old(self).undo_stack(), es);
                &&& es.len() == 0 ==> final(self).undo_stack() == old(self).undo_stack()
                    && final(self).redo_stack() == old(self).redo_stack()
                &&& es.len() > 0 ==> final(self).redo_stack().len() == 0
                &&& es.len() > 0 && merge ==> final(self).undo_stack() == old(self).undo_stack()
                &&& es.len() > 0 && !merge ==> {
                    &&& final(self).undo_stack().drop_last() == old(self).undo_stack()
                    &&& final(self).undo_stack().len() == old(self).undo_stack().len() + 1
                    &&& final(self).undo_stack().last() matches ModelOp::Group { edits, coalesce }
                        && edits@ == es && coalesce
                }
            }),
            final(self).last_id() == old(self).last_id(),
            final(self).dirty_region() == old(self).dirty_region(),
    {
        let edits = self.build_modify_edits(pairs, true);
        if edits.len() == 0 {
            return;
        }
        self.redo.clear();
        let ids = coalesced_ids_of(&edits);
        let n = self.undo.len();
        if n > 0 {
            let merge = match &self.undo[n - 1] {
                ModelOp::Group { edits: top, coalesce: c } => {
                    if *c {
                        let top_ids = coalesced_ids_of(top);
                        same_ids(&top_ids, &ids)
                    } else {
                        false
                    }
                },
                _ => false,
            };
            if merge {
                return;
            }
        }
        self.undo.push(ModelOp::Group { edits, coalesce: true });
        proof {
            assert(self.undo@.drop_last() =~= old(self).undo@);
        }
    }
}

/// Erasing one object: none of `repl` = removed; otherwise the first
/// fragment takes the object's slot (recorded as a modification) and
/// the rest are inserted just above it, in order.
pub open spec fn erase_one<B>(l: Seq<SketchObject<B>>, id: u64, repl: Seq<SketchObject<B>>) -> (Seq<SketchObject<B>>, Seq<Edit<B>>) {
    match index_of(l, id) {
        None => (l, Seq::empty()),
        Some(i) => if repl.len() == 0 {
            (l.remove(i), seq![Edit::Remove { index: i as usize, held: Some(l[i]) }])
        } else {
            let l1 = l.update(i, repl[0]);
            let rest = repl.drop_first();
            (
                l1.subrange(0, i + 1) + rest + l1.subrange(i + 1, l1.len() as int),
                seq![Edit::Modify { index: i as usize, id: repl[0].id, other: l[i], coalesce: false }]
                    + Seq::new(rest.len(), |k: int| Edit::Insert { index: (i + 1 + k) as usize, id: rest[k].id, held: None }),
            )
        },
    }
}

/// Applying eraser outcomes in turn.
pub open spec fn erase_each<B>(l: Seq<SketchObject<B>>, cs: Seq<(u64, Seq<SketchObject<B>>)>) -> (Seq<SketchObject<B>>, Seq<Edit<B>>)
    decreases cs.len(),
{
    if cs.len() == 0 {
        (l, Seq::empty())
    } else {
        let (l1, e1) = erase_each(l, cs.drop_last());
        let (l2, e2) = erase_one(l1, cs.last().0, cs.last().1);
        (l2, e1 + e2)
    }
}

/// The eraser outcomes as sequences.
pub open spec fn changes_view<B>(cs: Seq<(u64, Vec<SketchObject<B>>)>) -> Seq<(u64, Seq<SketchObject<B>>)> {
    cs.map_values(|c: (u64, Vec<SketchObject<B>>)| (c.0, c.1@))
}

/// Giving each listed object, in turn, a new parent and body (the first
/// object carrying each id; absent ids are skipped): the list afterwards
/// and the modifications recorded.
pub open spec fn move_each<B>(l: Seq<SketchObject<B>>, ms: Seq<u64>, parent: Option<u64>, bodies: Seq<B>) -> (Seq<SketchObject<B>>, Seq<Edit<B>>)
    decreases ms.len(),
{
    if ms.len() == 0 {
        (l, Seq::empty())
    } else {
        let (l1, e1) = move_each(l, ms.drop_last(), parent, bodies.drop_last());
        match index_of(l1, ms.last()) {
            Some(i) => (
                l1.update(i, l1[i].moved(parent, bodies.last())),
                e1.push(Edit::Modify { index: i as usize, id: ms.last(), other: l1[i], coalesce: false }),
            ),
            None => (l1, e1),
        }
    }
}

/// The ids among `ids` that name an object of `l`, in order.
pub open spec fn members_of<B>(l: Seq<SketchObject<B>>, ids: Seq<u64>) -> Seq<u64>
    decreases ids.len(),
{
    if ids.len() == 0 {
        Seq::empty()
    } else {
        let r = members_of(l, ids.drop_last());
        if has_id(l, ids.last()) { r.push(ids.last()) } else { r }
    }
}

/// The parent all members share, else None (the root).
pub open spec fn common_parent<B>(l: Seq<SketchObject<B>>, ms: Seq<u64>) -> Option<u64> {
    if ms.len() == 0 {
        None
    } else {
        let p = l[index_of(l, ms[0]).unwrap()].parent;
        if forall|k: int| 0 <= k < ms.len() ==> l[index_of(l, #[trigger] ms[k]).unwrap()].parent == p {
            p
        } else {
            None
        }
    }
}

/// The parent of the object a lookup by `id` lands on (None when no
/// object carries the id).
pub open spec fn parent_of_id<B>(l: Seq<SketchObject<B>>, id: u64) -> Option<u64> {
    match index_of(l, id) {
        Some(i) => l[i].parent,
        None => None,
    }
}

/// Where a new group goes: when every member has the same parent, the
/// group takes that parent; when any two members' parents differ, the
/// group goes to the root. (Grouping never moves a member into another
/// member's subtree.)
pub proof fn lemma_common_parent_law<B>(l: Seq<SketchObject<B>>, ms: Seq<u64>)
    requires
        forall|k: int| 0 <= k < ms.len() ==> has_id(l, #[trigger] ms[k]),
    ensures
        ms.len() > 0 && (forall|i: int| 0 <= i < ms.len() ==> parent_of_id(l, #[trigger] ms[i]) == parent_of_id(l, ms[0]))
            ==> common_parent(l, ms) == parent_of_id(l, ms[0]),
        (exists|i: int, j: int|
            0 <= i < ms.len() && 0 <= j < ms.len() && #[trigger] parent_of_id(l, ms[i]) != #[trigger] parent_of_id(l, ms[j]))
            ==> (common_parent(l, ms) is None),
{
    assert forall|k: int| 0 <= k < ms.len() implies parent_of_id(l, #[trigger] ms[k]) == l[index_of(l, ms[k]).unwrap()].parent by {
        lemma_index_of(l, ms[k]);
    }
}

/// When an edit counts as no change: exactly when the caller found the
/// bodies equal and the object, with `before`'s body put back, is
/// `before` itself; any other field that differs (a parent, a lock or
/// hide flag, the group flag, the id) is a change to record.
pub proof fn lemma_unchanged_law<B>(o: SketchObject<B>, before: SketchObject<B>, body_same: bool)
    ensures
        unchanged(o, before, body_same) <==> (body_same && (SketchObject { body: before.body, ..o }) == before),
{
}

/// Object `id` resolves to a group node.
pub open spec fn is_group_id<B>(l: Seq<SketchObject<B>>, id: u64) -> bool {
    match index_of(l, id) {
        Some(i) => l[i].is_group,
        None => false,
    }
}

/// Direct children of `id`, in list order.
pub open spec fn child_ids<B>(l: Seq<SketchObject<B>>, id: u64) -> Seq<u64> {
    ids_upto(l, l.len() as int, |k: int| l[k].parent == Some(id))
}

/// Why `reparent` refuses to move `id` under `new_parent`, if it does.
pub open spec fn reparent_refusal<B>(l: Seq<SketchObject<B>>, id: u64, new_parent: Option<u64>) -> Option<Seq<char>> {
    if !has_id(l, id) {
        Some("no such object"@)
    } else {
        match new_parent {
            None => None,
            Some(np) => if np == id {
                Some("a group can't be moved into itself"@)
            } else if !has_id(l, np) {
                Some("no such group"@)
            } else if !is_group_id(l, np) {
                Some("target is not a group"@)
            } else if descends(l, np, id) {
                Some("a group can't be moved into its own subtree"@)
            } else {
                None
            },
        }
    }
}

/// Moves keep every object's id and the list's length.
proof fn lemma_move_each_ids<B>(l: Seq<SketchObject<B>>, ms: Seq<u64>, parent: Option<u64>, bodies: Seq<B>)
    ensures
        move_each(l, ms, parent, bodies).0.len() == l.len(),
        forall|k: int| 0 <= k < l.len() ==> #[trigger] move_each(l, ms, parent, bodies).0[k].id == l[k].id,
    decreases ms.len(),
{
    if ms.len() > 0 {
        lemma_move_each_ids(l, ms.drop_last(), parent, bodies.drop_last());
        let l1 = move_each(l, ms.drop_last(), parent, bodies.drop_last()).0;
        lemma_index_of(l1, ms.last());
    }
}

/// Lists with the same ids position by position resolve ids alike.
proof fn lemma_same_ids_index<B>(a: Seq<SketchObject<B>>, b: Seq<SketchObject<B>>, id: u64)
    requires
        a.len() == b.len(),
        forall|k: int| 0 <= k < a.len() ==> a[k].id == b[k].id,
    ensures
        index_of(a, id) == index_of(b, id),
        has_id(a, id) == has_id(b, id),
{
    lemma_index_of(a, id);
    lemma_index_of(b, id);
    if has_id(a, id) {
        let i = index_of(a, id).unwrap();
        assert(has_id(b, id));
        let j = index_of(b, id).unwrap();
        assert(is_first(b, id, i));
        lemma_first_unique(b, id, i, j);
    } else if has_id(b, id) {
        let j = choose|j: int| 0 <= j < b.len() && b[j].id == id;
        assert(a[j].id == id);
    }
}

impl<B> SketchModel<B> {
    /// Reorder the list into the given id order (later = painted later
    /// = wins overlaps), undoably. Anything but a permutation of the
    /// current ids, and the current order itself, is a no-op.
    pub fn reorder(&mut self, new_ids: Vec<u64>)
        ensures
            ({
                let l = old(self).objs();
                let changes = new_ids@ != ids_of(l) && is_permutation_of(l, new_ids@);
                &&& !changes ==> final(self).objs() == l && final(self).undo_stack() == old(self).undo_stack()
                    && final(self).redo_stack() == old(self).redo_stack()
                &&& changes ==> {
                    &&& final(self).objs() == reordered(l, new_ids@)
                    &&& final(self).undo_stack().drop_last() == old(self).undo_stack()
                    &&& final(self).undo_stack().len() == old(self).undo_stack().len() + 1
                    &&& final(self).undo_stack().last() matches ModelOp::Reorder(a, b) && a@ == ids_of(l) && b@ == new_ids@
                    &&& final(self).redo_stack().len() == 0
                    &&& round_trips(l, final(self).objs(), final(self).undo_stack().last())
                }
            }),
            final(self).last_id() == old(self).last_id(),
            final(self).dirty_region() == old(self).dirty_region(),
            ids_at_most(old(self).objs(), old(self).last_id()) ==> ids_at_most(final(self).objs(), final(self).last_id()),
    {
        proof {
            if ids_at_most(self.objects@, self.next_id) {
                lemma_reordered_at_most(self.objects@, new_ids@, self.next_id);
            }
        }
        let n = self.objects.len();
        let mut old_ids: Vec<u64> = Vec::new();
        let mut k: usize = 0;
        while k < n
            invariant
                n == self.objects@.len(),
                k <= n,
                old_ids@ == ids_of(self.objects@).subrange(0, k as int),
            decreases n - k,
        {
            old_ids.push(self.objects[k].id);
            k = k + 1;
            proof {
                assert(old_ids@ =~= ids_of(self.objects@).subrange(0, k as int));
            }
        }
        proof {
            assert(old_ids@ =~= ids_of(self.objects@));
        }
        if same_ids(&new_ids, &old_ids) || new_ids.len() != old_ids.len() {
            return;
        }
        if !self.apply_order(&new_ids) {
            return;
        }
        proof {
            lemma_reorder_round_trips(old(self).objects@, old_ids, new_ids);
        }
        self.undo.push(ModelOp::Reorder(old_ids, new_ids));
        self.redo.clear();
        proof {
            assert(self.undo@.drop_last() =~= old(self).undo@);
        }
    }

    fn erase_one_exec(&mut self, id: u64, repl: Vec<SketchObject<B>>) -> (r: Vec<Edit<B>>)
        ensures
            (final(self).objects@, r@) == erase_one(old(self).objects@, id, repl@),
            final(self).next_id == old(self).next_id,
            final(self).undo == old(self).undo,
            final(self).redo == old(self).redo,
            final(self).dirty == old(self).dirty,
    {
        let mut edits: Vec<Edit<B>> = Vec::new();
        let Some(i) = self.find(id) else { return edits };
        let ghost l = self.objects@;
        let ghost rp = repl@;
        let mut repl = repl;
        if repl.len() == 0 {
            let o = self.objects.remove(i);
            edits.push(Edit::Remove { index: i, held: Some(o) });
            proof {
                assert(edits@ =~= seq![Edit::Remove { index: i, held: Some(l[i as int]) }]);
            }
            return edits;
        }
        let first = repl.remove(0);
        let new_id = first.id;
        let mut other = first;
        std::mem::swap(&mut self.objects[i], &mut other);
        edits.push(Edit::Modify { index: i, id: new_id, other, coalesce: false });
        let ghost l1 = self.objects@;
        let ghost rest = rp.drop_first();
        proof {
            assert(repl@ =~= rest);
            assert(l1 =~= l1.subrange(0, i + 1) + rest.subrange(0, 0) + l1.subrange(i + 1, l1.len() as int));
        }
        let mut k: usize = 0;
        while repl.len() > 0
            invariant
                i < l1.len(),
                k + repl@.len() == rest.len(),
                repl@ == rest.subrange(k as int, rest.len() as int),
                self.objects@ == l1.subrange(0, i + 1) + rest.subrange(0, k as int) + l1.subrange(i + 1, l1.len() as int),
                edits@ == seq![Edit::Modify { index: i, id: rp[0].id, other: l[i as int], coalesce: false }]
                    + Seq::new(k as nat, |j: int| Edit::Insert { index: (i + 1 + j) as usize, id: rest[j].id, held: None }),
                self.next_id == old(self).next_id,
                self.undo == old(self).undo,
                self.redo == old(self).redo,
                self.dirty == old(self).dirty,
            decreases repl@.len(),
        {
            let frag = repl.remove(0);
            let fid = frag.id;
            let cur_len = self.objects.len();
            proof {
                assert(self.objects@.len() == l1.len() + k);
            }
            let at = i + 1 + k;
            self.objects.insert(at, frag);
            edits.push(Edit::Insert { index: at, id: fid, held: None });
            proof {
                assert(self.objects@ =~= l1.subrange(0, i + 1) + rest.subrange(0, k as int + 1) + l1.subrange(i + 1, l1.len() as int));
                assert(edits@ =~= seq![Edit::Modify { index: i, id: rp[0].id, other: l[i as int], coalesce: false }]
                    + Seq::new((k + 1) as nat, |j: int| Edit::Insert { index: (i + 1 + j) as usize, id: rest[j].id, held: None }));
                assert(repl@ =~= rest.subrange(k as int + 1, rest.len() as int));
            }
            k = k + 1;
        }
        proof {
            assert(rest.subrange(0, k as int) =~= rest);
        }
        edits
    }

    /// Apply one eraser stroke's outcome as ONE undo entry. Each change
    /// replaces an object (the first with its id) by 0..n fragments:
    /// none = erased, one = trimmed in place, several = a split whose
    /// first fragment keeps the slot while the rest stack just above it.
    pub fn apply_erase(&mut self, changes: Vec<(u64, Vec<SketchObject<B>>)>)
        ensures
            ({
                let (l2, es) = erase_each(old(self).objs(), changes_view(changes@));
                &&& final(self).objs() == l2
                &&& es.len() == 0 ==> final(self).undo_stack() == old(self).undo_stack()
                    && final(self).redo_stack() == old(self).redo_stack()
                &&& es.len() > 0 ==> {
                    &&& final(self).undo_stack().drop_last() == old(self).undo_stack()
                    &&& final(self).undo_stack().len() == old(self).undo_stack().len() + 1
                    &&& final(self).undo_stack().last() matches ModelOp::Group { edits, coalesce }
                        && edits@ == es && !coalesce
                    &&& final(self).redo_stack().len() == 0
                    &&& old(self).objs().len() + changes_len(changes_view(changes@)) <= usize::MAX ==> round_trips(
                        old(self).objs(),
                        l2,
                        final(self).undo_stack().last(),
                    )
                }
            }),
            final(self).last_id() == old(self).last_id(),
            final(self).dirty_region() == old(self).dirty_region(),
            ids_at_most(old(self).objs(), old(self).last_id()) && fragments_at_most(changes_view(changes@), old(self).last_id())
                ==> ids_at_most(final(self).objs(), final(self).last_id()),
    {
        proof {
            if ids_at_most(self.objects@, self.next_id) && fragments_at_most(changes_view(changes@), self.next_id) {
                lemma_erase_each_at_most(self.objects@, changes_view(changes@), self.next_id);
            }
        }
        let ghost l0 = self.objects@;
        let ghost all = changes_view(changes@);
        let mut rest = changes;
        let mut edits: Vec<Edit<B>> = Vec::new();
        let ghost n = all.len();
        while rest.len() > 0
            invariant
                n == all.len(),
                rest@.len() <= n,
                changes_view(rest@) == all.subrange(n - rest@.len(), n as int),
                (self.objects@, edits@) == erase_each(l0, all.subrange(0, n - rest@.len())),
                self.undo == old(self).undo,
                self.redo == old(self).redo,
                self.next_id == old(self).next_id,
                self.dirty == old(self).dirty,
            decreases rest@.len(),
        {
            let ghost k = n - rest@.len();
            let ghost r0 = rest@;
            let (id, repl) = rest.remove(0);
            proof {
                assert(changes_view(r0)[0] == all[k]);
                assert(all.subrange(0, k + 1).drop_last() =~= all.subrange(0, k));
                assert(all.subrange(0, k + 1).last() == all[k]);
                assert(rest@ =~= r0.subrange(1, r0.len() as int));
                assert forall|j: int| 0 <= j < rest@.len() implies changes_view(rest@)[j] == all[k + 1 + j] by {
                    assert(changes_view(r0)[j + 1] == all[k + 1 + j]);
                }
                assert(changes_view(rest@) =~= all.subrange(k + 1, n as int));
            }
            let e = self.erase_one_exec(id, repl);
            let mut e = e;
            edits.append(&mut e);
        }
        proof {
            assert(all.subrange(0, n as int) =~= all);
        }
        if edits.len() > 0 {
            proof {
                if l0.len() + changes_len(all) <= usize::MAX {
                    lemma_erase_round_trip(l0, all);
                    let back = undo_edits(self.objects@, edits@).1;
                    lemma_group_round_trips(l0, self.objects@, edits, false, back);
                }
            }
            self.undo.push(ModelOp::Group { edits, coalesce: false });
            self.redo.clear();
            proof {
                assert(self.undo@.drop_last() =~= old(self).undo@);
            }
        }
    }
}

impl<B> SketchModel<B> {
    fn move_each_exec(&mut self, ms: &Vec<u64>, parent: Option<u64>, bodies: Vec<B>) -> (r: Vec<Edit<B>>)
        requires
            bodies@.len() == ms@.len(),
        ensures
            (final(self).objects@, r@) == move_each(old(self).objects@, ms@, parent, bodies@),
            final(self).next_id == old(self).next_id,
            final(self).undo == old(self).undo,
            final(self).redo == old(self).redo,
            final(self).dirty == old(self).dirty,
    {
        let ghost l0 = self.objects@;
        let ghost b0 = bodies@;
        let mut bodies = bodies;
        let mut edits: Vec<Edit<B>> = Vec::new();
        let n = ms.len();
        let mut k: usize = 0;
        while k < n
            invariant
                n == ms@.len(),
                b0.len() == n,
                k <= n,
                bodies@ == b0.subrange(k as int, n as int),
                (self.objects@, edits@) == move_each(l0, ms@.subrange(0, k as int), parent, b0.subrange(0, k as int)),
                self.next_id == old(self).next_id,
                self.undo == old(self).undo,
                self.redo == old(self).redo,
                self.dirty == old(self).dirty,
            decreases n - k,
        {
            let body = bodies.remove(0);
            proof {
                assert(ms@.subrange(0, k as int + 1).drop_last() =~= ms@.subrange(0, k as int));
                assert(b0.subrange(0, k as int + 1).drop_last() =~= b0.subrange(0, k as int));
                assert(ms@.subrange(0, k as int + 1).last() == ms@[k as int]);
                assert(b0.subrange(0, k as int + 1).last() == b0[k as int]);
                assert(bodies@ =~= b0.subrange(k as int + 1, n as int));
            }
            let id = ms[k];
            match self.find(id) {
                Some(i) => {
                    let o = &self.objects[i];
                    let mut moved = SketchObject {
                        id: o.id,
                        parent,
                        locked: o.locked,
                        hidden: o.hidden,
                        is_group: o.is_group,
                        body,
                    };
                    std::mem::swap(&mut self.objects[i], &mut moved);
                    edits.push(Edit::Modify { index: i, id, other: moved, coalesce: false });
                },
                None => {},
            }
            k = k + 1;
        }
        proof {
            assert(ms@.subrange(0, n as int) =~= ms@);
            assert(b0.subrange(0, n as int) =~= b0);
        }
        edits
    }

    /// The members a `group_objects(ids, ..)` call would group (the ids
    /// that resolve, in order) and the parent the new group gets: the
    /// members' common parent when they agree, else the root.
    pub fn group_members(&self, ids: &[u64]) -> (r: (Vec<u64>, Option<u64>))
        ensures
            r.0@ == members_of(self.objs(), ids@),
            r.1 == common_parent(self.objs(), r.0@),
    {
        let ghost l = self.objects@;
        let mut ms: Vec<u64> = Vec::new();
        let n = ids.len();
        let mut k: usize = 0;
        while k < n
            invariant
                l == self.objects@,
                n == ids@.len(),
                k <= n,
                ms@ == members_of(l, ids@.subrange(0, k as int)),
                forall|j: int| 0 <= j < ms@.len() ==> has_id(l, #[trigger] ms@[j]),
            decreases n - k,
        {
            proof {
                assert(ids@.subrange(0, k as int + 1).drop_last() =~= ids@.subrange(0, k as int));
                assert(ids@.subrange(0, k as int + 1).last() == ids@[k as int]);
            }
            if self.find(ids[k]).is_some() {
                ms.push(ids[k]);
            }
            k = k + 1;
        }
        proof {
            assert(ids@.subrange(0, n as int) =~= ids@);
        }
        if ms.len() == 0 {
            return (ms, None);
        }
        let first = match self.find(ms[0]) {
            Some(i) => i,
            None => {
                proof {
                    assert(has_id(l, ms@[0]));
                }
                return (ms, None);
            },
        };
        let p = self.objects[first].parent;
        let mut agree = true;
        let mut j: usize = 0;
        while j < ms.len()
            invariant
                l == self.objects@,
                ms@.len() > 0,
                j <= ms@.len(),
                forall|t: int| 0 <= t < ms@.len() ==> has_id(l, #[trigger] ms@[t]),
                agree == forall|t: int| 0 <= t < j ==> l[index_of(l, #[trigger] ms@[t]).unwrap()].parent == p,
            decreases ms@.len() - j,
        {
            match self.find(ms[j]) {
                Some(i) => {
                    if self.objects[i].parent != p {
                        agree = false;
                    }
                },
                None => {
                    proof {
                        assert(has_id(l, ms@[j as int]));
                    }
                },
            }
            j = j + 1;
        }
        (ms, if agree { p } else { None })
    }

    /// Group objects under a fresh group node as ONE undo entry and
    /// return its id. The node's parent is the members' common parent
    /// when they agree, else the root; each member then moves under the
    /// node with its body re-expressed for the new parent space
    /// (`bodies`, one per member in `group_members` order). Nothing that
    /// resolves = no group.
    pub fn group_objects(&mut self, ids: &[u64], group_body: B, bodies: Vec<B>) -> (r: Option<u64>)
        requires
            old(self).last_id() < u64::MAX,
            bodies@.len() == members_of(old(self).objs(), ids@).len(),
        ensures
            ({
                let l = old(self).objs();
                let ms = members_of(l, ids@);
                &&& ms.len() == 0 ==> r is None && final(self).objs() == l && final(self).undo_stack()
                    == old(self).undo_stack() && final(self).redo_stack() == old(self).redo_stack()
                    && final(self).last_id() == old(self).last_id()
                &&& ms.len() > 0 ==> {
                    let gid = (old(self).last_id() + 1) as u64;
                    let node = SketchObject {
                        id: gid,
                        parent: common_parent(l, ms),
                        locked: false,
                        hidden: false,
                        is_group: true,
                        body: group_body,
                    };
                    let (l2, es) = move_each(l.push(node), ms, Some(gid), bodies@);
                    &&& r == Some(gid)
                    &&& final(self).last_id() == gid
                    &&& final(self).objs() == l2
                    &&& final(self).undo_stack().drop_last() == old(self).undo_stack()
                    &&& final(self).undo_stack().len() == old(self).undo_stack().len() + 1
                    &&& final(self).undo_stack().last() matches ModelOp::Group { edits, coalesce }
                        && edits@ == seq![Edit::Add { id: gid, held: None }] + es && !coalesce
                    &&& final(self).redo_stack().len() == 0
                    &&& ids_at_most(l, old(self).last_id()) ==> round_trips(
                        l,
                        final(self).objs(),
                        final(self).undo_stack().last(),
                    )
                }
            }),
            final(self).dirty_region() == old(self).dirty_region(),
            ids_at_most(old(self).objs(), old(self).last_id()) ==> ids_at_most(final(self).objs(), final(self).last_id()),
    {
        let (ms, common) = self.group_members(ids);
        if ms.len() == 0 {
            return None;
        }
        let ghost l = self.objects@;
        let ghost bs = bodies@;
        let gid = self.fresh_id();
        let node = SketchObject { id: gid, parent: common, locked: false, hidden: false, is_group: true, body: group_body };
        let ghost nd = node;
        self.objects.push(node);
        proof {
            assert(self.objects@.len() == l.len() + 1);
            assert(self.objects@.len() == self.objects.len());
        }
        let mut es = self.move_each_exec(&ms, Some(gid), bodies);
        let ghost es0 = es@;
        let mut edits: Vec<Edit<B>> = Vec::new();
        edits.push(Edit::Add { id: gid, held: None });
        edits.append(&mut es);
        proof {
            assert(edits@ =~= seq![Edit::Add { id: gid, held: None }] + es0);
            if ids_at_most(l, old(self).next_id) {
                assert(ids_at_most(l.push(nd), gid)) by {
                    assert forall|k: int| 0 <= k < l.push(nd).len() implies (#[trigger] l.push(nd)[k]).id <= gid by {
                        if k < l.len() {
                            assert(l.push(nd)[k] == l[k]);
                        }
                    }
                }
                lemma_move_each_at_most(l.push(nd), ms@, Some(gid), bs, gid);
                assert(!has_id(l, gid));
                lemma_group_round_trip(l, nd, ms@, bs);
                let back = undo_edits(self.objects@, edits@).1;
                lemma_group_round_trips(l, self.objects@, edits, false, back);
            }
        }
        self.undo.push(ModelOp::Group { edits, coalesce: false });
        self.redo.clear();
        proof {
            assert(self.undo@.drop_last() =~= old(self).undo@);
        }
        Some(gid)
    }

    /// Dissolve a group as ONE undo entry: its direct children move to
    /// the group's parent (with bodies re-expressed for that space,
    /// `bodies`, one per child in `children_of` order) and the node is
    /// removed. Refused (false) unless `gid` names a group.
    pub fn ungroup(&mut self, gid: u64, bodies: Vec<B>) -> (r: bool)
        requires
            is_group_id(old(self).objs(), gid) ==> bodies@.len() == child_ids(old(self).objs(), gid).len(),
        ensures
            ({
                let l = old(self).objs();
                &&& r == is_group_id(l, gid)
                &&& !r ==> final(self).objs() == l && final(self).undo_stack() == old(self).undo_stack()
                    && final(self).redo_stack() == old(self).redo_stack()
                &&& r ==> {
                    let gparent = l[index_of(l, gid).unwrap()].parent;
                    let (l1, es) = move_each(l, child_ids(l, gid), gparent, bodies@);
                    let gi = index_of(l1, gid).unwrap();
                    &&& final(self).objs() == l1.remove(gi)
                    &&& final(self).undo_stack().drop_last() == old(self).undo_stack()
                    &&& final(self).undo_stack().len() == old(self).undo_stack().len() + 1
                    &&& final(self).undo_stack().last() matches ModelOp::Group { edits, coalesce }
                        && edits@ == es.push(Edit::Remove { index: gi as usize, held: Some(l1[gi]) }) && !coalesce
                    &&& final(self).redo_stack().len() == 0
                    &&& round_trips(l, final(self).objs(), final(self).undo_stack().last())
                }
            }),
            final(self).last_id() == old(self).last_id(),
            final(self).dirty_region() == old(self).dirty_region(),
            ids_at_most(old(self).objs(), old(self).last_id()) ==> ids_at_most(final(self).objs(), final(self).last_id()),
    {
        let ghost l = self.objects@;
        let Some(gi) = self.find(gid) else { return false };
        if !self.objects[gi].is_group {
            return false;
        }
        let gparent = self.objects[gi].parent;
        let children = self.children_of(gid);
        let ghost old_bodies = bodies@;
        let mut es = self.move_each_exec(&children, gparent, bodies);
        proof {
            lemma_move_each_ids(l, children@, gparent, bodies@);
            lemma_same_ids_index(l, self.objects@, gid);
        }
        let gi2 = match self.find(gid) {
            Some(i) => i,
            None => {
                proof {
                    assert(false);
                }
                return true;
            },
        };
        let node = self.objects.remove(gi2);
        es.push(Edit::Remove { index: gi2, held: Some(node) });
        proof {
            assert(l.len() == old(self).objects.len());
            lemma_ungroup_round_trip(l, gid, gparent, old_bodies);
            let back = undo_edits(self.objects@, es@).1;
            lemma_group_round_trips(l, self.objects@, es, false, back);
        }
        self.undo.push(ModelOp::Group { edits: es, coalesce: false });
        self.redo.clear();
        proof {
            assert(self.undo@.drop_last() =~= old(self).undo@);
        }
        true
    }

    /// Move `id` under `new_parent` (None = root) with its body
    /// re-expressed for the new parent space, as one undo entry. Refused
    /// when either id is unknown, the target is not a group, or the move
    /// would put a group inside itself or its own subtree; moving to the
    /// current parent succeeds without an entry.
    pub fn reparent(&mut self, id: u64, new_parent: Option<u64>, body: B) -> (r: Result<(), &'static str>)
        ensures
            ({
                let l = old(self).objs();
                &&& r.is_err() == reparent_refusal(l, id, new_parent).is_some()
                &&& r matches Err(m) ==> m@ == reparent_refusal(l, id, new_parent).unwrap()
                &&& (r.is_err() || l[index_of(l, id).unwrap()].parent == new_parent) ==> final(self).objs() == l
                    && final(self).undo_stack() == old(self).undo_stack() && final(self).redo_stack()
                    == old(self).redo_stack()
                &&& (r.is_ok() && l[index_of(l, id).unwrap()].parent != new_parent) ==> {
                    let i = index_of(l, id).unwrap();
                    &&& final(self).objs() == l.update(i, l[i].moved(new_parent, body))
                    &&& final(self).undo_stack() == old(self).undo_stack().push(
                        ModelOp::Edit(Edit::Modify { index: i as usize, id, other: l[i], coalesce: false }),
                    )
                    &&& final(self).redo_stack().len() == 0
                    &&& round_trips(l, final(self).objs(), final(self).undo_stack().last())
                }
            }),
            final(self).last_id() == old(self).last_id(),
            final(self).dirty_region() == old(self).dirty_region(),
            ids_at_most(old(self).objs(), old(self).last_id()) ==> ids_at_most(final(self).objs(), final(self).last_id()),
    {
        proof {
            reveal_strlit("no such object");
            reveal_strlit("a group can't be moved into itself");
            reveal_strlit("no such group");
            reveal_strlit("target is not a group");
            reveal_strlit("a group can't be moved into its own subtree");
        }
        let Some(i) = self.find(id) else { return Err("no such object") };
        if let Some(np) = new_parent {
            if np == id {
                return Err("a group can't be moved into itself");
            }
            let Some(pi) = self.find(np) else { return Err("no such group") };
            if !self.objects[pi].is_group {
                return Err("target is not a group");
            }
            if self.is_descendant(np, id) {
                return Err("a group can't be moved into its own subtree");
            }
        }
        if self.objects[i].parent == new_parent {
            return Ok(());
        }
        let o = &self.objects[i];
        let mut moved = SketchObject { id: o.id, parent: new_parent, locked: o.locked, hidden: o.hidden, is_group: o.is_group, body };
        std::mem::swap(&mut self.objects[i], &mut moved);
        proof {
            let l0 = old(self).objects@;
            let l1 = self.objects@;
            lemma_modify_round_trip(l1, i, id, moved, false);
            assert(l1.update(i as int, moved) =~= l0);
            lemma_edit_round_trips(
                l0,
                l1,
                Edit::Modify { index: i, id, other: moved, coalesce: false },
                Edit::Modify { index: i, id, other: l1[i as int], coalesce: false },
            );
        }
        self.undo.push(ModelOp::Edit(Edit::Modify { index: i, id, other: moved, coalesce: false }));
        self.redo.clear();
        Ok(())
    }
}

fn coalesced_ids_of<B>(es: &Vec<Edit<B>>) -> (r: Vec<u64>)
    ensures
        r@ == coalesced_ids(es@),
{
    let mut r: Vec<u64> = Vec::new();
    let n = es.len();
    let mut k: usize = 0;
    while k < n
        invariant
            n == es@.len(),
            k <= n,
            r@ == coalesced_ids(es@.subrange(0, k as int)),
        decreases n - k,
    {
        proof {
            assert(es@.subrange(0, k as int + 1).drop_last() =~= es@.subrange(0, k as int));
        }
        match &es[k] {
            Edit::Modify { id, coalesce, .. } => {
                if *coalesce {
                    r.push(*id);
                }
            },
            _ => {},
        }
        k = k + 1;
    }
    proof {
        assert(es@.subrange(0, n as int) =~= es@);
    }
    r
}

fn same_ids(a: &Vec<u64>, b: &Vec<u64>) -> (r: bool)
    ensures
        r == (a@ == b@),
{
    if a.len() != b.len() {
        return false;
    }
    let mut k: usize = 0;
    while k < a.len()
        invariant
            a@.len() == b@.len(),
            k <= a@.len(),
            forall|j: int| 0 <= j < k ==> a@[j] == b@[j],
        decreases a@.len() - k,
    {
        if a[k] != b[k] {
            return false;
        }
        k = k + 1;
    }
    proof {
        assert(a@ =~= b@);
    }
    true
}

fn vec_contains_usize(v: &Vec<usize>, x: usize) -> (r: bool)
    ensures
        r == exists|j: int| 0 <= j < v@.len() && v@[j] == x,
{
    let mut k: usize = 0;
    while k < v.len()
        invariant
            k <= v@.len(),
            forall|j: int| 0 <= j < k ==> v@[j] != x,
        decreases v@.len() - k,
    {
        if v[k] == x {
            return true;
        }
        k = k + 1;
    }
    false
}

} // verus!

verus! {

/// Position of the last object of `src` carrying `id`.
pub open spec fn last_pos<B>(src: Seq<SketchObject<B>>, id: u64) -> Option<int>
    decreases src.len(),
{
    if src.len() == 0 {
        None
    } else if src.last().id == id {
        Some(src.len() - 1)
    } else {
        last_pos(src.drop_last(), id)
    }
}

/// The id minted for the copy of `id` when ids are handed out from
/// `base + 1` in the order of `src` (a repeated id keeps the last one).
pub open spec fn minted<B>(src: Seq<SketchObject<B>>, base: u64, id: u64) -> Option<u64> {
    match last_pos(src, id) {
        Some(j) => Some((base + 1 + j) as u64),
        None => None,
    }
}

/// The copy of `src[k]` in a set copied with fresh ids: the minted id,
/// and the parent link remapped to the parent's copy when the parent is
/// in the set (else kept).
pub open spec fn copy_of<B>(src: Seq<SketchObject<B>>, base: u64, k: int) -> SketchObject<B> {
    let o = src[k];
    SketchObject {
        id: minted(src, base, o.id).unwrap(),
        parent: match o.parent {
            Some(p) => match minted(src, base, p) {
                Some(np) => Some(np),
                None => o.parent,
            },
            None => None,
        },
        ..o
    }
}

/// The copy of `src[k]` is a root of the copied forest: its parent is
/// not in the set.
pub open spec fn copy_is_root<B>(src: Seq<SketchObject<B>>, k: int) -> bool {
    match src[k].parent {
        Some(p) => last_pos(src, p) is None,
        None => true,
    }
}

proof fn lemma_last_pos<B>(src: Seq<SketchObject<B>>, id: u64)
    ensures
        match last_pos(src, id) {
            Some(j) => 0 <= j < src.len() && src[j].id == id && forall|i: int| j < i < src.len() ==> #[trigger] src[i].id != id,
            None => forall|i: int| 0 <= i < src.len() ==> #[trigger] src[i].id != id,
        },
    decreases src.len(),
{
    if src.len() > 0 && src.last().id != id {
        let d = src.drop_last();
        lemma_last_pos(d, id);
        assert forall|i: int| 0 <= i < d.len() implies #[trigger] src[i] == d[i] by {}
        assert(src[src.len() - 1].id != id);
    }
}

/// Position of the last id equal to `id`.
fn last_index_of(ids: &Vec<u64>, id: u64) -> (r: Option<usize>)
    ensures
        match r {
            Some(j) => j < ids@.len() && ids@[j as int] == id && forall|i: int| j < i < ids@.len() ==> #[trigger] ids@[i] != id,
            None => forall|i: int| 0 <= i < ids@.len() ==> #[trigger] ids@[i] != id,
        },
{
    let mut k = ids.len();
    while k > 0
        invariant
            k <= ids@.len(),
            forall|i: int| k <= i < ids@.len() ==> #[trigger] ids@[i] != id,
        decreases k,
    {
        k = k - 1;
        if ids[k] == id {
            return Some(k);
        }
    }
    None
}

impl<B> SketchModel<B> {
    /// Copies of `src` with fresh ids (minted in order), parent links
    /// inside the set remapped to the copies; with each copy, whether it
    /// is a root of the copied forest (its parent is not in the set).
    /// What duplicate and paste add.
    pub fn copy_with_fresh_ids(&mut self, src: Vec<SketchObject<B>>) -> (r: (Vec<SketchObject<B>>, Vec<bool>))
        requires
            old(self).last_id() + src@.len() <= u64::MAX,
        ensures
            r.0@.len() == src@.len(),
            r.1@.len() == src@.len(),
            forall|k: int| 0 <= k < src@.len() ==> #[trigger] r.0@[k] == copy_of(src@, old(self).last_id(), k),
            forall|k: int| 0 <= k < src@.len() ==> #[trigger] r.1@[k] == copy_is_root(src@, k),
            final(self).last_id() == old(self).last_id() + src@.len(),
            final(self).objs() == old(self).objs(),
            final(self).undo_stack() == old(self).undo_stack(),
            final(self).redo_stack() == old(self).redo_stack(),
            final(self).dirty_region() == old(self).dirty_region(),
    {
        let ghost all = src@;
        let base = self.next_id;
        let n = src.len();
        let mut ids: Vec<u64> = Vec::new();
        let mut k: usize = 0;
        while k < n
            invariant
                n == all.len(),
                all == src@,
                k <= n,
                ids@.len() == k,
                forall|j: int| 0 <= j < k ==> #[trigger] ids@[j] == all[j].id,
                base == self.next_id - k,
                self.next_id <= u64::MAX,
                base + n <= u64::MAX,
                self.objects == old(self).objects,
                self.undo == old(self).undo,
                self.redo == old(self).redo,
                self.dirty == old(self).dirty,
                base == old(self).next_id,
            decreases n - k,
        {
            ids.push(src[k].id);
            self.next_id = self.next_id + 1;
            k = k + 1;
        }
        proof {
            assert(ids@ =~= Seq::new(n as nat, |j: int| all[j].id));
        }
        let mut rest = src;
        let mut out: Vec<SketchObject<B>> = Vec::new();
        let mut roots: Vec<bool> = Vec::new();
        let mut k: usize = 0;
        while rest.len() > 0
            invariant
                n == all.len(),
                k + rest@.len() == n,
                rest@ == all.subrange(k as int, n as int),
                ids@ == Seq::new(n as nat, |j: int| all[j].id),
                base + n <= u64::MAX,
                out@.len() == k,
                roots@.len() == k,
                forall|j: int| 0 <= j < k ==> #[trigger] out@[j] == copy_of(all, base, j),
                forall|j: int| 0 <= j < k ==> #[trigger] roots@[j] == copy_is_root(all, j),
            decreases rest@.len(),
        {
            let o = rest.remove(0);
            proof {
                assert(all[k as int] == o);
                assert(rest@ =~= all.subrange(k + 1, n as int));
                lemma_last_pos(all, o.id);
                lemma_last_seq_pos(all, ids@, o.id);
            }
            let j = last_index_of(&ids, o.id).unwrap();
            let (parent, is_root) = match o.parent {
                Some(p) => {
                    proof {
                        lemma_last_seq_pos(all, ids@, p);
                    }
                    match last_index_of(&ids, p) {
                        Some(pj) => (Some(base + 1 + pj as u64), false),
                        None => (Some(p), true),
                    }
                },
                None => (None, true),
            };
            let copy = SketchObject { id: base + 1 + j as u64, parent, locked: o.locked, hidden: o.hidden, is_group: o.is_group, body: o.body };
            out.push(copy);
            roots.push(is_root);
            k = k + 1;
        }
        (out, roots)
    }
}

/// The last position of an id among `src`'s ids is its `last_pos`.
proof fn lemma_last_seq_pos<B>(src: Seq<SketchObject<B>>, ids: Seq<u64>, id: u64)
    requires
        ids == Seq::new(src.len(), |j: int| src[j].id),
    ensures
        forall|j: int| 0 <= j < ids.len() && ids[j] == id && (forall|i: int| j < i < ids.len() ==> #[trigger] ids[i] != id)
            ==> last_pos(src, id) == Some(j),
        (forall|i: int| 0 <= i < ids.len() ==> #[trigger] ids[i] != id) ==> last_pos(src, id) is None,
{
    lemma_last_pos(src, id);
    assert forall|j: int| 0 <= j < ids.len() && ids[j] == id && (forall|i: int| j < i < ids.len() ==> #[trigger] ids[i] != id)
        implies last_pos(src, id) == Some(j) by {
        if let Some(m) = last_pos(src, id) {
            if m > j {
                assert(ids[m] == src[m].id);
            } else if m < j {
                assert(ids[j] == src[j].id);
            }
        } else {
            assert(ids[j] == src[j].id);
        }
    }
    if forall|i: int| 0 <= i < ids.len() ==> #[trigger] ids[i] != id {
        if let Some(m) = last_pos(src, id) {
            assert(ids[m] == src[m].id);
        }
    }
}

/// Deepest nesting the tree listing descends to; a corrupt cycle stops
/// there.
pub const TREE_DEPTH_CAP: usize = 64;

/// The tree listing under `parent` at `depth`: its children topmost
/// first, each followed by its own listing when it is a group.
pub open spec fn tree_under<B>(l: Seq<SketchObject<B>>, parent: Option<u64>, depth: nat) -> Seq<(u64, nat)>
    decreases TREE_DEPTH_CAP + 1 - depth, l.len() + 1,
{
    if depth > TREE_DEPTH_CAP {
        Seq::empty()
    } else {
        tree_from(l, parent, depth, l.len() as int)
    }
}

/// The part of the listing under `parent` that objects below position
/// `k` contribute, topmost first.
pub open spec fn tree_from<B>(l: Seq<SketchObject<B>>, parent: Option<u64>, depth: nat, k: int) -> Seq<(u64, nat)>
    decreases TREE_DEPTH_CAP + 1 - depth, k,
{
    if depth > TREE_DEPTH_CAP || k <= 0 || k > l.len() {
        Seq::empty()
    } else {
        let o = l[k - 1];
        let rest = tree_from(l, parent, depth, k - 1);
        if o.parent == parent {
            let nested = if o.is_group { tree_under(l, Some(o.id), depth + 1) } else { Seq::empty() };
            seq![(o.id, depth)] + nested + rest
        } else {
            rest
        }
    }
}

impl<B> SketchModel<B> {
    /// The object tree as display rows `(id, depth)`: roots topmost
    /// first, each group's children topmost first beneath it, nesting
    /// cut off below `TREE_DEPTH_CAP`.
    pub fn tree_rows(&self) -> (r: Vec<(u64, usize)>)
        ensures
            r@.len() == tree_under(self.objs(), None, 0).len(),
            forall|i: int| 0 <= i < r@.len() ==> #[trigger] r@[i].0 == tree_under(self.objs(), None, 0)[i].0
                && r@[i].1 as nat == tree_under(self.objs(), None, 0)[i].1,
    {
        let mut out: Vec<(u64, usize)> = Vec::new();
        let ghost e = out@;
        self.collect_rows(None, 0, &mut out);
        proof {
            assert(e.len() == 0);
            assert forall|i: int| 0 <= i < out@.len() implies #[trigger] out@[i].0 == tree_under(self.objs(), None, 0)[i].0
                && out@[i].1 as nat == tree_under(self.objs(), None, 0)[i].1 by {
                assert(out@[e.len() + i].0 == tree_under(self.objs(), None, 0)[i].0);
            }
        }
        out
    }

    fn collect_rows(&self, parent: Option<u64>, depth: usize, out: &mut Vec<(u64, usize)>)
        requires
            depth <= TREE_DEPTH_CAP + 1,
        ensures
            rows_match(final(out)@, old(out)@, tree_under(self.objs(), parent, depth as nat)),
        decreases TREE_DEPTH_CAP + 1 - depth, self.objs().len() + 1,
    {
        if depth > TREE_DEPTH_CAP {
            proof {
                assert(rows_match(out@, out@, Seq::empty()));
            }
            return;
        }
        self.collect_from(parent, depth, self.objects.len(), out);
    }

    fn collect_from(&self, parent: Option<u64>, depth: usize, k: usize, out: &mut Vec<(u64, usize)>)
        requires
            depth <= TREE_DEPTH_CAP,
            k <= self.objs().len(),
        ensures
            rows_match(final(out)@, old(out)@, tree_from(self.objs(), parent, depth as nat, k as int)),
        decreases TREE_DEPTH_CAP + 1 - depth, k,
    {
        if k == 0 {
            proof {
                assert(rows_match(out@, out@, Seq::empty()));
            }
            return;
        }
        let ghost l = self.objects@;
        let ghost before = out@;
        let o = &self.objects[k - 1];
        if o.parent == parent {
            out.push((o.id, depth));
            let ghost mid1 = out@;
            if o.is_group {
                self.collect_rows(Some(o.id), depth + 1, out);
            } else {
                proof {
                    assert(rows_match(out@, out@, Seq::empty()));
                }
            }
            let ghost mid2 = out@;
            self.collect_from(parent, depth, k - 1, out);
            proof {
                let nested = if o.is_group { tree_under(l, Some(o.id), depth as nat + 1) } else { Seq::empty() };
                let rest = tree_from(l, parent, depth as nat, k - 1);
                assert(tree_from(l, parent, depth as nat, k as int) == seq![(o.id, depth as nat)] + nested + rest);
                lemma_rows_match_chain(before, mid1, mid2, out@, seq![(o.id, depth as nat)], nested, rest);
            }
        } else {
            self.collect_from(parent, depth, k - 1, out);
        }
    }
}

/// `now` is `before` followed by the rows `add`.
pub open spec fn rows_match(now: Seq<(u64, usize)>, before: Seq<(u64, usize)>, add: Seq<(u64, nat)>) -> bool {
    &&& now.len() == before.len() + add.len()
    &&& forall|i: int| 0 <= i < before.len() ==> #[trigger] now[i] == before[i]
    &&& forall|i: int| 0 <= i < add.len() ==> #[trigger] now[before.len() + i].0 == add[i].0
        && now[before.len() + i].1 as nat == add[i].1
}

proof fn lemma_rows_match_chain(
    a: Seq<(u64, usize)>,
    b: Seq<(u64, usize)>,
    c: Seq<(u64, usize)>,
    d: Seq<(u64, usize)>,
    x: Seq<(u64, nat)>,
    y: Seq<(u64, nat)>,
    z: Seq<(u64, nat)>,
)
    requires
        rows_match(b, a, x),
        rows_match(c, b, y),
        rows_match(d, c, z),
    ensures
        rows_match(d, a, x + y + z),
{
    let xyz = x + y + z;
    assert forall|i: int| 0 <= i < xyz.len() implies #[trigger] d[a.len() + i].0 == xyz[i].0
        && d[a.len() + i].1 as nat == xyz[i].1 by {
        if i < x.len() {
            assert(d[a.len() + i] == c[a.len() + i]);
            assert(c[a.len() + i] == b[a.len() + i]);
        } else if i < x.len() + y.len() {
            let j = i - x.len();
            assert(d[b.len() + j] == c[b.len() + j]);
        } else {
            let j = i - x.len() - y.len();
            assert(d[c.len() + j].0 == z[j].0);
        }
    }
}

// --- Laws of the history ----------------------------------------------------

/// Undoing a concatenation undoes the later part first.
proof fn lemma_undo_edits_append<B>(l: Seq<SketchObject<B>>, a: Seq<Edit<B>>, b: Seq<Edit<B>>)
    ensures
        ({
            let (l1, rb) = undo_edits(l, b);
            let (l2, ra) = undo_edits(l1, a);
            undo_edits(l, a + b) == (l2, ra + rb)
        }),
    decreases b.len(),
{
    if b.len() == 0 {
        assert(a + b =~= a);
        let (l2, ra) = undo_edits(l, a);
        assert(ra + Seq::<Edit<B>>::empty() =~= ra);
    } else {
        assert((a + b).drop_last() =~= a + b.drop_last());
        assert((a + b).last() == b.last());
        let (l1, e1) = undo_edit(l, b.last());
        lemma_undo_edits_append(l1, a, b.drop_last());
        let (l3, rb1) = undo_edits(l1, b.drop_last());
        let (l4, ra) = undo_edits(l3, a);
        assert((ra + rb1).push(e1) =~= ra + rb1.push(e1));
    }
}

/// Redoing a sequence extended by one edit redoes that edit last.
proof fn lemma_redo_edits_push<B>(l: Seq<SketchObject<B>>, es: Seq<Edit<B>>, e: Edit<B>)
    ensures
        ({
            let (l1, r1) = redo_edits(l, es);
            let (l2, e2) = redo_edit(l1, e);
            redo_edits(l, es.push(e)) == (l2, r1.push(e2))
        }),
    decreases es.len(),
{
    let ep = es.push(e);
    if es.len() == 0 {
        assert(ep.drop_first() =~= Seq::<Edit<B>>::empty());
        assert(ep[0] == e);
        let (l2, e2) = redo_edit(l, e);
        assert(redo_edits(l2, ep.drop_first()) == (l2, Seq::<Edit<B>>::empty()));
        assert(redo_edits(l, ep) == (l2, seq![e2] + Seq::<Edit<B>>::empty()));
        assert(seq![e2] + Seq::<Edit<B>>::empty() =~= Seq::<Edit<B>>::empty().push(e2));
        assert(redo_edits(l, es) == (l, Seq::<Edit<B>>::empty()));
    } else {
        assert(ep[0] == es[0]);
        assert(ep.drop_first() =~= es.drop_first().push(e));
        let (l1, e1) = redo_edit(l, es[0]);
        lemma_redo_edits_push(l1, es.drop_first(), e);
        let (l3, r3) = redo_edits(l1, es.drop_first());
        let (l4, e4) = redo_edit(l3, e);
        assert(redo_edits(l1, ep.drop_first()) == (l4, r3.push(e4)));
        assert(redo_edits(l, ep) == (l4, seq![e1] + r3.push(e4)));
        assert(redo_edits(l, es) == (l3, seq![e1] + r3));
        assert(seq![e1] + r3.push(e4) =~= (seq![e1] + r3).push(e4));
    }
}

/// Undoing then redoing a modification puts back what was there: the
/// swap is an involution.
pub proof fn lemma_modify_round_trip<B>(l: Seq<SketchObject<B>>, index: usize, id: u64, other: SketchObject<B>, coalesce: bool)
    requires
        (index as int) < l.len(),
    ensures
        ({
            let e = Edit::Modify { index, id, other, coalesce };
            let (l1, e1) = undo_edit(l, e);
            &&& l1 == l.update(index as int, other)
            &&& redo_edit(l1, e1) == (l, e)
        }),
{
    let e = Edit::Modify { index, id, other, coalesce };
    let (l1, e1) = undo_edit(l, e);
    assert(l1.update(index as int, l[index as int]) =~= l);
}

/// Adding an object with a new id and undoing gives back the list;
/// redoing adds it again.
pub proof fn lemma_add_round_trip<B>(l: Seq<SketchObject<B>>, o: SketchObject<B>)
    requires
        !has_id(l, o.id),
    ensures
        undo_edit(l.push(o), Edit::Add { id: o.id, held: None }) == (l, Edit::Add { id: o.id, held: Some(o) }),
        redo_edit(l, Edit::Add { id: o.id, held: Some(o) }) == (l.push(o), Edit::<B>::Add { id: o.id, held: None }),
{
    let l2 = l.push(o);
    assert(is_first(l2, o.id, l.len() as int));
    lemma_index_of(l2, o.id);
    lemma_first_unique(l2, o.id, index_of(l2, o.id).unwrap(), l.len() as int);
    assert(l2.remove(l.len() as int) =~= l);
}

/// Inserting at a slot and undoing gives back the list; redoing
/// inserts again at the same slot.
pub proof fn lemma_insert_round_trip<B>(l: Seq<SketchObject<B>>, index: usize, o: SketchObject<B>)
    ensures
        ({
            let i = clamp_index(index, l.len() as int);
            let e = Edit::Insert { index: i as usize, id: o.id, held: None };
            &&& undo_edit(l.insert(i, o), e) == (l, Edit::Insert { index: i as usize, id: o.id, held: Some(o) })
            &&& redo_edit(l, Edit::Insert { index: i as usize, id: o.id, held: Some(o) }) == (l.insert(i, o), e)
        }),
{
    let i = clamp_index(index, l.len() as int);
    assert(l.insert(i, o).remove(i) =~= l);
}

proof fn lemma_remove_each_len<B>(l: Seq<SketchObject<B>>, ids: Seq<u64>)
    ensures
        remove_each(l, ids).0.len() <= l.len(),
    decreases ids.len(),
{
    if ids.len() > 0 {
        lemma_remove_each_len(l, ids.drop_last());
        let l1 = remove_each(l, ids.drop_last()).0;
        lemma_index_of(l1, ids.last());
    }
}

/// Removing a run of objects and undoing the whole group puts every
/// object back in its slot; redoing removes them again.
pub proof fn lemma_remove_many_round_trip<B>(l: Seq<SketchObject<B>>, ids: Seq<u64>)
    requires
        l.len() <= usize::MAX,
    ensures
        ({
            let (l1, es) = remove_each(l, ids);
            let (l0, back) = undo_edits(l1, es);
            &&& l0 == l
            &&& redo_edits(l, back) == (l1, es)
        }),
    decreases ids.len(),
{
    if ids.len() > 0 {
        lemma_remove_many_round_trip(l, ids.drop_last());
        let (l1, e1) = remove_each(l, ids.drop_last());
        let (l0, back1) = undo_edits(l1, e1);
        match index_of(l1, ids.last()) {
            Some(i) => {
                lemma_index_of(l1, ids.last());
                lemma_remove_each_len(l, ids.drop_last());
                assert((i as usize) as int == i);
                let r = Edit::Remove { index: i as usize, held: Some(l1[i]) };
                assert(e1.push(r).last() == r);
                assert(e1.push(r).drop_last() =~= e1);
                assert(l1.remove(i).insert(i, l1[i]) =~= l1);
                lemma_redo_edits_push(l, back1, Edit::Remove { index: i as usize, held: None });
            },
            None => {},
        }
    }
}

/// Moving objects and undoing the moves gives back the list; redoing
/// replays them.
proof fn lemma_move_each_round_trip<B>(l: Seq<SketchObject<B>>, ms: Seq<u64>, parent: Option<u64>, bodies: Seq<B>)
    requires
        l.len() <= usize::MAX,
    ensures
        ({
            let (l1, es) = move_each(l, ms, parent, bodies);
            let (l0, back) = undo_edits(l1, es);
            &&& l0 == l
            &&& redo_edits(l, back) == (l1, es)
        }),
    decreases ms.len(),
{
    if ms.len() > 0 {
        lemma_move_each_round_trip(l, ms.drop_last(), parent, bodies.drop_last());
        let (l1, e1) = move_each(l, ms.drop_last(), parent, bodies.drop_last());
        let (l0, back1) = undo_edits(l1, e1);
        match index_of(l1, ms.last()) {
            Some(i) => {
                lemma_index_of(l1, ms.last());
                lemma_move_each_ids(l, ms.drop_last(), parent, bodies.drop_last());
                assert((i as usize) as int == i);
                let m = Edit::Modify { index: i as usize, id: ms.last(), other: l1[i], coalesce: false };
                let l2 = l1.update(i, l1[i].moved(parent, bodies.last()));
                assert(e1.push(m).last() == m);
                assert(e1.push(m).drop_last() =~= e1);
                assert(l2.update(i, l1[i]) =~= l1);
                lemma_redo_edits_push(l, back1, Edit::Modify { index: i as usize, id: ms.last(), other: l2[i], coalesce: false });
                assert(l1.update(i, l2[i]) =~= l2);
            },
            None => {},
        }
    }
}

/// Grouping (with a group id not yet in use) and undoing gives back the
/// list; redoing regroups.
pub proof fn lemma_group_round_trip<B>(l: Seq<SketchObject<B>>, node: SketchObject<B>, ms: Seq<u64>, bodies: Seq<B>)
    requires
        !has_id(l, node.id),
        l.len() < usize::MAX,
    ensures
        ({
            let (l2, es) = move_each(l.push(node), ms, Some(node.id), bodies);
            let all = seq![Edit::Add { id: node.id, held: None }] + es;
            let (l0, back) = undo_edits(l2, all);
            &&& l0 == l
            &&& redo_edits(l, back) == (l2, all)
        }),
{
    let lp = l.push(node);
    let (l2, es) = move_each(lp, ms, Some(node.id), bodies);
    let add = Edit::Add { id: node.id, held: None };
    let adds = seq![add];
    lemma_undo_edits_append(l2, adds, es);
    lemma_move_each_round_trip(lp, ms, Some(node.id), bodies);
    let (l1, back_es) = undo_edits(l2, es);
    assert(l1 == lp);
    assert(adds.drop_last() =~= Seq::<Edit<B>>::empty());
    assert(adds.last() == add);
    lemma_add_round_trip(l, node);
    let back_add = Edit::Add { id: node.id, held: Some(node) };
    assert(undo_edit(lp, add) == (l, back_add));
    assert(undo_edits(l, Seq::<Edit<B>>::empty()) == (l, Seq::<Edit<B>>::empty()));
    assert(undo_edits(lp, adds) == (l, Seq::<Edit<B>>::empty().push(back_add)));
    assert(Seq::<Edit<B>>::empty().push(back_add) =~= seq![back_add]);
    let back = seq![back_add] + back_es;
    assert(undo_edits(l2, adds + es) == (l, back));
    assert(back[0] == back_add);
    assert(back.drop_first() =~= back_es);
    assert(redo_edit(l, back_add) == (lp, add));
    assert(redo_edits(lp, back_es) == (l2, es));
    assert(redo_edits(l, back) == (l2, seq![add] + es));
}

/// Ungrouping and undoing gives back the list; redoing ungroups again.
pub proof fn lemma_ungroup_round_trip<B>(l: Seq<SketchObject<B>>, gid: u64, parent: Option<u64>, bodies: Seq<B>)
    requires
        has_id(l, gid),
        l.len() <= usize::MAX,
    ensures
        ({
            let (l1, es) = move_each(l, child_ids(l, gid), parent, bodies);
            let gi = index_of(l1, gid).unwrap();
            let all = es.push(Edit::Remove { index: gi as usize, held: Some(l1[gi]) });
            let (l0, back) = undo_edits(l1.remove(gi), all);
            &&& l0 == l
            &&& redo_edits(l, back) == (l1.remove(gi), all)
        }),
{
    let ms = child_ids(l, gid);
    let (l1, es) = move_each(l, ms, parent, bodies);
    lemma_move_each_ids(l, ms, parent, bodies);
    lemma_same_ids_index(l, l1, gid);
    lemma_index_of(l1, gid);
    let gi = index_of(l1, gid).unwrap();
    let r = Edit::Remove { index: gi as usize, held: Some(l1[gi]) };
    let all = es.push(r);
    assert(all.last() == r);
    assert(all.drop_last() =~= es);
    assert(l1.remove(gi).insert(gi, l1[gi]) =~= l1);
    lemma_move_each_round_trip(l, ms, parent, bodies);
    let (l0, back_es) = undo_edits(l1, es);
    lemma_redo_edits_push(l, back_es, Edit::Remove { index: gi as usize, held: None });
}

/// A permutation of a list's ids forces the ids to be distinct (each of
/// the `n` positions must be the first one of its id).
/// Position `j` of `l` is where some id of `ids` first occurs.
pub open spec fn first_in<B>(l: Seq<SketchObject<B>>, ids: Seq<u64>, j: int) -> bool {
    exists|k: int| 0 <= k < ids.len() && #[trigger] is_first(l, ids[k], j)
}

/// Every position of `l` is where some id of a permutation `ids` first
/// occurs.
proof fn lemma_permutation_onto<B>(l: Seq<SketchObject<B>>, ids: Seq<u64>)
    requires
        is_permutation_of(l, ids),
    ensures
        forall|j: int| 0 <= j < l.len() ==> #[trigger] first_in(l, ids, j),
{
    let n = l.len() as int;
    let f = |k: int| index_of(l, ids[k]).unwrap();
    assert forall|k: int| 0 <= k < n implies #[trigger] is_first(l, ids[k], f(k)) by {
        lemma_index_of(l, ids[k]);
    }
    let r = set_int_range(0, n);
    lemma_int_range(0, n);
    assert(vstd::relations::injective_on(f, r)) by {
        assert forall|a: int, b: int| r.contains(a) && r.contains(b) && #[trigger] f(a) == #[trigger] f(b) implies a == b by {
            assert(is_first(l, ids[a], f(a)));
            assert(is_first(l, ids[b], f(b)));
            if a < b {
                assert(ids[a] != ids[b]);
            } else if b < a {
                assert(ids[b] != ids[a]);
            }
        }
    }
    let t = r.map(f);
    lemma_map_size(r, t, f);
    assert(t.subset_of(r)) by {
        assert forall|x: int| t.contains(x) implies r.contains(x) by {
            let k = choose|k: int| r.contains(k) && f(k) == x;
            assert(is_first(l, ids[k], f(k)));
        }
    }
    lemma_subset_equality(t, r);
    assert forall|j: int| 0 <= j < l.len() implies #[trigger] first_in(l, ids, j) by {
        assert(r.contains(j));
        assert(t.contains(j));
        let k = choose|k: int| r.contains(k) && f(k) == j;
        assert(is_first(l, ids[k], f(k)));
        assert(is_first(l, ids[k], j));
    }
}

/// A list that some permutation of ids names has no id twice.
proof fn lemma_permutation_distinct<B>(l: Seq<SketchObject<B>>, ids: Seq<u64>)
    requires
        is_permutation_of(l, ids),
    ensures
        forall|i: int, j: int| 0 <= i < j < l.len() ==> #[trigger] l[i].id != #[trigger] l[j].id,
{
    lemma_permutation_onto(l, ids);
    assert forall|i: int, j: int| 0 <= i < j < l.len() implies #[trigger] l[i].id != #[trigger] l[j].id by {
        assert(first_in(l, ids, j));
        let k = choose|k: int| 0 <= k < ids.len() && #[trigger] is_first(l, ids[k], j);
    }
}

/// Reordering into a permutation and back into the old id order gives
/// back the list.
pub proof fn lemma_reorder_round_trip<B>(l: Seq<SketchObject<B>>, ids: Seq<u64>)
    requires
        is_permutation_of(l, ids),
    ensures
        is_permutation_of(reordered(l, ids), ids_of(l)),
        reordered(reordered(l, ids), ids_of(l)) == l,
{
    lemma_permutation_distinct(l, ids);
    let n = l.len() as int;
    let lr = reordered(l, ids);
    assert forall|k: int| 0 <= k < n implies #[trigger] lr[k].id == ids[k] by {
        lemma_index_of(l, ids[k]);
    }
    let back = ids_of(l);
    assert forall|j: int| 0 <= j < n implies is_first(l, l[j].id, j) by {}
    assert forall|j: int| 0 <= j < n implies #[trigger] has_id(lr, back[j]) && ids[index_of(lr, back[j]).unwrap()] == l[j].id by {
        assert(has_id(l, l[j].id));
        lemma_permutation_onto(l, ids);
        assert(first_in(l, ids, j));
        let k = choose|k: int| 0 <= k < ids.len() && #[trigger] is_first(l, ids[k], j);
        assert(is_first(l, ids[k], j));
        assert(lr[k].id == back[j]);
        assert(has_id(lr, back[j]));
        lemma_index_of(lr, back[j]);
        let k2 = index_of(lr, back[j]).unwrap();
        assert(lr[k2].id == ids[k2]);
        if k2 != k {
            if k2 < k {
                assert(ids[k2] != ids[k]);
            } else {
                assert(ids[k] != ids[k2]);
            }
        }
    }
    assert(is_permutation_of(lr, back)) by {
        assert forall|a: int, b: int| 0 <= a < b < back.len() implies #[trigger] back[a] != #[trigger] back[b] by {}
        assert forall|k: int| 0 <= k < back.len() implies has_id(lr, #[trigger] back[k]) by {}
    }
    let res = reordered(lr, back);
    assert forall|j: int| 0 <= j < n implies #[trigger] res[j] == l[j] by {
        assert(has_id(lr, back[j]));
        let k = index_of(lr, back[j]).unwrap();
        assert(ids[k] == l[j].id);
        lemma_index_of(lr, back[j]);
        lemma_index_of(l, ids[k]);
        assert(is_first(l, l[j].id, j));
        lemma_first_unique(l, l[j].id, index_of(l, ids[k]).unwrap(), j);
    }
    assert(res =~= l);
}

/// Redoing a concatenation redoes the earlier part first.
proof fn lemma_redo_edits_append<B>(l: Seq<SketchObject<B>>, a: Seq<Edit<B>>, b: Seq<Edit<B>>)
    ensures
        ({
            let (l1, ra) = redo_edits(l, a);
            let (l2, rb) = redo_edits(l1, b);
            redo_edits(l, a + b) == (l2, ra + rb)
        }),
    decreases a.len(),
{
    if a.len() == 0 {
        assert(a + b =~= b);
        let (l2, rb) = redo_edits(l, b);
        assert(Seq::<Edit<B>>::empty() + rb =~= rb);
    } else {
        assert((a + b)[0] == a[0]);
        assert((a + b).drop_first() =~= a.drop_first() + b);
        let (l1, e1) = redo_edit(l, a[0]);
        lemma_redo_edits_append(l1, a.drop_first(), b);
        let (l3, ra1) = redo_edits(l1, a.drop_first());
        let (l4, rb) = redo_edits(l3, b);
        assert(seq![e1] + (ra1 + rb) =~= (seq![e1] + ra1) + rb);
    }
}

/// The fragment insertions of a split, undone from the top, take the
/// fragments back out; redone, they put them back.
#[verifier::rlimit(30)]
proof fn lemma_inserts_round_trip<B>(l1: Seq<SketchObject<B>>, i: int, rest: Seq<SketchObject<B>>, k: int)
    requires
        0 <= i < l1.len(),
        0 <= k <= rest.len(),
        l1.len() + rest.len() <= usize::MAX,
    ensures
        ({
            let mid = l1.subrange(0, i + 1) + rest.subrange(0, k) + l1.subrange(i + 1, l1.len() as int);
            let ins = Seq::new(k as nat, |j: int| Edit::Insert { index: (i + 1 + j) as usize, id: rest[j].id, held: None });
            let outs = Seq::new(k as nat, |j: int| Edit::Insert { index: (i + 1 + j) as usize, id: rest[j].id, held: Some(rest[j]) });
            &&& undo_edits(mid, ins) == (l1, outs)
            &&& redo_edits(l1, outs) == (mid, ins)
        }),
    decreases k,
{
    let mid = l1.subrange(0, i + 1) + rest.subrange(0, k) + l1.subrange(i + 1, l1.len() as int);
    let ins = Seq::new(k as nat, |j: int| Edit::Insert { index: (i + 1 + j) as usize, id: rest[j].id, held: None });
    let outs = Seq::new(k as nat, |j: int| Edit::Insert { index: (i + 1 + j) as usize, id: rest[j].id, held: Some(rest[j]) });
    if k == 0 {
        assert(mid =~= l1);
        assert(ins =~= Seq::<Edit<B>>::empty());
        assert(outs =~= Seq::<Edit<B>>::empty());
    } else {
        lemma_inserts_round_trip(l1, i, rest, k - 1);
        let prev = l1.subrange(0, i + 1) + rest.subrange(0, k - 1) + l1.subrange(i + 1, l1.len() as int);
        let ins1 = Seq::new((k - 1) as nat, |j: int| Edit::Insert { index: (i + 1 + j) as usize, id: rest[j].id, held: None });
        let outs1 = Seq::new((k - 1) as nat, |j: int| Edit::Insert { index: (i + 1 + j) as usize, id: rest[j].id, held: Some(rest[j]) });
        assert(ins.drop_last() =~= ins1);
        assert(outs.drop_last() =~= outs1);
        assert(((i + k) as usize) as int == i + k);
        assert(mid[i + k] == rest[k - 1]);
        assert(mid.remove(i + k) =~= prev);
        assert(undo_edit(mid, ins.last()) == (prev, outs.last()));
        assert(outs1.push(outs.last()) =~= outs);
        lemma_redo_edits_push(l1, outs1, outs.last());
        assert(prev.insert(i + k, rest[k - 1]) =~= mid);
        assert(redo_edit(prev, outs.last()) == (mid, ins.last()));
        assert(ins1.push(ins.last()) =~= ins);
    }
}

/// Erasing one object (removing it, trimming it or splitting it into
/// fragments) and undoing gives back the list; redoing replays it.
pub proof fn lemma_erase_one_round_trip<B>(l: Seq<SketchObject<B>>, id: u64, repl: Seq<SketchObject<B>>)
    requires
        l.len() + repl.len() <= usize::MAX,
    ensures
        ({
            let (l2, es) = erase_one(l, id, repl);
            let (l0, back) = undo_edits(l2, es);
            &&& l0 == l
            &&& redo_edits(l, back) == (l2, es)
        }),
{
    lemma_index_of(l, id);
    match index_of(l, id) {
        None => {
            assert(undo_edits(l, Seq::<Edit<B>>::empty()) == (l, Seq::<Edit<B>>::empty()));
            assert(redo_edits(l, Seq::<Edit<B>>::empty()) == (l, Seq::<Edit<B>>::empty()));
        },
        Some(i) => {
            assert((i as usize) as int == i);
            if repl.len() == 0 {
                let r = Edit::Remove { index: i as usize, held: Some(l[i]) };
                assert(seq![r].last() == r);
                assert(seq![r].drop_last() =~= Seq::<Edit<B>>::empty());
                assert(l.remove(i).insert(i, l[i]) =~= l);
                let back = Seq::<Edit<B>>::empty().push(Edit::Remove { index: i as usize, held: None });
                assert(back[0] == Edit::<B>::Remove { index: i as usize, held: None });
                assert(back.drop_first() =~= Seq::<Edit<B>>::empty());
                assert(seq![r] + Seq::<Edit<B>>::empty() =~= seq![r]);
                assert(erase_one(l, id, repl) == (l.remove(i), seq![r]));
                let lr = l.remove(i);
                let em = Seq::<Edit<B>>::empty();
                assert(clamp_index(i as usize, lr.len() as int) == i);
                assert(undo_edit(lr, r) == (l, Edit::<B>::Remove { index: i as usize, held: None }));
                assert(undo_edits(l, em) == (l, em));
                assert(undo_edits(lr, seq![r]) == (l, back));
                assert(redo_edit(l, back[0]) == (lr, r));
                assert(redo_edits(lr, em) == (lr, em));
                assert(redo_edits(l, back) == (l.remove(i), seq![r]));
            } else {
                let l1 = l.update(i, repl[0]);
                let rest = repl.drop_first();
                let m = Edit::Modify { index: i as usize, id: repl[0].id, other: l[i], coalesce: false };
                let ins = Seq::new(rest.len(), |k: int| Edit::Insert { index: (i + 1 + k) as usize, id: rest[k].id, held: None });
                let outs = Seq::new(rest.len(), |k: int| Edit::Insert { index: (i + 1 + k) as usize, id: rest[k].id, held: Some(rest[k]) });
                let l2 = l1.subrange(0, i + 1) + rest + l1.subrange(i + 1, l1.len() as int);
                assert(rest.subrange(0, rest.len() as int) =~= rest);
                lemma_inserts_round_trip(l1, i, rest, rest.len() as int);
                lemma_undo_edits_append(l2, seq![m], ins);
                assert(seq![m].last() == m);
                assert(seq![m].drop_last() =~= Seq::<Edit<B>>::empty());
                let m2 = Edit::Modify { index: i as usize, id: repl[0].id, other: repl[0], coalesce: false };
                assert(l1.update(i, l[i]) =~= l);
                let em = Seq::<Edit<B>>::empty();
                assert(undo_edit(l1, m) == (l, m2));
                assert(undo_edits(l, em) == (l, em));
                assert(undo_edits(l1, seq![m]) == (l, em.push(m2)));
                assert(em.push(m2) =~= seq![m2]);
                let (lx, rb) = undo_edits(l2, ins);
                assert(lx == l1 && rb == outs);
                assert(undo_edits(l2, seq![m] + ins) == (l, seq![m2] + outs));
                lemma_redo_edits_append(l, seq![m2], outs);
                assert(seq![m2][0] == m2);
                assert(seq![m2].drop_first() =~= em);
                assert(redo_edit(l, m2) == (l1, m));
                assert(redo_edits(l1, em) == (l1, em));
                assert(seq![m] + em =~= seq![m]);
                assert(redo_edits(l, seq![m2]) == (l1, seq![m]));
                assert(redo_edits(l1, outs) == (l2, ins));
                assert(erase_one(l, id, repl) == (l2, seq![m] + ins));
                assert(redo_edits(l, seq![m2] + outs) == (l2, seq![m] + ins));
            }
        },
    }
}

/// Applying a whole eraser stroke and undoing the group gives back the
/// list; redoing replays the stroke.
pub proof fn lemma_erase_round_trip<B>(l: Seq<SketchObject<B>>, cs: Seq<(u64, Seq<SketchObject<B>>)>)
    requires
        l.len() + changes_len(cs) <= usize::MAX,
    ensures
        ({
            let (l2, es) = erase_each(l, cs);
            let (l0, back) = undo_edits(l2, es);
            &&& l0 == l
            &&& redo_edits(l, back) == (l2, es)
        }),
    decreases cs.len(),
{
    if cs.len() > 0 {
        lemma_erase_each_len(l, cs.drop_last());
        lemma_erase_round_trip(l, cs.drop_last());
        let (l1, e1) = erase_each(l, cs.drop_last());
        let (l2, e2) = erase_one(l1, cs.last().0, cs.last().1);
        lemma_erase_one_round_trip(l1, cs.last().0, cs.last().1);
        lemma_undo_edits_append(l2, e1, e2);
        let (lb, b2) = undo_edits(l2, e2);
        let (la, b1) = undo_edits(lb, e1);
        lemma_redo_edits_append(l, b1, b2);
    }
}

/// Total number of fragments over a stroke's outcomes.
pub open spec fn changes_len<B>(cs: Seq<(u64, Seq<SketchObject<B>>)>) -> int
    decreases cs.len(),
{
    if cs.len() == 0 {
        0
    } else {
        changes_len(cs.drop_last()) + cs.last().1.len()
    }
}

proof fn lemma_erase_each_len<B>(l: Seq<SketchObject<B>>, cs: Seq<(u64, Seq<SketchObject<B>>)>)
    ensures
        erase_each(l, cs).0.len() <= l.len() + changes_len(cs),
        changes_len(cs) >= 0,
    decreases cs.len(),
{
    if cs.len() > 0 {
        lemma_erase_each_len(l, cs.drop_last());
        let l1 = erase_each(l, cs.drop_last()).0;
        lemma_index_of(l1, cs.last().0);
    }
}


/// Undoing a group of modifications and redoing what the undo left on
/// the redo stack gives back the list and the group: each swap is an
/// involution.
proof fn lemma_modifies_round_trip<B>(l: Seq<SketchObject<B>>, es: Seq<Edit<B>>)
    requires
        forall|k: int| 0 <= k < es.len() ==> (#[trigger] es[k] matches Edit::Modify { index, .. } && (index as int) < l.len()),
    ensures
        undo_edits(l, es).0.len() == l.len(),
        redo_edits(undo_edits(l, es).0, undo_edits(l, es).1) == (l, es),
    decreases es.len(),
{
    if es.len() == 0 {
        assert(redo_edits(l, Seq::<Edit<B>>::empty()) == (l, Seq::<Edit<B>>::empty()));
    } else {
        let e = es.last();
        assert(es[es.len() - 1] == e);
        let (l1, e1) = undo_edit(l, e);
        if let Edit::Modify { index, id, other, coalesce } = e {
            lemma_modify_round_trip(l, index, id, other, coalesce);
        }
        assert forall|k: int| 0 <= k < es.drop_last().len() implies (#[trigger] es.drop_last()[k] matches Edit::Modify { index, .. } && (index as int) < l1.len()) by {
            assert(es.drop_last()[k] == es[k]);
        }
        lemma_modifies_round_trip(l1, es.drop_last());
        let (l2, rest) = undo_edits(l1, es.drop_last());
        lemma_redo_edits_push(l2, rest, e1);
        assert(es.drop_last().push(e) =~= es);
    }
}

/// Undoing a recorded group of modifications and redoing it restores
/// the list and the group (what one undo and one redo of a multi-object
/// panel edit do).
pub proof fn lemma_modify_many_round_trip<B>(l: Seq<SketchObject<B>>, pairs: Seq<(u64, SketchObject<B>, bool)>, coalesce: bool)
    requires
        l.len() <= usize::MAX,
    ensures
        ({
            let es = modify_edits(l, pairs, coalesce);
            let (l1, back) = undo_edits(l, es);
            &&& l1.len() == l.len()
            &&& redo_edits(l1, back) == (l, es)
        }),
{
    let es = modify_edits(l, pairs, coalesce);
    lemma_modify_edits_in_range(l, pairs, coalesce);
    lemma_modifies_round_trip(l, es);
}

proof fn lemma_modify_edits_in_range<B>(l: Seq<SketchObject<B>>, pairs: Seq<(u64, SketchObject<B>, bool)>, coalesce: bool)
    requires
        l.len() <= usize::MAX,
    ensures
        forall|k: int| 0 <= k < modify_edits(l, pairs, coalesce).len() ==> (#[trigger] modify_edits(l, pairs, coalesce)[k] matches Edit::Modify { index, .. } && (index as int) < l.len()),
    decreases pairs.len(),
{
    if pairs.len() > 0 {
        lemma_modify_edits_in_range(l, pairs.drop_last(), coalesce);
        lemma_index_of(l, pairs.last().0);
        if let Some(i) = index_of(l, pairs.last().0) {
            assert((i as usize) as int == i);
        }
    }
}

/// Adding several objects with new, distinct ids and undoing the entry
/// gives back the list; redoing adds them again.
pub proof fn lemma_add_many_round_trip<B>(l: Seq<SketchObject<B>>, os: Seq<SketchObject<B>>)
    requires
        forall|k: int| 0 <= k < os.len() ==> !has_id(l, #[trigger] os[k].id),
        forall|a: int, b: int| 0 <= a < b < os.len() ==> #[trigger] os[a].id != #[trigger] os[b].id,
    ensures
        ({
            let held = Seq::new(os.len(), |k: int| Edit::Add { id: os[k].id, held: Some(os[k]) });
            &&& undo_edits(l + os, add_edits(os)) == (l, held)
            &&& redo_edits(l, held) == (l + os, add_edits(os))
        }),
    decreases os.len(),
{
    let held = Seq::new(os.len(), |k: int| Edit::Add { id: os[k].id, held: Some(os[k]) });
    if os.len() == 0 {
        assert(l + os =~= l);
        assert(add_edits(os) =~= Seq::<Edit<B>>::empty());
        assert(held =~= Seq::<Edit<B>>::empty());
        assert(redo_edits(l, Seq::<Edit<B>>::empty()) == (l, Seq::<Edit<B>>::empty()));
    } else {
        let o = os.last();
        let front = os.drop_last();
        lemma_add_many_round_trip(l, front);
        let lf = l + front;
        assert(!has_id(lf, o.id)) by {
            if has_id(lf, o.id) {
                let j = choose|j: int| 0 <= j < lf.len() && lf[j].id == o.id;
                if j < l.len() {
                    assert(l[j].id == o.id);
                    assert(!has_id(l, os[os.len() - 1].id));
                } else {
                    assert(front[j - l.len()].id == os[j - l.len()].id);
                }
            }
        }
        lemma_add_round_trip(lf, o);
        assert(lf.push(o) =~= l + os);
        let held_f = Seq::new(front.len(), |k: int| Edit::Add { id: front[k].id, held: Some(front[k]) });
        assert(add_edits(os).last() == Edit::<B>::Add { id: o.id, held: None });
        assert(add_edits(os).drop_last() =~= add_edits(front));
        assert(held_f.push(Edit::Add { id: o.id, held: Some(o) }) =~= held);
        lemma_redo_edits_push(l, held_f, Edit::Add { id: o.id, held: Some(o) });
        assert(add_edits(front).push(Edit::<B>::Add { id: o.id, held: None }) =~= add_edits(os));
    }
}

/// No id in the list exceeds `max_id`.
proof fn lemma_max_id<B>(l: Seq<SketchObject<B>>)
    ensures
        forall|k: int| 0 <= k < l.len() ==> #[trigger] l[k].id <= max_id(l),
    decreases l.len(),
{
    if l.len() > 0 {
        lemma_max_id(l.drop_last());
        assert forall|k: int| 0 <= k < l.len() implies #[trigger] l[k].id <= max_id(l) by {
            if k < l.len() - 1 {
                assert(l[k] == l.drop_last()[k]);
            }
        }
    }
}

/// After a list is loaded, the id counter stands at or past every
/// loaded id, so the next fresh id collides with none of them.
pub proof fn lemma_loaded_ids_below_counter<B>(l: Seq<SketchObject<B>>, last: u64)
    ensures
        forall|k: int| 0 <= k < l.len() ==> #[trigger] l[k].id <= (if max_id(l) > last { max_id(l) } else { last }),
{
    lemma_max_id(l);
}

/// Removals keep every id of the list within the bound.
proof fn lemma_remove_each_at_most<B>(l: Seq<SketchObject<B>>, ids: Seq<u64>, last: u64)
    requires
        ids_at_most(l, last),
    ensures
        ids_at_most(remove_each(l, ids).0, last),
    decreases ids.len(),
{
    if ids.len() > 0 {
        lemma_remove_each_at_most(l, ids.drop_last(), last);
        let l1 = remove_each(l, ids.drop_last()).0;
        lemma_index_of(l1, ids.last());
        if let Some(i) = index_of(l1, ids.last()) {
            let l2 = l1.remove(i);
            assert forall|k: int| 0 <= k < l2.len() implies (#[trigger] l2[k]).id <= last by {
                if k < i {
                    assert(l2[k] == l1[k]);
                } else {
                    assert(l2[k] == l1[k + 1]);
                }
            }
        }
    }
}

/// Every fragment of the eraser outcomes `cs` has an id within `last`.
pub open spec fn fragments_at_most<B>(cs: Seq<(u64, Seq<SketchObject<B>>)>, last: u64) -> bool {
    forall|c: int| 0 <= c < cs.len() ==> ids_at_most(#[trigger] cs[c].1, last)
}

/// Eraser outcomes whose fragments are within the bound keep the list
/// within it.
proof fn lemma_erase_each_at_most<B>(l: Seq<SketchObject<B>>, cs: Seq<(u64, Seq<SketchObject<B>>)>, last: u64)
    requires
        ids_at_most(l, last),
        fragments_at_most(cs, last),
    ensures
        ids_at_most(erase_each(l, cs).0, last),
    decreases cs.len(),
{
    if cs.len() > 0 {
        assert(fragments_at_most(cs.drop_last(), last)) by {
            assert forall|c: int| 0 <= c < cs.drop_last().len() implies ids_at_most(#[trigger] cs.drop_last()[c].1, last) by {
                assert(cs.drop_last()[c] == cs[c]);
            }
        }
        lemma_erase_each_at_most(l, cs.drop_last(), last);
        let l1 = erase_each(l, cs.drop_last()).0;
        let id = cs.last().0;
        let repl = cs.last().1;
        assert(ids_at_most(cs[cs.len() - 1].1, last));
        lemma_index_of(l1, id);
        if let Some(i) = index_of(l1, id) {
            let l2 = erase_one(l1, id, repl).0;
            if repl.len() == 0 {
                assert forall|k: int| 0 <= k < l2.len() implies (#[trigger] l2[k]).id <= last by {
                    if k < i {
                        assert(l2[k] == l1[k]);
                    } else {
                        assert(l2[k] == l1[k + 1]);
                    }
                }
            } else {
                let u = l1.update(i, repl[0]);
                let rest = repl.drop_first();
                assert forall|k: int| 0 <= k < l2.len() implies (#[trigger] l2[k]).id <= last by {
                    if k <= i {
                        assert(l2[k] == u[k]);
                        if k != i {
                            assert(u[k] == l1[k]);
                        }
                    } else if k < i + 1 + rest.len() {
                        assert(l2[k] == rest[k - i - 1]);
                        assert(rest[k - i - 1] == repl[k - i]);
                    } else {
                        assert(l2[k] == u[k - rest.len()]);
                        assert(u[k - rest.len()] == l1[k - rest.len()]);
                    }
                }
            }
        }
    }
}

/// A reordering keeps the list within the bound.
proof fn lemma_reordered_at_most<B>(l: Seq<SketchObject<B>>, ids: Seq<u64>, last: u64)
    requires
        ids_at_most(l, last),
    ensures
        ids_at_most(reordered(l, ids), last),
{
    if is_permutation_of(l, ids) {
        let r = reordered(l, ids);
        assert forall|k: int| 0 <= k < r.len() implies (#[trigger] r[k]).id <= last by {
            assert(has_id(l, ids[k]));
            lemma_index_of(l, ids[k]);
        }
    }
}

/// Moves keep the list within the bound.
proof fn lemma_move_each_at_most<B>(l: Seq<SketchObject<B>>, ms: Seq<u64>, parent: Option<u64>, bodies: Seq<B>, last: u64)
    requires
        ids_at_most(l, last),
    ensures
        ids_at_most(move_each(l, ms, parent, bodies).0, last),
{
    lemma_move_each_ids(l, ms, parent, bodies);
    let r = move_each(l, ms, parent, bodies).0;
    assert forall|k: int| 0 <= k < r.len() implies (#[trigger] r[k]).id <= last by {
        assert(r[k].id == l[k].id);
    }
}

/// Fresh ids never collide: while every id of the list is within the
/// id counter (which `replace_all` establishes for any loaded list and
/// every operation keeps for ids handed out by `fresh_id`), the next
/// fresh id is above every id of the list. The counter never goes down,
/// so it also stays above every id handed out or loaded before.
pub proof fn lemma_fresh_id_is_new<B>(l: Seq<SketchObject<B>>, last: u64)
    requires
        ids_at_most(l, last),
        last < u64::MAX,
    ensures
        forall|k: int| 0 <= k < l.len() ==> (#[trigger] l[k]).id < last + 1,
        !has_id(l, (last + 1) as u64),
{
}

/// A counter that never goes down is at its largest at the end.
proof fn lemma_counters_rise(counters: Seq<u64>, k: int)
    requires
        0 <= k < counters.len(),
        forall|j: int| 0 <= j < counters.len() - 1 ==> #[trigger] counters[j] <= counters[j + 1],
    ensures
        counters[k] <= counters.last(),
    decreases counters.len() - k,
{
    if k < counters.len() - 1 {
        lemma_counters_rise(counters, k + 1);
    }
}

/// Over any run of calls on one model, a fresh id is above every id
/// handed out or loaded earlier in the run. `counters` holds the model's
/// `last_id()` after each call, in order: every operation's `ensures`
/// gives that it never goes down, `fresh_id` returns the counter it
/// leaves, and `replace_all` leaves it at or above every loaded id
/// (`ids_at_most`), so each earlier id `e.1`, seen by call `e.0`, is at
/// most `counters[e.0]`. The next fresh id, `counters.last() + 1`, is
/// then above all of them.
pub proof fn lemma_fresh_id_beyond_run(counters: Seq<u64>, earlier: Seq<(int, u64)>)
    requires
        counters.len() > 0,
        forall|j: int| 0 <= j < counters.len() - 1 ==> #[trigger] counters[j] <= counters[j + 1],
        forall|j: int|
            0 <= j < earlier.len() ==> 0 <= (#[trigger] earlier[j]).0 < counters.len() && earlier[j].1 <= counters[earlier[j].0],
    ensures
        forall|j: int| 0 <= j < earlier.len() ==> (#[trigger] earlier[j]).1 < counters.last() + 1,
{
    assert forall|j: int| 0 <= j < earlier.len() implies (#[trigger] earlier[j]).1 < counters.last() + 1 by {
        lemma_counters_rise(counters, earlier[j].0);
    }
}

/// The undo/redo law over models: if `m1` is `m0` after any operation
/// that recorded its entry with `round_trips` (see each operation's
/// `ensures`), `m2` is `m1` after `undo` and `m3` is `m2` after `redo`
/// (as their `ensures` relate them), then the undo gives `m0`'s list
/// back with a step to redo, and the redo gives `m1`'s list back with a
/// step to undo.
pub proof fn lemma_undo_redo_models<B>(m0: SketchModel<B>, m1: SketchModel<B>, m2: SketchModel<B>, m3: SketchModel<B>)
    requires
        m1.undo_stack().len() > 0,
        round_trips(m0.objs(), m1.objs(), m1.undo_stack().last()),
        m2.undo_stack() == m1.undo_stack().drop_last(),
        m2.redo_stack().len() == m1.redo_stack().len() + 1,
        undo_step(m1.objs(), m1.undo_stack().last(), m2.objs(), m2.redo_stack().last()),
        m3.redo_stack() == m2.redo_stack().drop_last(),
        m3.undo_stack().len() == m2.undo_stack().len() + 1,
        redo_step(m2.objs(), m2.redo_stack().last(), m3.objs(), m3.undo_stack().last()),
    ensures
        m2.objs() == m0.objs(),
        m2.redo_stack().len() > 0,
        m3.objs() == m1.objs(),
        m3.undo_stack().len() > 0,
{
}

// --- The parent forest stays acyclic ---------------------------------------

/// The ancestor walk from object `i` ends.
pub open spec fn chain_ends<B>(l: Seq<SketchObject<B>>, i: int) -> bool {
    exists|t: nat| #[trigger] ancestor_at(l, i, t) is None
}

/// Every object's ancestor walk ends: no parent links form a cycle.
pub open spec fn acyclic<B>(l: Seq<SketchObject<B>>) -> bool {
    forall|i: int| 0 <= i < l.len() ==> chain_ends(l, i)
}

/// Every ancestor walk ends within `MAX_DEPTH` hops, the depth the
/// model's queries look through.
pub open spec fn shallow<B>(l: Seq<SketchObject<B>>) -> bool {
    forall|i: int| 0 <= i < l.len() ==> #[trigger] ancestor_at(l, i, MAX_DEPTH as nat) is None
}

/// Walking `a` hops and then `b` more is walking `a + b` hops.
proof fn lemma_ancestor_compose<B>(l: Seq<SketchObject<B>>, j: int, a: nat, b: nat)
    ensures
        ancestor_at(l, j, a + b) == match ancestor_at(l, j, a) {
            Some(k) => ancestor_at(l, k, b),
            None => None,
        },
    decreases b,
{
    if b == 0 {
        lemma_ancestor_in_range(l, j, a);
    } else {
        lemma_ancestor_compose(l, j, a, (b - 1) as nat);
        assert((a + b - 1) as nat == a + (b - 1) as nat);
    }
}

/// Changing only the parent of object `i` (ids kept) leaves every walk
/// that has not reached `i` as it was.
proof fn lemma_walk_unchanged<B>(l: Seq<SketchObject<B>>, l2: Seq<SketchObject<B>>, i: int, j: int, t: nat)
    requires
        0 <= i < l.len(),
        l2.len() == l.len(),
        forall|k: int| 0 <= k < l.len() ==> l2[k].id == l[k].id,
        forall|k: int| 0 <= k < l.len() && k != i ==> l2[k] == l[k],
        forall|s: nat| s < t ==> ancestor_at(l, j, s) != Some(i),
    ensures
        ancestor_at(l2, j, t) == ancestor_at(l, j, t),
    decreases t,
{
    if t > 0 {
        lemma_walk_unchanged(l, l2, i, j, (t - 1) as nat);
        if let Some(m) = ancestor_at(l, j, (t - 1) as nat) {
            lemma_ancestor_in_range(l, j, (t - 1) as nat);
            assert(m != i);
            if let Some(p) = l[m].parent {
                lemma_same_ids_index(l, l2, p);
            }
        }
    }
}

/// The first hop at which a walk reaches `i`, given that it does.
proof fn lemma_first_hit<B>(l: Seq<SketchObject<B>>, j: int, i: int, s0: nat) -> (s: nat)
    requires
        ancestor_at(l, j, s0) == Some(i),
    ensures
        s <= s0,
        ancestor_at(l, j, s) == Some(i),
        forall|u: nat| u < s ==> ancestor_at(l, j, u) != Some(i),
    decreases s0,
{
    if exists|u: nat| u < s0 && ancestor_at(l, j, u) == Some(i) {
        let u = choose|u: nat| u < s0 && ancestor_at(l, j, u) == Some(i);
        lemma_first_hit(l, j, i, u)
    } else {
        s0
    }
}

/// A move that `reparent` accepts keeps the parent links free of cycles,
/// provided every walk ends within the depth its cycle check looks
/// through.
pub proof fn lemma_reparent_keeps_acyclic<B>(l: Seq<SketchObject<B>>, id: u64, new_parent: Option<u64>, body: B)
    requires
        shallow(l),
        reparent_refusal(l, id, new_parent) is None,
    ensures
        acyclic(l.update(index_of(l, id).unwrap(), l[index_of(l, id).unwrap()].moved(new_parent, body))),
{
    lemma_index_of(l, id);
    let i = index_of(l, id).unwrap();
    let l2 = l.update(i, l[i].moved(new_parent, body));
    let md = MAX_DEPTH as nat;
    // The new parent's own walk never passes through `i`.
    if let Some(np) = new_parent {
        lemma_index_of(l, np);
        let pi = index_of(l, np).unwrap();
        assert forall|u: nat| ancestor_at(l, pi, u) != Some(i) by {
            if ancestor_at(l, pi, u) == Some(i) {
                if u == 0 {
                    assert(l[pi].id == l[i].id);
                } else {
                    if u >= md {
                        lemma_ancestor_ends(l, pi, md, u);
                    }
                    let m = ancestor_at(l, pi, (u - 1) as nat).unwrap();
                    lemma_ancestor_in_range(l, pi, (u - 1) as nat);
                    let p = l[m].parent.unwrap();
                    lemma_index_of(l, p);
                    assert(parent_hit(l, ancestor_at(l, pi, (u - 1) as nat), id));
                    assert(descends(l, np, id));
                }
            }
        }
    }
    assert forall|j: int| 0 <= j < l2.len() implies chain_ends(l2, j) by {
        if exists|s: nat| s < md && ancestor_at(l, j, s) == Some(i) {
            let s1 = choose|s: nat| s < md && ancestor_at(l, j, s) == Some(i);
            let s = lemma_first_hit(l, j, i, s1);
            lemma_walk_unchanged(l, l2, i, j, s);
            lemma_ancestor_compose(l2, j, s, 1);
            match new_parent {
                None => {
                    assert(ancestor_at(l2, j, s + 1) is None);
                },
                Some(np) => {
                    let pi = index_of(l, np).unwrap();
                    lemma_same_ids_index(l, l2, np);
                    assert(ancestor_at(l2, j, s + 1) == Some(pi));
                    lemma_ancestor_compose(l2, j, s + 1, md);
                    lemma_walk_unchanged(l, l2, i, pi, md);
                    assert(ancestor_at(l2, j, s + 1 + md) is None);
                },
            }
        } else {
            lemma_walk_unchanged(l, l2, i, j, md);
            assert(ancestor_at(l2, j, md) is None);
        }
    }
}

} // verus!

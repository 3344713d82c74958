//! Scene files: which on-disk layout a file's version selects, and the
//! repair of a loaded object tree's parent links. Decoding the layouts
//! themselves (bincode over serde mirrors) happens at the file edge;
//! everything decided about the bytes and the objects is here.

use vstd::prelude::*;
use crate::model::{SketchObject, has_id, index_of, lemma_index_of, ancestor_at, acyclic, chain_ends, lemma_ancestor_ends};
use vstd::seq_lib::*;
use vstd::set_lib::lemma_len_subset;

verus! {

/// The on-disk layouts a scene file can have. Versions that share a
/// layout share a variant: v5 files use the v4 layout, and v9 is the
/// live format.
#[derive(Clone, Copy, PartialEq, Eq, Structural, Debug)]
pub enum SceneLayout {
    V3,
    V4,
    V6,
    V7,
    V8,
    V9,
}

/// How to read a scene file: its version, the layout to decode, and
/// whether its stamps predate the recolourable plume (before v5) and
/// need their plume colour seeded from the baked dye.
#[derive(Clone, Copy, PartialEq, Eq, Structural, Debug)]
pub struct SceneRoute {
    pub version: u32,
    pub layout: SceneLayout,
    pub seed_plume: bool,
}

/// The oldest scene version this build reads.
pub const SCENE_OLDEST: u32 = 3;

/// The scene version this build writes.
pub const SCENE_CURRENT: u32 = 9;

/// The little-endian `u32` in the first four bytes, or 0 when there are
/// fewer than four.
pub open spec fn version_of(b: Seq<u8>) -> u32 {
    if b.len() >= 4 {
        (b[0] as int + 256 * b[1] as int + 65536 * b[2] as int + 16777216 * b[3] as int) as u32
    } else {
        0
    }
}

/// The layout a supported version is stored in.
pub open spec fn layout_of(v: u32) -> SceneLayout {
    if v >= 9 {
        SceneLayout::V9
    } else if v >= 8 {
        SceneLayout::V8
    } else if v >= 7 {
        SceneLayout::V7
    } else if v >= 6 {
        SceneLayout::V6
    } else if v >= 4 {
        SceneLayout::V4
    } else {
        SceneLayout::V3
    }
}

/// The version stamped at the head of a scene file: the little-endian
/// `u32` in its first four bytes, 0 for a shorter file.
pub fn scene_version(bytes: &[u8]) -> (r: u32)
    ensures
        r == version_of(bytes@),
{
    if bytes.len() >= 4 {
        let v: u32 = bytes[0] as u32 + 256 * (bytes[1] as u32) + 65536 * (bytes[2] as u32)
            + 16777216 * (bytes[3] as u32);
        v
    } else {
        0
    }
}

/// How to read a scene file, or None when its version is outside
/// `SCENE_OLDEST..=SCENE_CURRENT` (the file is refused).
pub fn scene_route(bytes: &[u8]) -> (r: Option<SceneRoute>)
    ensures
        ({
            let v = version_of(bytes@);
            &&& r is None <==> !(SCENE_OLDEST <= v <= SCENE_CURRENT)
            &&& r matches Some(route) ==> route == (SceneRoute {
                version: v,
                layout: layout_of(v),
                seed_plume: v < 5,
            })
        }),
{
    let v = scene_version(bytes);
    if v < SCENE_OLDEST || v > SCENE_CURRENT {
        return None;
    }
    let layout = if v >= 9 {
        SceneLayout::V9
    } else if v >= 8 {
        SceneLayout::V8
    } else if v >= 7 {
        SceneLayout::V7
    } else if v >= 6 {
        SceneLayout::V6
    } else if v >= 4 {
        SceneLayout::V4
    } else {
        SceneLayout::V3
    };
    Some(SceneRoute { version: v, layout, seed_plume: v < 5 })
}

// --- Parent links of a loaded tree ----------------------------------------

/// Some group of `l` carries this id.
pub open spec fn has_group<B>(l: Seq<SketchObject<B>>, id: u64) -> bool {
    exists|j: int| 0 <= j < l.len() && l[j].is_group && l[j].id == id
}

/// Object `j` is the last group of `l` carrying this id (the one a
/// lookup by id lands on).
pub open spec fn is_last_group<B>(l: Seq<SketchObject<B>>, id: u64, j: int) -> bool {
    &&& 0 <= j < l.len()
    &&& l[j].is_group
    &&& l[j].id == id
    &&& forall|k: int| j < k < l.len() ==> !(l[k].is_group && l[k].id == id)
}

/// Position of the group a lookup by id lands on.
pub open spec fn group_at<B>(l: Seq<SketchObject<B>>, id: u64) -> Option<int> {
    if has_group(l, id) {
        Some(choose|j: int| is_last_group(l, id, j))
    } else {
        None
    }
}

/// The object with its parent link set to `p`, all else kept.
pub open spec fn with_parent<B>(o: SketchObject<B>, p: Option<u64>) -> SketchObject<B> {
    SketchObject { parent: p, ..o }
}

/// Object `i`'s parent link as the first repair pass leaves it: kept
/// when it names a group other than the object itself, else cleared.
pub open spec fn kept_parent<B>(l: Seq<SketchObject<B>>, i: int) -> Option<u64> {
    match l[i].parent {
        Some(p) => if has_group(l, p) && p != l[i].id {
            Some(p)
        } else {
            None
        },
        None => None,
    }
}

/// The list after the first repair pass.
pub open spec fn drop_bad_parents<B>(l: Seq<SketchObject<B>>) -> Seq<SketchObject<B>> {
    Seq::new(l.len(), |i: int| with_parent(l[i], kept_parent(l, i)))
}

/// The parent of the group a lookup by `p` lands on.
pub open spec fn next_link<B>(l: Seq<SketchObject<B>>, p: u64) -> Option<u64> {
    match group_at(l, p) {
        Some(g) => l[g].parent,
        None => None,
    }
}

/// The ids met walking up from object `i`: its own id at step 0, its
/// parent link at step 1, then the parent of each group looked up in
/// turn; None once the walk ends.
pub open spec fn walk_id<B>(l: Seq<SketchObject<B>>, i: int, k: nat) -> Option<u64>
    decreases k,
{
    if k == 0 {
        Some(l[i].id)
    } else if k == 1 {
        l[i].parent
    } else {
        match walk_id(l, i, (k - 1) as nat) {
            Some(p) => next_link(l, p),
            None => None,
        }
    }
}

/// The walk up from object `i` meets some id twice: a parent cycle.
pub open spec fn revisits<B>(l: Seq<SketchObject<B>>, i: int) -> bool {
    exists|a: nat, b: nat|
        a < b && #[trigger] walk_id(l, i, a) == #[trigger] walk_id(l, i, b) && walk_id(l, i, b) is Some
}

/// The second repair pass over the first `n` objects, in order: each
/// object whose walk (in the list as it stands) meets an id twice is
/// detached to the root.
pub open spec fn break_cycles<B>(l: Seq<SketchObject<B>>, n: nat) -> Seq<SketchObject<B>>
    decreases n,
{
    if n == 0 {
        l
    } else {
        let m = break_cycles(l, (n - 1) as nat);
        if revisits(m, n - 1) {
            m.update(n - 1, with_parent(m[n - 1], None))
        } else {
            m
        }
    }
}

/// A loaded object list with its parent links repaired.
pub open spec fn sanitized<B>(l: Seq<SketchObject<B>>) -> Seq<SketchObject<B>> {
    break_cycles(drop_bad_parents(l), l.len())
}

/// Every parent link names a group of the list.
pub open spec fn parents_resolve<B>(l: Seq<SketchObject<B>>) -> bool {
    forall|k: int| 0 <= k < l.len() ==> (#[trigger] l[k].parent matches Some(p) ==> has_group(l, p))
}

/// Two lists with the same ids and group flags, position by position.
pub open spec fn same_frame<B>(a: Seq<SketchObject<B>>, b: Seq<SketchObject<B>>) -> bool {
    &&& a.len() == b.len()
    &&& forall|k: int|
        #![trigger a[k]]
        #![trigger b[k]]
        0 <= k < a.len() ==> a[k].id == b[k].id && a[k].is_group == b[k].is_group
}

proof fn lemma_last_group_exists<B>(l: Seq<SketchObject<B>>, id: u64, k: int)
    requires
        0 <= k < l.len(),
        l[k].is_group && l[k].id == id,
    ensures
        exists|j: int| is_last_group(l, id, j),
    decreases l.len() - k,
{
    if exists|j: int| k < j < l.len() && l[j].is_group && l[j].id == id {
        let j = choose|j: int| k < j < l.len() && l[j].is_group && l[j].id == id;
        lemma_last_group_exists(l, id, j);
    } else {
        assert(is_last_group(l, id, k));
    }
}

/// `group_at` names the last matching group, or there is none.
pub proof fn lemma_group_at<B>(l: Seq<SketchObject<B>>, id: u64)
    ensures
        match group_at(l, id) {
            Some(j) => is_last_group(l, id, j),
            None => forall|j: int| 0 <= j < l.len() ==> !(l[j].is_group && l[j].id == id),
        },
{
    if has_group(l, id) {
        let k = choose|k: int| 0 <= k < l.len() && l[k].is_group && l[k].id == id;
        lemma_last_group_exists(l, id, k);
    }
}

proof fn lemma_last_group_unique<B>(l: Seq<SketchObject<B>>, id: u64, i: int, j: int)
    requires
        is_last_group(l, id, i),
        is_last_group(l, id, j),
    ensures
        i == j,
{
}

/// Lists with the same ids and group flags look groups up alike.
proof fn lemma_same_frame_groups<B>(a: Seq<SketchObject<B>>, b: Seq<SketchObject<B>>, id: u64)
    requires
        same_frame(a, b),
    ensures
        group_at(a, id) == group_at(b, id),
        has_group(a, id) == has_group(b, id),
{
    lemma_group_at(a, id);
    lemma_group_at(b, id);
    if has_group(a, id) {
        let i = group_at(a, id).unwrap();
        assert(b[i].is_group && b[i].id == id);
        assert(has_group(b, id));
        let j = group_at(b, id).unwrap();
        assert(is_last_group(b, id, i));
        lemma_last_group_unique(b, id, i, j);
    } else if has_group(b, id) {
        let j = choose|j: int| 0 <= j < b.len() && b[j].is_group && b[j].id == id;
        assert(a[j].is_group && a[j].id == id);
    }
}

/// Position of the group a lookup by `id` lands on.
fn group_pos<B>(objects: &Vec<SketchObject<B>>, id: u64) -> (r: Option<usize>)
    ensures
        match r {
            Some(j) => group_at(objects@, id) == Some(j as int),
            None => group_at(objects@, id) is None,
        },
{
    proof {
        lemma_group_at(objects@, id);
    }
    let mut k: usize = objects.len();
    while k > 0
        invariant
            k <= objects@.len(),
            forall|j: int| k <= j < objects@.len() ==> !(objects@[j].is_group && objects@[j].id == id),
        decreases k,
    {
        k = k - 1;
        if objects[k].is_group && objects[k].id == id {
            proof {
                assert(is_last_group(objects@, id, k as int));
                lemma_last_group_unique(objects@, id, k as int, group_at(objects@, id).unwrap());
            }
            return Some(k);
        }
    }
    None
}

fn contains_id(v: &Vec<u64>, x: u64) -> (r: bool)
    ensures
        r == v@.contains(x),
{
    let mut k: usize = 0;
    while k < v.len()
        invariant
            k <= v@.len(),
            forall|j: int| 0 <= j < k ==> v@[j] != x,
        decreases v@.len() - k,
    {
        if v[k] == x {
            return true;
        }
        k = k + 1;
    }
    false
}


/// Distinct ids, each carried by some object of `l`, are no more than
/// the objects.
pub proof fn lemma_ids_fit<B>(l: Seq<SketchObject<B>>, w: Seq<u64>)
    requires
        w.no_duplicates(),
        forall|k: int| 0 <= k < w.len() ==> has_id(l, #[trigger] w[k]),
    ensures
        w.len() <= l.len(),
{
    let ids = Seq::new(l.len(), |k: int| l[k].id);
    assert(w.to_set().subset_of(ids.to_set())) by {
        assert forall|x: u64| w.to_set().contains(x) implies ids.to_set().contains(x) by {
            assert(w.contains(x));
            let k = choose|k: int| 0 <= k < w.len() && w[k] == x;
            assert(has_id(l, w[k]));
            let j = choose|j: int| 0 <= j < l.len() && l[j].id == x;
            assert(ids[j] == x);
            assert(ids.contains(x));
        }
    }
    w.unique_seq_to_set();
    ids.lemma_cardinality_of_set();
    seq_to_set_is_finite(ids);
    lemma_len_subset(w.to_set(), ids.to_set());
}

/// A walk that has ended stays ended.
proof fn lemma_walk_ends<B>(l: Seq<SketchObject<B>>, i: int, k: nat, u: nat)
    requires
        walk_id(l, i, k) is None,
        k <= u,
    ensures
        walk_id(l, i, u) is None,
    decreases u - k,
{
    if k < u {
        lemma_walk_ends(l, i, k, (u - 1) as nat);
    }
}

/// Past its start, a walk through resolving links only meets group ids.
proof fn lemma_walk_resolves<B>(l: Seq<SketchObject<B>>, i: int, k: nat)
    requires
        parents_resolve(l),
        0 <= i < l.len(),
        k >= 1,
    ensures
        walk_id(l, i, k) matches Some(p) ==> has_group(l, p),
{
    if k == 1 {
        assert(l[i].parent == l[i].parent);
    } else if let Some(q) = walk_id(l, i, (k - 1) as nat) {
        lemma_group_at(l, q);
        if let Some(g) = group_at(l, q) {
            assert(l[g].parent == l[g].parent);
        }
    }
}

/// The first repair pass keeps ids and group flags and leaves only
/// links to groups.
proof fn lemma_drop_bad_parents<B>(l: Seq<SketchObject<B>>)
    ensures
        same_frame(l, drop_bad_parents(l)),
        parents_resolve(drop_bad_parents(l)),
{
    let m = drop_bad_parents(l);
    assert(same_frame(l, m));
    assert forall|k: int| 0 <= k < m.len() implies (#[trigger] m[k].parent matches Some(p) ==> has_group(m, p)) by {
        if let Some(p) = m[k].parent {
            lemma_same_frame_groups(l, m, p);
        }
    }
}

/// The second pass keeps ids, group flags and everything but parent
/// links, only ever clears a link, and leaves objects from `n` on alone.
proof fn lemma_break_cycles_frame<B>(l: Seq<SketchObject<B>>, n: nat)
    requires
        n <= l.len(),
    ensures
        same_frame(l, break_cycles(l, n)),
        forall|k: int| 0 <= k < l.len() ==> #[trigger] break_cycles(l, n)[k] == with_parent(l[k], break_cycles(l, n)[k].parent),
        forall|k: int| 0 <= k < l.len() ==> (#[trigger] break_cycles(l, n)[k].parent is None || break_cycles(l, n)[k].parent == l[k].parent),
        forall|k: int| n <= k < l.len() ==> #[trigger] break_cycles(l, n)[k] == l[k],
        parents_resolve(l) ==> parents_resolve(break_cycles(l, n)),
    decreases n,
{
    if n > 0 {
        lemma_break_cycles_frame(l, (n - 1) as nat);
        let m = break_cycles(l, (n - 1) as nat);
        let m2 = break_cycles(l, n);
        assert(same_frame(l, m2));
        if parents_resolve(l) {
            assert forall|k: int| 0 <= k < m2.len() implies (#[trigger] m2[k].parent matches Some(p) ==> has_group(m2, p)) by {
                if let Some(p) = m2[k].parent {
                    assert(m[k].parent == Some(p));
                    lemma_same_frame_groups(l, m2, p);
                    lemma_same_frame_groups(l, m, p);
                }
            }
        }
    }
}

/// Whether the walk up from object `i` meets an id twice.
fn walk_revisits<B>(objects: &Vec<SketchObject<B>>, i: usize) -> (r: bool)
    requires
        i < objects@.len(),
        parents_resolve(objects@),
    ensures
        r == revisits(objects@, i as int),
{
    let ghost l = objects@;
    let ghost ii = i as int;
    let mut seen: Vec<u64> = Vec::new();
    seen.push(objects[i].id);
    let mut cur: Option<u64> = objects[i].parent;
    loop
        invariant
            objects@ == l,
            ii == i as int,
            i < l.len(),
            parents_resolve(l),
            1 <= seen@.len() <= l.len(),
            forall|a: int| 0 <= a < seen@.len() ==> walk_id(l, ii, a as nat) == Some(#[trigger] seen@[a]),
            cur == walk_id(l, ii, seen@.len() as nat),
            seen@.no_duplicates(),
        decreases l.len() - seen@.len(),
    {
        match cur {
            None => {
                proof {
                    let n = seen@.len() as nat;
                    assert forall|a: nat, b: nat|
                        a < b && #[trigger] walk_id(l, ii, a) == #[trigger] walk_id(l, ii, b) implies walk_id(l, ii, b) is None by {
                        if b >= n {
                            lemma_walk_ends(l, ii, n, b);
                        } else {
                            assert(seen@[a as int] != seen@[b as int]);
                        }
                    }
                }
                return false;
            },
            Some(pid) => {
                if contains_id(&seen, pid) {
                    proof {
                        let a = choose|a: int| 0 <= a < seen@.len() && seen@[a] == pid;
                        assert(walk_id(l, ii, a as nat) == walk_id(l, ii, seen@.len() as nat));
                        assert((a as nat) < (seen@.len() as nat));
                    }
                    return true;
                }
                let ghost n = seen@.len() as nat;
                seen.push(pid);
                proof {
                    assert forall|k: int| 0 <= k < seen@.len() implies has_id(l, #[trigger] seen@[k]) by {
                        if k == 0 {
                            assert(l[ii].id == seen@[0]);
                        } else {
                            lemma_walk_resolves(l, ii, k as nat);
                            let j = choose|j: int| 0 <= j < l.len() && l[j].is_group && l[j].id == seen@[k];
                            assert(l[j].id == seen@[k]);
                        }
                    }
                    lemma_ids_fit(l, seen@);
                    lemma_group_at(l, pid);
                }
                cur = match group_pos(objects, pid) {
                    Some(g) => objects[g].parent,
                    None => None,
                };
                proof {
                    assert(walk_id(l, ii, n) == Some(pid));
                }
            },
        }
    }
}

/// Repair the parent links of a loaded object list: a dangling link, a
/// link to an object that is not a group, a link to the object itself,
/// or a link cycle (which a crafted file can write; the live model
/// refuses them) is cleared, so that the object sits at the root rather
/// than poisoning every ancestor walk.
pub fn sanitize_parents<B>(objects: &mut Vec<SketchObject<B>>)
    ensures
        final(objects)@ == sanitized(old(objects)@),
{
    let ghost l0 = objects@;
    let n = objects.len();
    let mut i: usize = 0;
    while i < n
        invariant
            n == objects@.len(),
            n == l0.len(),
            i <= n,
            same_frame(l0, objects@),
            forall|k: int| 0 <= k < i ==> objects@[k] == #[trigger] drop_bad_parents(l0)[k],
            forall|k: int| i <= k < n ==> #[trigger] objects@[k] == l0[k],
        decreases n - i,
    {
        if let Some(p) = objects[i].parent {
            let g = group_pos(objects, p);
            proof {
                lemma_same_frame_groups(l0, objects@, p);
            }
            if g.is_none() || p == objects[i].id {
                objects[i].parent = None;
            }
        }
        proof {
            assert(objects@[i as int] == drop_bad_parents(l0)[i as int]);
        }
        i = i + 1;
    }
    proof {
        assert(objects@ =~= drop_bad_parents(l0));
        lemma_drop_bad_parents(l0);
    }
    let ghost m1 = objects@;
    let mut i: usize = 0;
    while i < n
        invariant
            n == objects@.len(),
            n == m1.len(),
            n == l0.len(),
            i <= n,
            m1 == drop_bad_parents(l0),
            parents_resolve(m1),
            objects@ == break_cycles(m1, i as nat),
        decreases n - i,
    {
        proof {
            lemma_break_cycles_frame(m1, i as nat);
        }
        let hit = walk_revisits(objects, i);
        if hit {
            objects[i].parent = None;
        }
        proof {
            assert(objects@ =~= break_cycles(m1, (i + 1) as nat));
        }
        i = i + 1;
    }
}

// --- Laws of the repair -----------------------------------------------------

/// No two objects share an id.
pub open spec fn ids_distinct<B>(l: Seq<SketchObject<B>>) -> bool {
    forall|a: int, b: int| 0 <= a < b < l.len() ==> #[trigger] l[a].id != #[trigger] l[b].id
}

/// Clearing object `j`'s link leaves every walk a prefix of what it was.
proof fn lemma_detach_walk<B>(m: Seq<SketchObject<B>>, j: int, i: int, k: nat)
    requires
        0 <= i < m.len(),
        0 <= j < m.len(),
    ensures
        walk_id(m.update(j, with_parent(m[j], None)), i, k) is Some
            ==> walk_id(m.update(j, with_parent(m[j], None)), i, k) == walk_id(m, i, k),
    decreases k,
{
    let m2 = m.update(j, with_parent(m[j], None));
    if k >= 2 {
        lemma_detach_walk(m, j, i, (k - 1) as nat);
        if let Some(p) = walk_id(m2, i, (k - 1) as nat) {
            assert(same_frame(m, m2));
            lemma_same_frame_groups(m, m2, p);
            lemma_group_at(m, p);
        }
    }
}

/// Clearing a link never makes a walk meet an id twice.
proof fn lemma_detach_no_new_revisit<B>(m: Seq<SketchObject<B>>, j: int, i: int)
    requires
        0 <= i < m.len(),
        0 <= j < m.len(),
        !revisits(m, i),
    ensures
        !revisits(m.update(j, with_parent(m[j], None)), i),
{
    let m2 = m.update(j, with_parent(m[j], None));
    if revisits(m2, i) {
        let (a, b) = choose|a: nat, b: nat|
            a < b && #[trigger] walk_id(m2, i, a) == #[trigger] walk_id(m2, i, b) && walk_id(m2, i, b) is Some;
        lemma_detach_walk(m, j, i, a);
        lemma_detach_walk(m, j, i, b);
        assert(walk_id(m, i, a) == walk_id(m, i, b));
    }
}

/// After the second pass has handled the first `n` objects, none of
/// their walks meets an id twice.
proof fn lemma_break_cycles_clean<B>(l: Seq<SketchObject<B>>, n: nat)
    requires
        n <= l.len(),
    ensures
        forall|k: int| 0 <= k < n ==> !revisits(break_cycles(l, n), k),
    decreases n,
{
    if n > 0 {
        lemma_break_cycles_clean(l, (n - 1) as nat);
        lemma_break_cycles_frame(l, (n - 1) as nat);
        let m = break_cycles(l, (n - 1) as nat);
        let m2 = break_cycles(l, n);
        let last = n - 1;
        if revisits(m, last) {
            assert forall|k: int| 0 <= k < n implies !revisits(m2, k) by {
                if k < last {
                    lemma_detach_no_new_revisit(m, last, k);
                } else {
                    assert(walk_id(m2, last, 1) is None);
                    assert forall|a: nat, b: nat|
                        a < b && #[trigger] walk_id(m2, last, a) == #[trigger] walk_id(m2, last, b)
                        implies walk_id(m2, last, b) is None by {
                        lemma_walk_ends(m2, last, 1, b);
                    }
                }
            }
        }
    }
}

/// Repairing a loaded list only ever clears parent links (ids, flags,
/// bodies and order stay), and every link left names a group of the
/// list other than the object itself.
pub proof fn lemma_sanitize_only_clears<B>(l: Seq<SketchObject<B>>)
    ensures
        sanitized(l).len() == l.len(),
        forall|k: int| 0 <= k < l.len() ==> #[trigger] sanitized(l)[k] == with_parent(l[k], sanitized(l)[k].parent),
        forall|k: int| 0 <= k < l.len() ==> (#[trigger] sanitized(l)[k].parent is None || sanitized(l)[k].parent == l[k].parent),
        parents_resolve(sanitized(l)),
        forall|k: int| 0 <= k < l.len() ==> (#[trigger] sanitized(l)[k].parent matches Some(p) ==> p != l[k].id),
{
    let m1 = drop_bad_parents(l);
    lemma_drop_bad_parents(l);
    lemma_break_cycles_frame(m1, l.len());
    let s = sanitized(l);
    assert forall|k: int| 0 <= k < l.len() implies #[trigger] s[k] == with_parent(l[k], s[k].parent) by {
        assert(s[k] == with_parent(m1[k], s[k].parent));
    }
}

/// Object `i`'s walk up `l` is already sound: every link it follows
/// names a group of `l`, and no id comes round twice (so no link names
/// the object it leaves).
pub open spec fn sound_chain<B>(l: Seq<SketchObject<B>>, i: int) -> bool {
    &&& !revisits(l, i)
    &&& forall|k: nat| k >= 1 ==> (#[trigger] walk_id(l, i, k) matches Some(p) ==> has_group(l, p))
}

/// Along a sound walk, the first repair pass changes nothing the walk
/// follows.
proof fn lemma_sound_walk_kept<B>(l: Seq<SketchObject<B>>, i: int, k: nat)
    requires
        0 <= i < l.len(),
        sound_chain(l, i),
    ensures
        walk_id(drop_bad_parents(l), i, k) == walk_id(l, i, k),
    decreases k,
{
    let m = drop_bad_parents(l);
    lemma_drop_bad_parents(l);
    if k == 1 {
        if let Some(p) = l[i].parent {
            assert(walk_id(l, i, 1) == Some(p));
            assert(walk_id(l, i, 0) == Some(l[i].id));
            if p == l[i].id {
                assert(revisits(l, i));
            }
        }
    } else if k >= 2 {
        lemma_sound_walk_kept(l, i, (k - 1) as nat);
        if let Some(q) = walk_id(l, i, (k - 1) as nat) {
            lemma_same_frame_groups(l, m, q);
            if let Some(g) = group_at(l, q) {
                lemma_group_at(l, q);
                assert(l[g].id == q);
                assert(walk_id(l, i, k) == l[g].parent);
                if let Some(p) = l[g].parent {
                    assert(has_group(l, p));
                    if p == q {
                        assert(walk_id(l, i, (k - 1) as nat) == walk_id(l, i, k));
                        assert(revisits(l, i));
                    }
                }
            }
        }
    }
}

/// Later passes of the repair never detach an object whose walk does
/// not meet an id twice, and never make it do so.
proof fn lemma_break_cycles_keeps<B>(m: Seq<SketchObject<B>>, i: int, n: nat)
    requires
        0 <= i < m.len(),
        n <= m.len(),
        !revisits(m, i),
    ensures
        !revisits(break_cycles(m, n), i),
        break_cycles(m, n)[i] == m[i],
        break_cycles(m, n).len() == m.len(),
    decreases n,
{
    if n > 0 {
        lemma_break_cycles_keeps(m, i, (n - 1) as nat);
        let b = break_cycles(m, (n - 1) as nat);
        if revisits(b, n - 1) {
            assert(n - 1 != i);
            lemma_detach_no_new_revisit(b, n - 1, i);
        }
    }
}

/// The repair keeps every parent link whose walk was already sound: an
/// object whose chain of links names groups all the way up without a
/// cycle keeps its parent.
pub proof fn lemma_sanitize_keeps_sound<B>(l: Seq<SketchObject<B>>, i: int)
    requires
        0 <= i < l.len(),
        sound_chain(l, i),
    ensures
        sanitized(l)[i].parent == l[i].parent,
{
    let m = drop_bad_parents(l);
    assert forall|k: nat| #[trigger] walk_id(m, i, k) == walk_id(l, i, k) by {
        lemma_sound_walk_kept(l, i, k);
    }
    if revisits(m, i) {
        let (a, b) = choose|a: nat, b: nat|
            a < b && #[trigger] walk_id(m, i, a) == #[trigger] walk_id(m, i, b) && walk_id(m, i, b) is Some;
        assert(walk_id(l, i, a) == walk_id(l, i, b));
        assert(revisits(l, i));
    }
    lemma_break_cycles_keeps(m, i, l.len());
    lemma_sound_walk_kept(l, i, 1);
    assert(walk_id(m, i, 1) == m[i].parent);
}

/// After the repair no walk up the tree meets an id twice.
pub proof fn lemma_sanitize_breaks_cycles<B>(l: Seq<SketchObject<B>>)
    ensures
        forall|k: int| 0 <= k < l.len() ==> !revisits(sanitized(l), k),
{
    lemma_break_cycles_clean(drop_bad_parents(l), l.len());
}

/// With distinct ids, a resolving walk follows the model's ancestor
/// links exactly.
proof fn lemma_walk_is_ancestry<B>(s: Seq<SketchObject<B>>, i: int, t: nat)
    requires
        ids_distinct(s),
        parents_resolve(s),
        0 <= i < s.len(),
    ensures
        match ancestor_at(s, i, t) {
            Some(j) => 0 <= j < s.len() && walk_id(s, i, t) == Some(s[j].id),
            None => walk_id(s, i, t) is None,
        },
    decreases t,
{
    if t >= 1 {
        lemma_walk_is_ancestry(s, i, (t - 1) as nat);
        if let Some(j) = ancestor_at(s, i, (t - 1) as nat) {
            if t >= 2 {
                lemma_walk_resolves(s, i, (t - 1) as nat);
                lemma_group_at(s, s[j].id);
                let g = group_at(s, s[j].id).unwrap();
                if g != j {
                    if g < j {
                        assert(s[g].id != s[j].id);
                    } else {
                        assert(s[j].id != s[g].id);
                    }
                }
            }
            assert(s[j].parent == s[j].parent);
            if let Some(p) = s[j].parent {
                lemma_index_of(s, p);
            }
        }
    }
}

/// With distinct ids, the repaired list's ancestor links have no
/// cycle: every walk ends within as many hops as there are objects.
pub proof fn lemma_sanitize_acyclic<B>(l: Seq<SketchObject<B>>)
    requires
        ids_distinct(l),
    ensures
        acyclic(sanitized(l)),
        forall|i: int| 0 <= i < l.len() ==> #[trigger] ancestor_at(sanitized(l), i, l.len() as nat) is None,
{
    let s = sanitized(l);
    let n = l.len() as nat;
    lemma_sanitize_only_clears(l);
    lemma_sanitize_breaks_cycles(l);
    assert(ids_distinct(s)) by {
        assert forall|a: int, b: int| 0 <= a < b < s.len() implies #[trigger] s[a].id != #[trigger] s[b].id by {
            assert(s[a] == with_parent(l[a], s[a].parent));
            assert(s[b] == with_parent(l[b], s[b].parent));
        }
    }
    assert forall|i: int| 0 <= i < l.len() implies #[trigger] ancestor_at(s, i, n) is None by {
        if ancestor_at(s, i, n) is Some {
            assert forall|t: nat| t <= n implies #[trigger] ancestor_at(s, i, t) is Some by {
                if ancestor_at(s, i, t) is None {
                    lemma_ancestor_ends(s, i, t, n);
                }
            }
            let w = Seq::new(n + 1, |t: int| walk_id(s, i, t as nat).unwrap());
            assert forall|t: int| 0 <= t <= n implies #[trigger] walk_id(s, i, t as nat) == Some(w[t]) by {
                assert(ancestor_at(s, i, t as nat) is Some);
                lemma_walk_is_ancestry(s, i, t as nat);
            }
            assert(w.no_duplicates()) by {
                assert forall|a: int, b: int| 0 <= a < w.len() && 0 <= b < w.len() && a != b implies w[a] != w[b] by {
                    assert(walk_id(s, i, a as nat) == Some(w[a]));
                    assert(walk_id(s, i, b as nat) == Some(w[b]));
                    if w[a] == w[b] {
                        if a < b {
                            assert(revisits(s, i));
                        } else {
                            assert(walk_id(s, i, b as nat) == walk_id(s, i, a as nat));
                            assert(revisits(s, i));
                        }
                    }
                }
            }
            assert forall|k: int| 0 <= k < w.len() implies has_id(s, #[trigger] w[k]) by {
                assert(walk_id(s, i, k as nat) == Some(w[k]));
                if k == 0 {
                    assert(s[i].id == w[k]);
                } else {
                    lemma_walk_resolves(s, i, k as nat);
                    let j = choose|j: int| 0 <= j < s.len() && s[j].is_group && s[j].id == w[k];
                    assert(s[j].id == w[k]);
                }
            }
            lemma_ids_fit(s, w);
        }
    }
    assert forall|i: int| 0 <= i < s.len() implies chain_ends(s, i) by {
        assert(ancestor_at(s, i, n) is None);
    }
}
} // verus!

//! The editor's selection: an ordered set of object ids (insertion
//! order, the last one primary), its writers, and the tree-aware
//! readings the tools take of it (what may be edited, what transforms,
//! which object a click on a leaf picks).

use vstd::prelude::*;
use crate::model::{SketchModel, SketchObject, has_id, descends, flag_inherited, ids_upto, chain_ids, index_of, depth_upto, is_group_id, pickable, MAX_DEPTH};

verus! {

/// The ids of `s` that satisfy `p`, in order.
pub open spec fn kept(s: Seq<u64>, p: spec_fn(u64) -> bool) -> Seq<u64>
    decreases s.len(),
{
    if s.len() == 0 {
        s
    } else {
        let r = kept(s.drop_last(), p);
        if p(s.last()) {
            r.push(s.last())
        } else {
            r
        }
    }
}

/// The predicate "is not `id`".
pub open spec fn ne_id(id: u64) -> spec_fn(u64) -> bool {
    |x: u64| x != id
}

/// The predicate "is `id`".
pub open spec fn eq_id(id: u64) -> spec_fn(u64) -> bool {
    |x: u64| x == id
}

/// The predicate "occurs in `s`".
pub open spec fn in_seq(s: Seq<u64>) -> spec_fn(u64) -> bool {
    |x: u64| s.contains(x)
}

/// `s` without `id`.
pub open spec fn without(s: Seq<u64>, id: u64) -> Seq<u64> {
    kept(s, ne_id(id))
}

/// What `kept` holds: exactly the ids of `s` that satisfy `p`, no more
/// of them than `s` has, and no id twice if `s` has none twice.
pub proof fn lemma_kept(s: Seq<u64>, p: spec_fn(u64) -> bool)
    ensures
        forall|x: u64| #[trigger] kept(s, p).contains(x) <==> s.contains(x) && p(x),
        kept(s, p).len() <= s.len(),
        s.no_duplicates() ==> kept(s, p).no_duplicates(),
    decreases s.len(),
{
    if s.len() > 0 {
        let s0 = s.drop_last();
        lemma_kept(s0, p);
        let r = kept(s0, p);
        assert forall|x: u64| #[trigger] kept(s, p).contains(x) <==> s.contains(x) && p(x) by {
            if s.contains(x) && p(x) {
                let k = choose|k: int| 0 <= k < s.len() && s[k] == x;
                if k < s.len() - 1 {
                    assert(s0[k] == x);
                    assert(r.contains(x));
                    if p(s.last()) {
                        assert(r.push(s.last())[r.len() - 1 + 0] == r[r.len() - 1]);
                        let j = choose|j: int| 0 <= j < r.len() && r[j] == x;
                        assert(r.push(s.last())[j] == x);
                    }
                } else {
                    assert(kept(s, p).last() == x);
                }
            }
            if kept(s, p).contains(x) {
                let j = choose|j: int| 0 <= j < kept(s, p).len() && kept(s, p)[j] == x;
                if p(s.last()) && j == r.len() {
                    assert(s[s.len() - 1] == x);
                } else {
                    assert(r[j] == x);
                    assert(r.contains(x));
                    let k = choose|k: int| 0 <= k < s0.len() && s0[k] == x;
                    assert(s[k] == x);
                }
            }
        }
        if s.no_duplicates() {
            assert(s0.no_duplicates());
            if p(s.last()) {
                assert(!s0.contains(s.last()));
                assert(!r.contains(s.last()));
                assert forall|a: int, b: int| 0 <= a < b < r.len() + 1 implies r.push(s.last())[a] != r.push(s.last())[b] by {
                    if b == r.len() {
                        assert(r[a] != s.last());
                    }
                }
            }
        }
    }
}

/// Index of the first entry of `s` that satisfies `p`, if any.
pub open spec fn first_where(s: Seq<u64>, p: spec_fn(u64) -> bool) -> Option<int>
    decreases s.len(),
{
    if s.len() == 0 {
        None
    } else if p(s[0]) {
        Some(0)
    } else {
        match first_where(s.drop_first(), p) {
            Some(k) => Some(k + 1),
            None => None,
        }
    }
}

/// `first_where` names the first match, or there is none.
proof fn lemma_first_where(s: Seq<u64>, p: spec_fn(u64) -> bool)
    ensures
        match first_where(s, p) {
            Some(k) => 0 <= k < s.len() && p(s[k]) && forall|j: int| 0 <= j < k ==> !p(#[trigger] s[j]),
            None => forall|j: int| 0 <= j < s.len() ==> !p(#[trigger] s[j]),
        },
    decreases s.len(),
{
    if s.len() > 0 && !p(s[0]) {
        lemma_first_where(s.drop_first(), p);
        assert forall|j: int| 1 <= j < s.len() implies s[j] == s.drop_first()[j - 1] by {}
    }
}

/// Index of the first entry of `s` that satisfies `p` (scanning in
/// order), given what `p` is on each entry.
proof fn lemma_first_where_at(s: Seq<u64>, p: spec_fn(u64) -> bool, k: int)
    requires
        0 <= k < s.len(),
        p(s[k]),
        forall|j: int| 0 <= j < k ==> !p(#[trigger] s[j]),
    ensures
        first_where(s, p) == Some(k),
{
    lemma_first_where(s, p);
    if let Some(m) = first_where(s, p) {
        if m < k {
            assert(!p(s[m]));
        } else if m > k {
            assert(!p(s[k]));
        }
    }
}

/// The object a click on `leaf` selects, given the selection and the
/// entered group: the first id on the leaf's ancestor chain that is
/// already selected (a second click drags the group, not a member), else
/// the chain entry just below the entered group, else the outermost.
pub open spec fn pick_of(chain: Seq<u64>, sel: Seq<u64>, entered: Option<u64>) -> u64 {
    match first_where(chain, in_seq(sel)) {
        Some(k) => chain[k],
        None => scope_of(chain, entered),
    }
}

/// The chain entry just below the entered group when the chain passes
/// through it above its start, else the chain's last (outermost) entry.
pub open spec fn scope_of(chain: Seq<u64>, entered: Option<u64>) -> u64 {
    match entered {
        Some(e) => match first_where(chain, eq_id(e)) {
            Some(pos) => if pos > 0 {
                chain[pos - 1]
            } else {
                chain.last()
            },
            None => chain.last(),
        },
        None => chain.last(),
    }
}

/// The chain entry just below `group`, or `leaf` when the chain does
/// not pass through `group` above its start.
pub open spec fn toward_of(chain: Seq<u64>, group: u64, leaf: u64) -> u64 {
    match first_where(chain, eq_id(group)) {
        Some(pos) => if pos > 0 {
            chain[pos - 1]
        } else {
            leaf
        },
        None => leaf,
    }
}

/// The selected ids: distinct, in insertion order; the last is the
/// primary.
pub struct Selection {
    ids: Vec<u64>,
}

impl View for Selection {
    type V = Seq<u64>;

    closed spec fn view(&self) -> Seq<u64> {
        self.ids@
    }
}

impl Selection {
    #[verifier::type_invariant]
    spec fn distinct(self) -> bool {
        self.ids@.no_duplicates()
    }

    /// An empty selection.
    pub fn new() -> (s: Selection)
        ensures
            s@ == Seq::<u64>::empty(),
    {
        Selection { ids: Vec::new() }
    }

    /// The selected ids in insertion order.
    pub fn as_slice(&self) -> (r: &[u64])
        ensures
            r@ == self@,
            r@.no_duplicates(),
    {
        proof {
            use_type_invariant(self);
        }
        self.ids.as_slice()
    }

    /// How many objects are selected.
    pub fn len(&self) -> (r: usize)
        ensures
            r == self@.len(),
    {
        self.ids.len()
    }

    /// Whether nothing is selected.
    pub fn is_empty(&self) -> (r: bool)
        ensures
            r == (self@.len() == 0),
    {
        self.ids.len() == 0
    }

    /// Whether the object `id` is selected.
    pub fn contains(&self, id: u64) -> (r: bool)
        ensures
            r == self@.contains(id),
    {
        let mut k: usize = 0;
        while k < self.ids.len()
            invariant
                k <= self.ids@.len(),
                forall|j: int| 0 <= j < k ==> self.ids@[j] != id,
            decreases self.ids@.len() - k,
        {
            if self.ids[k] == id {
                return true;
            }
            k = k + 1;
        }
        false
    }

    /// The primary selected id: the last one added.
    pub fn primary(&self) -> (r: Option<u64>)
        ensures
            r == (if self@.len() > 0 { Some(self@.last()) } else { None }),
    {
        if self.ids.len() > 0 {
            Some(self.ids[self.ids.len() - 1])
        } else {
            None
        }
    }

    /// The selected id when exactly one is selected.
    pub fn single(&self) -> (r: Option<u64>)
        ensures
            r == (if self@.len() == 1 { Some(self@[0]) } else { None }),
    {
        if self.ids.len() == 1 {
            Some(self.ids[0])
        } else {
            None
        }
    }

    /// Select `id` alone.
    pub fn select_only(&mut self, id: u64)
        ensures
            final(self)@ == seq![id],
    {
        let mut v: Vec<u64> = Vec::new();
        v.push(id);
        proof {
            assert(v@ =~= seq![id]);
        }
        self.ids = v;
    }

    /// Add `id` at the end unless it is already selected.
    pub fn select_add(&mut self, id: u64)
        ensures
            final(self)@ == (if old(self)@.contains(id) { old(self)@ } else { old(self)@.push(id) }),
    {
        proof {
            use_type_invariant(&*self);
        }
        if !self.contains(id) {
            let mut v = self.take_ids();
            v.push(id);
            proof {
                assert forall|a: int, b: int| 0 <= a < b < v@.len() implies v@[a] != v@[b] by {
                    if b == v@.len() - 1 {
                        assert(old(self)@[a] != id);
                    }
                }
            }
            self.ids = v;
        }
    }

    /// Shift-click: drop `id` when selected, else add it at the end.
    pub fn select_toggle(&mut self, id: u64)
        ensures
            final(self)@ == (if old(self)@.contains(id) { without(old(self)@, id) } else { old(self)@.push(id) }),
    {
        if self.contains(id) {
            self.deselect(id);
        } else {
            self.select_add(id);
        }
    }

    /// Drop `id` from the selection.
    pub fn deselect(&mut self, id: u64)
        ensures
            final(self)@ == without(old(self)@, id),
    {
        proof {
            use_type_invariant(&*self);
            lemma_kept(self.ids@, ne_id(id));
        }
        let old_ids = self.take_ids();
        let mut v: Vec<u64> = Vec::new();
        let mut k: usize = 0;
        while k < old_ids.len()
            invariant
                k <= old_ids@.len(),
                v@ == kept(old_ids@.subrange(0, k as int), ne_id(id)),
            decreases old_ids@.len() - k,
        {
            proof {
                assert(old_ids@.subrange(0, k + 1).drop_last() =~= old_ids@.subrange(0, k as int));
            }
            if old_ids[k] != id {
                v.push(old_ids[k]);
            }
            k = k + 1;
        }
        proof {
            assert(old_ids@.subrange(0, old_ids@.len() as int) =~= old_ids@);
        }
        self.ids = v;
    }

    /// Clear the selection.
    pub fn deselect_all(&mut self)
        ensures
            final(self)@ == Seq::<u64>::empty(),
    {
        self.ids = Vec::new();
    }

    /// Move the ids out, leaving the selection empty.
    fn take_ids(&mut self) -> (r: Vec<u64>)
        ensures
            r@ == old(self)@,
            r@.no_duplicates(),
            final(self)@ == Seq::<u64>::empty(),
    {
        proof {
            use_type_invariant(&*self);
        }
        let mut v: Vec<u64> = Vec::new();
        std::mem::swap(&mut v, &mut self.ids);
        v
    }

    /// Drop ids that no longer resolve (after undo, redo or a load).
    pub fn prune<B>(&mut self, model: &SketchModel<B>)
        ensures
            final(self)@ == kept(old(self)@, |id: u64| has_id(model.objs(), id)),
    {
        let ghost p = |id: u64| has_id(model.objs(), id);
        proof {
            use_type_invariant(&*self);
            lemma_kept(self.ids@, p);
        }
        let old_ids = self.take_ids();
        let mut v: Vec<u64> = Vec::new();
        let mut k: usize = 0;
        while k < old_ids.len()
            invariant
                k <= old_ids@.len(),
                p == (|id: u64| has_id(model.objs(), id)),
                v@ == kept(old_ids@.subrange(0, k as int), p),
            decreases old_ids@.len() - k,
        {
            proof {
                assert(old_ids@.subrange(0, k + 1).drop_last() =~= old_ids@.subrange(0, k as int));
            }
            if model.find(old_ids[k]).is_some() {
                v.push(old_ids[k]);
            }
            k = k + 1;
        }
        proof {
            assert(old_ids@.subrange(0, old_ids@.len() as int) =~= old_ids@);
        }
        self.ids = v;
    }

    /// The selected ids that may be edited: those that resolve and are
    /// not locked, by their own flag or an ancestor's.
    pub fn editable<B>(&self, model: &SketchModel<B>) -> (r: Vec<u64>)
        ensures
            r@ == kept(self@, |id: u64| has_id(model.objs(), id) && !flag_inherited(model.objs(), id, false)),
    {
        let ghost p = |id: u64| has_id(model.objs(), id) && !flag_inherited(model.objs(), id, false);
        let mut v: Vec<u64> = Vec::new();
        let mut k: usize = 0;
        while k < self.ids.len()
            invariant
                k <= self.ids@.len(),
                p == (|id: u64| has_id(model.objs(), id) && !flag_inherited(model.objs(), id, false)),
                v@ == kept(self.ids@.subrange(0, k as int), p),
            decreases self.ids@.len() - k,
        {
            proof {
                assert(self.ids@.subrange(0, k + 1).drop_last() =~= self.ids@.subrange(0, k as int));
            }
            let id = self.ids[k];
            if model.find(id).is_some() && !model.eff_locked(id) {
                v.push(id);
            }
            k = k + 1;
        }
        proof {
            assert(self.ids@.subrange(0, self.ids@.len() as int) =~= self.ids@);
        }
        v
    }

    /// The editable selection reduced to its outermost members: when a
    /// group and one of its descendants are both selected, only the
    /// group transforms (the descendant follows it).
    pub fn transform_targets<B>(&self, model: &SketchModel<B>) -> (r: Vec<u64>)
        ensures
            ({
                let sel = kept(self@, |id: u64| has_id(model.objs(), id) && !flag_inherited(model.objs(), id, false));
                r@ == outermost(model.objs(), sel)
            }),
    {
        let sel = self.editable(model);
        let ghost p = |id: u64| forall|j: int| 0 <= j < sel@.len() ==> sel@[j] == id || !descends(model.objs(), id, #[trigger] sel@[j]);
        let mut v: Vec<u64> = Vec::new();
        let mut k: usize = 0;
        while k < sel.len()
            invariant
                k <= sel@.len(),
                p == (|id: u64| forall|j: int| 0 <= j < sel@.len() ==> sel@[j] == id || !descends(model.objs(), id, #[trigger] sel@[j])),
                v@ == kept(sel@.subrange(0, k as int), p),
            decreases sel@.len() - k,
        {
            proof {
                assert(sel@.subrange(0, k + 1).drop_last() =~= sel@.subrange(0, k as int));
            }
            let id = sel[k];
            let mut inner = false;
            let mut j: usize = 0;
            while j < sel.len()
                invariant
                    j <= sel@.len(),
                    id == sel@[k as int],
                    k < sel@.len(),
                    !inner <==> forall|m: int| 0 <= m < j ==> sel@[m] == id || !descends(model.objs(), id, #[trigger] sel@[m]),
                decreases sel@.len() - j,
            {
                if sel[j] != id && model.is_descendant(id, sel[j]) {
                    inner = true;
                }
                j = j + 1;
            }
            if !inner {
                v.push(id);
            }
            k = k + 1;
        }
        proof {
            assert(sel@.subrange(0, sel@.len() as int) =~= sel@);
        }
        v
    }

    /// What a click on the hit `leaf` selects: something already
    /// selected on its ancestor chain, else the object one level below
    /// the entered group, else the outermost group.
    pub fn pick_target<B>(&self, model: &SketchModel<B>, entered: Option<u64>, leaf: u64) -> (r: u64)
        ensures
            r == pick_of(chain_ids(model.objs(), leaf, 64), self@, entered),
    {
        let chain = model.ancestor_chain(leaf);
        let ghost p = in_seq(self@);
        let mut k: usize = 0;
        while k < chain.len()
            invariant
                k <= chain@.len(),
                chain@ == chain_ids(model.objs(), leaf, 64),
                p == in_seq(self@),
                forall|j: int| 0 <= j < k ==> !p(#[trigger] chain@[j]),
            decreases chain@.len() - k,
        {
            if self.contains(chain[k]) {
                proof {
                    lemma_first_where_at(chain@, p, k as int);
                }
                return chain[k];
            }
            k = k + 1;
        }
        proof {
            lemma_first_where(chain@, p);
            if let Some(m) = first_where(chain@, p) {
                assert(!p(chain@[m]));
            }
        }
        scope_in(&chain, entered)
    }
}

/// The outermost members of `sel`: those no other member is an
/// ancestor of.
pub open spec fn outermost<B>(l: Seq<crate::model::SketchObject<B>>, sel: Seq<u64>) -> Seq<u64> {
    kept(sel, |id: u64| forall|j: int| 0 <= j < sel.len() ==> sel[j] == id || !descends(l, id, #[trigger] sel[j]))
}

/// Position of the first `x` in `v`.
fn position_of(v: &Vec<u64>, x: u64) -> (r: Option<usize>)
    ensures
        match r {
            Some(k) => first_where(v@, eq_id(x)) == Some(k as int),
            None => first_where(v@, eq_id(x)) is None,
        },
{
    let ghost p = eq_id(x);
    let mut k: usize = 0;
    while k < v.len()
        invariant
            k <= v@.len(),
            p == eq_id(x),
            forall|j: int| 0 <= j < k ==> !p(#[trigger] v@[j]),
        decreases v@.len() - k,
    {
        if v[k] == x {
            proof {
                lemma_first_where_at(v@, p, k as int);
            }
            return Some(k);
        }
        k = k + 1;
    }
    proof {
        lemma_first_where(v@, p);
        if let Some(m) = first_where(v@, p) {
            assert(!p(v@[m]));
        }
    }
    None
}

fn scope_in(chain: &Vec<u64>, entered: Option<u64>) -> (r: u64)
    requires
        chain@.len() >= 1,
    ensures
        r == scope_of(chain@, entered),
{
    if let Some(e) = entered {
        if let Some(pos) = position_of(chain, e) {
            proof {
                lemma_first_where(chain@, eq_id(e));
            }
            if pos > 0 {
                return chain[pos - 1];
            }
        }
    }
    chain[chain.len() - 1]
}

/// The direct child of `group` on the way down to `leaf` (or `leaf`
/// itself when `group` is not above it).
pub fn child_toward<B>(model: &SketchModel<B>, group: u64, leaf: u64) -> (r: u64)
    ensures
        r == toward_of(chain_ids(model.objs(), leaf, 64), group, leaf),
{
    let chain = model.ancestor_chain(leaf);
    match position_of(&chain, group) {
        Some(pos) => {
            proof {
                lemma_first_where(chain@, eq_id(group));
            }
            if pos > 0 {
                chain[pos - 1]
            } else {
                leaf
            }
        },
        None => leaf,
    }
}

/// The band-select scope for a hit `leaf`: one level below the entered
/// group when the leaf is inside it, else the outermost ancestor.
pub fn band_scope<B>(model: &SketchModel<B>, entered: Option<u64>, leaf: u64) -> (r: u64)
    ensures
        r == scope_of(chain_ids(model.objs(), leaf, 64), entered),
{
    let chain = model.ancestor_chain(leaf);
    scope_in(&chain, entered)
}

/// `ids` with every descendant added: the model's objects, in model
/// order, that are listed or sit below a listed id (deletes, copies and
/// z-order moves act on whole subtrees).
pub fn expand_subtrees<B>(model: &SketchModel<B>, ids: &[u64]) -> (r: Vec<u64>)
    ensures
        r@ == ids_upto(
            model.objs(),
            model.objs().len() as int,
            |k: int| ids@.contains(model.objs()[k].id) || exists|a: int| 0 <= a < ids@.len() && descends(model.objs(), model.objs()[k].id, #[trigger] ids@[a]),
        ),
{
    let ghost l = model.objs();
    let ghost pred = |k: int| ids@.contains(l[k].id) || exists|a: int| 0 <= a < ids@.len() && descends(l, l[k].id, #[trigger] ids@[a]);
    let mut r: Vec<u64> = Vec::new();
    let n = model.len();
    let mut k: usize = 0;
    while k < n
        invariant
            l == model.objs(),
            n == l.len(),
            k <= n,
            pred == (|k: int| ids@.contains(l[k].id) || exists|a: int| 0 <= a < ids@.len() && descends(l, l[k].id, #[trigger] ids@[a])),
            r@ == ids_upto(l, k as int, pred),
        decreases n - k,
    {
        let oid = model.id_at(k);
        let mut hit = false;
        let mut a: usize = 0;
        while a < ids.len()
            invariant
                a <= ids@.len(),
                oid == l[k as int].id,
                k < l.len(),
                l == model.objs(),
                hit <==> exists|b: int| 0 <= b < a && (ids@[b] == oid || descends(l, oid, #[trigger] ids@[b])),
            decreases ids@.len() - a,
        {
            if ids[a] == oid || model.is_descendant(oid, ids[a]) {
                hit = true;
            }
            a = a + 1;
        }
        proof {
            if hit {
                let b = choose|b: int| 0 <= b < ids@.len() && (ids@[b] == oid || descends(l, oid, #[trigger] ids@[b]));
                if ids@[b] == oid {
                    assert(ids@.contains(oid));
                }
            } else {
                if ids@.contains(oid) {
                    let b = choose|b: int| 0 <= b < ids@.len() && ids@[b] == oid;
                    assert(ids@[b] == oid || descends(l, oid, ids@[b]));
                }
            }
            assert(pred(k as int) == hit);
        }
        if hit {
            r.push(oid);
        }
        k = k + 1;
    }
    r
}


// --- Z-order moves ----------------------------------------------------------

/// Positions `k < j` whose flag is `b`, ascending.
pub open spec fn picks(f: Seq<bool>, b: bool, j: int) -> Seq<int>
    decreases j,
{
    if j <= 0 {
        Seq::empty()
    } else {
        let r = picks(f, b, j - 1);
        if f[j - 1] == b {
            r.push(j - 1)
        } else {
            r
        }
    }
}

/// Start of the run of set flags that ends just before `j`.
pub open spec fn run_start(f: Seq<bool>, j: int) -> int
    decreases j,
{
    if j > 0 && f[j - 1] {
        run_start(f, j - 1)
    } else {
        j
    }
}

/// End of the run of set flags that starts at `i` (below `n`).
pub open spec fn run_end(f: Seq<bool>, i: int, n: int) -> int
    decreases n - i,
{
    if 0 <= i < n && f[i] {
        run_end(f, i + 1, n)
    } else {
        i
    }
}

/// The positions `lo..hi` in order.
pub open spec fn span(lo: int, hi: int) -> Seq<int> {
    Seq::new((hi - lo) as nat, |k: int| lo + k)
}

/// A run ends no later than where it is looked up.
pub proof fn lemma_run_start_le(f: Seq<bool>, j: int)
    ensures
        run_start(f, j) <= j,
        j >= 0 ==> run_start(f, j) >= 0,
    decreases j,
{
    if j > 0 && f[j - 1] {
        lemma_run_start_le(f, j - 1);
    }
}

/// A run starts no earlier than where it is looked up.
pub proof fn lemma_run_end_ge(f: Seq<bool>, i: int, n: int)
    ensures
        run_end(f, i, n) >= i,
        i <= n ==> run_end(f, i, n) <= n,
    decreases n - i,
{
    if 0 <= i < n && f[i] {
        lemma_run_end_ge(f, i + 1, n);
    }
}

/// Positions `0..j` after raising every run of flagged objects one slot:
/// each run trades places with the unflagged object just above it.
pub open spec fn raised(f: Seq<bool>, j: int) -> Seq<int>
    decreases j,
{
    if j <= 0 {
        Seq::empty()
    } else if f[j - 1] {
        raised(f, j - 1).push(j - 1)
    } else {
        let s = run_start(f, j - 1);
        proof {
            lemma_run_start_le(f, j - 1);
        }
        raised(f, s) + seq![j - 1] + span(s, j - 1)
    }
}

/// Positions `i..n` after lowering every run of flagged objects one
/// slot: each run trades places with the unflagged object just below it.
pub open spec fn lowered(f: Seq<bool>, i: int, n: int) -> Seq<int>
    decreases n - i,
{
    if i >= n {
        Seq::empty()
    } else if f[i] {
        seq![i] + lowered(f, i + 1, n)
    } else {
        let e = run_end(f, i + 1, n);
        proof {
            lemma_run_end_ge(f, i + 1, n);
        }
        span(i + 1, e) + seq![i] + lowered(f, e, n)
    }
}

/// The new bottom-to-top order of positions for a z-order move of the
/// flagged objects: 2 to the top, -2 to the bottom, 1 up one slot, any
/// other value down one slot; flagged and unflagged objects each keep
/// their relative order.
pub open spec fn zorder_spec(f: Seq<bool>, dir: i8) -> Seq<int> {
    let n = f.len() as int;
    if dir == 2 {
        picks(f, false, n) + picks(f, true, n)
    } else if dir == -2 {
        picks(f, true, n) + picks(f, false, n)
    } else if dir == 1 {
        raised(f, n)
    } else {
        lowered(f, 0, n)
    }
}

/// `s` lists each of the positions `lo..hi` exactly once.
pub open spec fn covers(s: Seq<int>, lo: int, hi: int) -> bool {
    &&& s.len() == hi - lo
    &&& s.no_duplicates()
    &&& forall|k: int| 0 <= k < s.len() ==> lo <= #[trigger] s[k] < hi
}

proof fn lemma_run_start(f: Seq<bool>, j: int)
    requires
        0 <= j <= f.len(),
    ensures
        0 <= run_start(f, j) <= j,
        forall|k: int| run_start(f, j) <= k < j ==> #[trigger] f[k],
        run_start(f, j) > 0 ==> !f[run_start(f, j) - 1],
    decreases j,
{
    if j > 0 && f[j - 1] {
        lemma_run_start(f, j - 1);
    }
}

proof fn lemma_run_end(f: Seq<bool>, i: int, n: int)
    requires
        0 <= i <= n,
        n <= f.len(),
    ensures
        i <= run_end(f, i, n) <= n,
        forall|k: int| i <= k < run_end(f, i, n) ==> #[trigger] f[k],
        run_end(f, i, n) < n ==> !f[run_end(f, i, n)],
    decreases n - i,
{
    if i < n && f[i] {
        lemma_run_end(f, i + 1, n);
    }
}

proof fn lemma_covers_join(a: Seq<int>, b: Seq<int>, lo: int, mid: int, hi: int)
    requires
        covers(a, lo, mid),
        covers(b, mid, hi),
    ensures
        covers(a + b, lo, hi),
{
    let c = a + b;
    assert forall|x: int, y: int| 0 <= x < c.len() && 0 <= y < c.len() && x != y implies c[x] != c[y] by {
        if x < a.len() && y >= a.len() {
            assert(c[x] < mid <= c[y]);
        } else if y < a.len() && x >= a.len() {
            assert(c[y] < mid <= c[x]);
        } else if x < a.len() {
            assert(a[x] != a[y]);
        } else {
            assert(b[x - a.len()] != b[y - a.len()]);
        }
    }
    assert forall|k: int| 0 <= k < c.len() implies lo <= #[trigger] c[k] < hi by {
        if k < a.len() {
            assert(c[k] == a[k]);
        } else {
            assert(c[k] == b[k - a.len()]);
        }
    }
}

proof fn lemma_span_covers(lo: int, hi: int)
    requires
        lo <= hi,
    ensures
        covers(span(lo, hi), lo, hi),
{
}

/// Raising lists each position once.
proof fn lemma_raised_covers(f: Seq<bool>, j: int)
    requires
        0 <= j <= f.len(),
    ensures
        covers(raised(f, j), 0, j),
    decreases j,
{
    if j > 0 {
        if f[j - 1] {
            lemma_raised_covers(f, j - 1);
            lemma_covers_join(raised(f, j - 1), seq![j - 1], 0, j - 1, j);
        } else {
            let s = run_start(f, j - 1);
            lemma_run_start(f, j - 1);
            lemma_raised_covers(f, s);
            let r = raised(f, s);
            let c = r + seq![j - 1] + span(s, j - 1);
            assert(c.len() == j);
            assert forall|k: int| 0 <= k < c.len() implies #[trigger] c[k] == (if k < s {
                r[k]
            } else if k == s {
                j - 1
            } else {
                k - 1
            }) by {}
            assert forall|x: int, y: int| 0 <= x < c.len() && 0 <= y < c.len() && x != y implies c[x] != c[y] by {
                if x < s && y < s {
                    assert(r[x] != r[y]);
                } else if x < s {
                    assert(c[x] == r[x]);
                } else if y < s {
                    assert(c[y] == r[y]);
                }
            }
            assert forall|k: int| 0 <= k < c.len() implies 0 <= #[trigger] c[k] < j by {
                if k < s {
                    assert(c[k] == r[k]);
                }
            }
        }
    }
}

/// Lowering lists each position once.
proof fn lemma_lowered_covers(f: Seq<bool>, i: int, n: int)
    requires
        0 <= i <= n,
        n <= f.len(),
    ensures
        covers(lowered(f, i, n), i, n),
    decreases n - i,
{
    if i < n {
        if f[i] {
            lemma_lowered_covers(f, i + 1, n);
            assert(covers(seq![i], i, i + 1));
            lemma_covers_join(seq![i], lowered(f, i + 1, n), i, i + 1, n);
        } else {
            let e = run_end(f, i + 1, n);
            lemma_run_end(f, i + 1, n);
            lemma_lowered_covers(f, e, n);
            lemma_span_covers(i + 1, e);
            let a = span(i + 1, e) + seq![i];
            assert forall|x: int, y: int| 0 <= x < a.len() && 0 <= y < a.len() && x != y implies a[x] != a[y] by {}
            assert(covers(a, i, e));
            lemma_covers_join(a, lowered(f, e, n), i, e, n);
        }
    }
}

/// Positions with each flag value, together, list each position once.
proof fn lemma_picks_len(f: Seq<bool>, b: bool, j: int)
    requires
        0 <= j <= f.len(),
    ensures
        picks(f, b, j).no_duplicates(),
        forall|k: int| 0 <= k < picks(f, b, j).len() ==> 0 <= #[trigger] picks(f, b, j)[k] < j && f[picks(f, b, j)[k]] == b,
        forall|x: int| 0 <= x < j && f[x] == b ==> #[trigger] picks(f, b, j).contains(x),
        picks(f, b, j).len() + picks(f, !b, j).len() == j,
    decreases j,
{
    if j > 0 {
        lemma_picks_len(f, b, j - 1);
        lemma_picks_len(f, !b, j - 1);
        let r = picks(f, b, j - 1);
        assert forall|x: int| 0 <= x < j && f[x] == b implies #[trigger] picks(f, b, j).contains(x) by {
            if x < j - 1 {
                assert(r.contains(x));
                let k = choose|k: int| 0 <= k < r.len() && r[k] == x;
                assert(picks(f, b, j)[k] == x);
            } else {
                assert(picks(f, b, j).last() == x);
            }
        }
    }
}

/// Every z-order move yields each position exactly once: the move is a
/// permutation of the list.
pub proof fn lemma_zorder_is_permutation(f: Seq<bool>, dir: i8)
    ensures
        covers(zorder_spec(f, dir), 0, f.len() as int),
{
    let n = f.len() as int;
    if dir == 2 || dir == -2 {
        lemma_picks_len(f, true, n);
        lemma_picks_len(f, false, n);
        let a = if dir == 2 { picks(f, false, n) } else { picks(f, true, n) };
        let b = if dir == 2 { picks(f, true, n) } else { picks(f, false, n) };
        let c = a + b;
        assert(c == zorder_spec(f, dir));
        assert forall|x: int, y: int| 0 <= x < c.len() && 0 <= y < c.len() && x != y implies c[x] != c[y] by {
            if x < a.len() && y >= a.len() {
                assert(f[c[x]] != f[c[y]]);
            } else if y < a.len() && x >= a.len() {
                assert(f[c[x]] != f[c[y]]);
            } else if x < a.len() {
                assert(a[x] != a[y]);
            } else {
                assert(b[x - a.len()] != b[y - a.len()]);
            }
        }
        assert forall|k: int| 0 <= k < c.len() implies 0 <= #[trigger] c[k] < n by {
            if k < a.len() {
                assert(c[k] == a[k]);
            } else {
                assert(c[k] == b[k - a.len()]);
            }
        }
    } else if dir == 1 {
        lemma_raised_covers(f, n);
    } else {
        lemma_lowered_covers(f, 0, n);
    }
}

/// Objects with the same flag keep their relative order in `s`.
pub open spec fn keeps_order(f: Seq<bool>, s: Seq<int>) -> bool {
    forall|a: int, b: int| 0 <= a < b < s.len() && f[#[trigger] s[a]] == f[#[trigger] s[b]] ==> s[a] < s[b]
}

proof fn lemma_picks_ascending(f: Seq<bool>, b: bool, j: int)
    requires
        0 <= j <= f.len(),
    ensures
        forall|x: int, y: int| 0 <= x < y < picks(f, b, j).len() ==> #[trigger] picks(f, b, j)[x] < #[trigger] picks(f, b, j)[y],
    decreases j,
{
    if j > 0 {
        lemma_picks_ascending(f, b, j - 1);
        lemma_picks_len(f, b, j - 1);
    }
}

proof fn lemma_raised_order(f: Seq<bool>, j: int)
    requires
        0 <= j <= f.len(),
    ensures
        keeps_order(f, raised(f, j)),
    decreases j,
{
    if j > 0 {
        lemma_raised_covers(f, j);
        if f[j - 1] {
            lemma_raised_order(f, j - 1);
            lemma_raised_covers(f, j - 1);
            let r = raised(f, j - 1);
            let c = r.push(j - 1);
            assert forall|a: int, b: int| 0 <= a < b < c.len() && f[#[trigger] c[a]] == f[#[trigger] c[b]] implies c[a] < c[b] by {
                if b < r.len() {
                    assert(c[a] == r[a] && c[b] == r[b]);
                } else {
                    assert(c[a] == r[a]);
                }
            }
        } else {
            let s = run_start(f, j - 1);
            lemma_run_start(f, j - 1);
            lemma_raised_order(f, s);
            lemma_raised_covers(f, s);
            let r = raised(f, s);
            let c = r + seq![j - 1] + span(s, j - 1);
            assert forall|k: int| 0 <= k < c.len() implies #[trigger] c[k] == (if k < s {
                r[k]
            } else if k == s {
                j - 1
            } else {
                k - 1
            }) by {}
            assert forall|a: int, b: int| 0 <= a < b < c.len() && f[#[trigger] c[a]] == f[#[trigger] c[b]] implies c[a] < c[b] by {
                if b < s {
                    assert(c[a] == r[a] && c[b] == r[b]);
                } else if a < s {
                    assert(c[a] == r[a]);
                } else if a == s {
                    assert(f[c[b]]);
                }
            }
        }
    }
}

proof fn lemma_lowered_order(f: Seq<bool>, i: int, n: int)
    requires
        0 <= i <= n,
        n <= f.len(),
    ensures
        keeps_order(f, lowered(f, i, n)),
    decreases n - i,
{
    if i < n {
        if f[i] {
            lemma_lowered_order(f, i + 1, n);
            lemma_lowered_covers(f, i + 1, n);
            let r = lowered(f, i + 1, n);
            let c = seq![i] + r;
            assert forall|a: int, b: int| 0 <= a < b < c.len() && f[#[trigger] c[a]] == f[#[trigger] c[b]] implies c[a] < c[b] by {
                if a == 0 {
                    assert(c[b] == r[b - 1]);
                } else {
                    assert(c[a] == r[a - 1] && c[b] == r[b - 1]);
                }
            }
        } else {
            let e = run_end(f, i + 1, n);
            lemma_run_end(f, i + 1, n);
            lemma_lowered_order(f, e, n);
            lemma_lowered_covers(f, e, n);
            let r = lowered(f, e, n);
            let m = e - (i + 1);
            let c = span(i + 1, e) + seq![i] + r;
            assert forall|k: int| 0 <= k < c.len() implies #[trigger] c[k] == (if k < m {
                i + 1 + k
            } else if k == m {
                i
            } else {
                r[k - m - 1]
            }) by {}
            assert forall|a: int, b: int| 0 <= a < b < c.len() && f[#[trigger] c[a]] == f[#[trigger] c[b]] implies c[a] < c[b] by {
                if a > m {
                    assert(c[a] == r[a - m - 1] && c[b] == r[b - m - 1]);
                } else if b > m {
                    assert(c[b] == r[b - m - 1]);
                } else if b == m {
                    assert(f[c[a]]);
                }
            }
        }
    }
}

/// Every z-order move keeps the relative order of the moved objects
/// and of the others.
pub proof fn lemma_zorder_keeps_order(f: Seq<bool>, dir: i8)
    ensures
        keeps_order(f, zorder_spec(f, dir)),
{
    let n = f.len() as int;
    if dir == 2 || dir == -2 {
        lemma_picks_len(f, true, n);
        lemma_picks_len(f, false, n);
        lemma_picks_ascending(f, true, n);
        lemma_picks_ascending(f, false, n);
        let a = if dir == 2 { picks(f, false, n) } else { picks(f, true, n) };
        let b = if dir == 2 { picks(f, true, n) } else { picks(f, false, n) };
        let c = a + b;
        assert(c == zorder_spec(f, dir));
        assert forall|x: int, y: int| 0 <= x < y < c.len() && f[#[trigger] c[x]] == f[#[trigger] c[y]] implies c[x] < c[y] by {
            if y < a.len() {
                assert(c[x] == a[x] && c[y] == a[y]);
            } else if x >= a.len() {
                assert(c[x] == b[x - a.len()] && c[y] == b[y - a.len()]);
            } else {
                assert(c[x] == a[x] && c[y] == b[y - a.len()]);
            }
        }
    } else if dir == 1 {
        lemma_raised_order(f, n);
    } else {
        lemma_lowered_order(f, 0, n);
    }
}

/// The positions as mathematical integers.
pub open spec fn as_ints(v: Seq<usize>) -> Seq<int> {
    Seq::new(v.len(), |k: int| v[k] as int)
}

/// Positions `k < n` whose flag is `b`, ascending, appended to `out`.
fn push_picks(f: &Vec<bool>, b: bool, out: &mut Vec<usize>)
    ensures
        as_ints(final(out)@) == as_ints(old(out)@) + picks(f@, b, f@.len() as int),
{
    let n = f.len();
    let ghost start = as_ints(out@);
    let mut k: usize = 0;
    while k < n
        invariant
            n == f@.len(),
            k <= n,
            as_ints(out@) == start + picks(f@, b, k as int),
        decreases n - k,
    {
        if f[k] == b {
            let ghost before = as_ints(out@);
            out.push(k);
            proof {
                assert(picks(f@, b, k + 1) == picks(f@, b, k as int).push(k as int));
                assert(as_ints(out@) =~= before.push(k as int));
                assert(as_ints(out@) =~= start + picks(f@, b, k + 1));
            }
        } else {
            proof {
                assert(picks(f@, b, k + 1) == picks(f@, b, k as int));
            }
        }
        k = k + 1;
    }
}

/// `n` zeros.
fn zeros(n: usize) -> (r: Vec<usize>)
    ensures
        r@.len() == n,
{
    let mut r: Vec<usize> = Vec::new();
    let mut k: usize = 0;
    while k < n
        invariant
            k <= n,
            r@.len() == k,
        decreases n - k,
    {
        r.push(0);
        k = k + 1;
    }
    r
}

/// One step of raising, from the top: a flagged object at `j - 1` keeps
/// its slot.
proof fn lemma_raise_keep(fs: Seq<bool>, n: int, j: int, out: Seq<int>, out2: Seq<int>)
    requires
        0 < j <= n,
        n == fs.len(),
        fs[j - 1],
        out.len() == n,
        raised(fs, n) == raised(fs, j) + out.subrange(j, n),
        out2 == out.update(j - 1, j - 1),
    ensures
        raised(fs, n) == raised(fs, j - 1) + out2.subrange(j - 1, n),
{
    assert(raised(fs, j) == raised(fs, j - 1).push(j - 1));
    assert(out2.subrange(j - 1, n) =~= seq![j - 1] + out.subrange(j, n));
    assert(raised(fs, j - 1).push(j - 1) + out.subrange(j, n) =~= raised(fs, j - 1) + (seq![j - 1] + out.subrange(j, n)));
}

/// One step of raising, from the top: an unflagged object at `j - 1`
/// with the run of flagged objects `s..j-1` below it trade places.
proof fn lemma_raise_swap(fs: Seq<bool>, n: int, j: int, s: int, out: Seq<int>, out2: Seq<int>)
    requires
        0 < j <= n,
        n == fs.len(),
        !fs[j - 1],
        s == run_start(fs, j - 1),
        out.len() == n,
        out2.len() == n,
        raised(fs, n) == raised(fs, j) + out.subrange(j, n),
        out2[s] == j - 1,
        forall|m: int| s < m < j ==> out2[m] == m - 1,
        forall|m: int| j <= m < n ==> out2[m] == out[m],
    ensures
        raised(fs, n) == raised(fs, s) + out2.subrange(s, n),
{
    lemma_run_start(fs, j - 1);
    assert(raised(fs, j) == raised(fs, s) + seq![j - 1] + span(s, j - 1));
    let piece = seq![j - 1] + span(s, j - 1);
    assert(out2.subrange(s, n) =~= piece + out.subrange(j, n));
    assert(raised(fs, s) + seq![j - 1] + span(s, j - 1) + out.subrange(j, n) =~= raised(fs, s) + (piece + out.subrange(j, n)));
}

/// Positions after raising every flagged run one slot.
fn raise_positions(f: &Vec<bool>) -> (r: Vec<usize>)
    ensures
        as_ints(r@) == raised(f@, f@.len() as int),
{
    let n = f.len();
    let ghost fs = f@;
    let mut out = zeros(n);
    let mut j: usize = n;
    proof {
        assert(as_ints(out@).subrange(n as int, n as int) =~= Seq::<int>::empty());
        assert(raised(fs, n as int) =~= raised(fs, n as int) + Seq::<int>::empty());
    }
    while j > 0
        invariant
            fs == f@,
            n == fs.len(),
            out@.len() == n,
            j <= n,
            raised(fs, n as int) == raised(fs, j as int) + as_ints(out@).subrange(j as int, n as int),
        decreases j,
    {
        let ghost before = as_ints(out@);
        if f[j - 1] {
            out.set(j - 1, j - 1);
            proof {
                assert(as_ints(out@) =~= before.update(j - 1, j - 1));
                lemma_raise_keep(fs, n as int, j as int, before, as_ints(out@));
            }
            j = j - 1;
        } else {
            let mut s: usize = j - 1;
            while s > 0 && f[s - 1]
                invariant
                    fs == f@,
                    n == fs.len(),
                    s < j <= n,
                    run_start(fs, j - 1) == run_start(fs, s as int),
                decreases s,
            {
                s = s - 1;
            }
            proof {
                assert(run_start(fs, s as int) == s);
            }
            out.set(s, j - 1);
            let mut k: usize = s + 1;
            while k < j
                invariant
                    fs == f@,
                    n == fs.len(),
                    out@.len() == n,
                    s < k <= j <= n,
                    out@[s as int] == j - 1,
                    forall|m: int| s < m < k ==> out@[m] == m - 1,
                    forall|m: int| j <= m < n ==> as_ints(out@)[m] == before[m],
                decreases j - k,
            {
                out.set(k, k - 1);
                k = k + 1;
            }
            proof {
                lemma_raise_swap(fs, n as int, j as int, s as int, before, as_ints(out@));
            }
            j = s;
        }
    }
    proof {
        assert(raised(fs, 0) =~= Seq::<int>::empty());
        assert(as_ints(out@) =~= as_ints(out@).subrange(0, n as int));
    }
    out
}

/// Positions after lowering every flagged run one slot.
fn lower_positions(f: &Vec<bool>) -> (r: Vec<usize>)
    ensures
        as_ints(r@) == lowered(f@, 0, f@.len() as int),
{
    let n = f.len();
    let ghost fs = f@;
    let mut out = zeros(n);
    let mut i: usize = 0;
    proof {
        assert(lowered(fs, 0, n as int) =~= as_ints(out@).subrange(0, 0) + lowered(fs, 0, n as int));
    }
    while i < n
        invariant
            fs == f@,
            n == fs.len(),
            out@.len() == n,
            i <= n,
            lowered(fs, 0, n as int) == as_ints(out@).subrange(0, i as int) + lowered(fs, i as int, n as int),
        decreases n - i,
    {
        let ghost head = as_ints(out@).subrange(0, i as int);
        if f[i] {
            out.set(i, i);
            proof {
                let ii = i as int;
                assert(lowered(fs, ii, n as int) == seq![ii] + lowered(fs, ii + 1, n as int));
                assert(as_ints(out@).subrange(0, ii + 1) =~= head + seq![ii]);
                assert(head + (seq![ii] + lowered(fs, ii + 1, n as int)) =~= head + seq![ii] + lowered(fs, ii + 1, n as int));
            }
            i = i + 1;
        } else {
            let mut e: usize = i + 1;
            while e < n && f[e]
                invariant
                    fs == f@,
                    n == fs.len(),
                    i < e <= n,
                    run_end(fs, i + 1, n as int) == run_end(fs, e as int, n as int),
                decreases n - e,
            {
                e = e + 1;
            }
            proof {
                assert(run_end(fs, e as int, n as int) == e);
            }
            let mut k: usize = i;
            while k + 1 < e
                invariant
                    fs == f@,
                    n == fs.len(),
                    out@.len() == n,
                    i <= k < e <= n,
                    forall|m: int| i <= m < k ==> out@[m] == m + 1,
                    as_ints(out@).subrange(0, i as int) == head,
                decreases e - k,
            {
                out.set(k, k + 1);
                k = k + 1;
            }
            out.set(e - 1, i);
            proof {
                let ii = i as int;
                let ee = e as int;
                assert(lowered(fs, ii, n as int) == span(ii + 1, ee) + seq![ii] + lowered(fs, ee, n as int));
                assert(as_ints(out@).subrange(0, ee) =~= head + span(ii + 1, ee) + seq![ii]);
                assert(head + (span(ii + 1, ee) + seq![ii] + lowered(fs, ee, n as int)) =~= head + span(ii + 1, ee) + seq![ii] + lowered(fs, ee, n as int));
            }
            i = e;
        }
    }
    proof {
        assert(lowered(fs, n as int, n as int) =~= Seq::<int>::empty());
        assert(as_ints(out@) =~= as_ints(out@).subrange(0, n as int));
    }
    out
}

/// The new bottom-to-top order of positions for a z-order move of the
/// flagged objects (2: to the top, -2: to the bottom, 1: up one slot,
/// anything else: down one slot).
pub fn zorder_positions(f: &Vec<bool>, dir: i8) -> (r: Vec<usize>)
    ensures
        as_ints(r@) == zorder_spec(f@, dir),
{
    if dir == 2 || dir == -2 {
        let mut out: Vec<usize> = Vec::new();
        proof {
            assert(as_ints(out@) =~= Seq::<int>::empty());
        }
        push_picks(f, dir == -2, &mut out);
        push_picks(f, dir == 2, &mut out);
        proof {
            let n = f@.len() as int;
            assert(Seq::<int>::empty() + picks(f@, dir == -2, n) =~= picks(f@, dir == -2, n));
        }
        out
    } else if dir == 1 {
        raise_positions(f)
    } else {
        lower_positions(f)
    }
}

impl Selection {
    /// The id order a z-order move of the selection gives the model:
    /// the selection is widened to whole subtrees, then moved as
    /// `zorder_positions` says.
    pub fn zorder_ids<B>(&self, model: &SketchModel<B>, dir: i8) -> (r: Vec<u64>)
        ensures
            ({
                let l = model.objs();
                let moved = expand_of(l, self@);
                let f = Seq::new(l.len(), |k: int| moved.contains(l[k].id));
                let order = zorder_spec(f, dir);
                &&& r@.len() == l.len()
                &&& forall|k: int| 0 <= k < l.len() ==> #[trigger] r@[k] == l[order[k]].id
            }),
    {
        let ghost l = model.objs();
        let expanded = expand_subtrees(model, self.as_slice());
        let n = model.len();
        let mut flags: Vec<bool> = Vec::new();
        let mut k: usize = 0;
        while k < n
            invariant
                l == model.objs(),
                n == l.len(),
                k <= n,
                expanded@ == expand_of(l, self@),
                flags@ =~= Seq::new(k as nat, |m: int| expanded@.contains(l[m].id)),
            decreases n - k,
        {
            let id = model.id_at(k);
            let mut hit = false;
            let mut a: usize = 0;
            while a < expanded.len()
                invariant
                    a <= expanded@.len(),
                    hit <==> exists|b: int| 0 <= b < a && expanded@[b] == id,
                decreases expanded@.len() - a,
            {
                if expanded[a] == id {
                    hit = true;
                }
                a = a + 1;
            }
            flags.push(hit);
            k = k + 1;
        }
        let order = zorder_positions(&flags, dir);
        proof {
            lemma_zorder_is_permutation(flags@, dir);
        }
        let mut r: Vec<u64> = Vec::new();
        let mut k: usize = 0;
        while k < n
            invariant
                l == model.objs(),
                n == l.len(),
                k <= n,
                as_ints(order@) == zorder_spec(flags@, dir),
                covers(zorder_spec(flags@, dir), 0, n as int),
                r@.len() == k,
                forall|m: int| 0 <= m < k ==> #[trigger] r@[m] == l[order@[m] as int].id,
            decreases n - k,
        {
            proof {
                assert(as_ints(order@)[k as int] == order@[k as int] as int);
            }
            r.push(model.id_at(order[k]));
            k = k + 1;
        }
        proof {
            assert forall|m: int| 0 <= m < l.len() implies #[trigger] r@[m] == l[zorder_spec(flags@, dir)[m]].id by {
                assert(as_ints(order@)[m] == order@[m] as int);
            }
        }
        r
    }
}

/// The model's ids that `sel` widened to whole subtrees covers, in
/// model order.
pub open spec fn expand_of<B>(l: Seq<crate::model::SketchObject<B>>, sel: Seq<u64>) -> Seq<u64> {
    ids_upto(
        l,
        l.len() as int,
        |k: int| sel.contains(l[k].id) || exists|a: int| 0 <= a < sel.len() && descends(l, l[k].id, #[trigger] sel[a]),
    )
}

// --- Deletion order and group selection -------------------------------------

/// Nesting depth of `id` as the model reports it (0 when unknown).
pub open spec fn depth_of<B>(l: Seq<SketchObject<B>>, id: u64) -> nat {
    match index_of(l, id) {
        Some(i) => depth_upto(l, i, MAX_DEPTH as nat),
        None => 0,
    }
}

/// The predicate "sits at depth `d`".
pub open spec fn at_depth<B>(l: Seq<SketchObject<B>>, d: int) -> spec_fn(u64) -> bool {
    |id: u64| depth_of(l, id) == d
}

/// The ids of `ids` whose depth lies in `d+1 ..= MAX_DEPTH`, deepest
/// level first, each level in its original order.
pub open spec fn levels_above<B>(l: Seq<SketchObject<B>>, ids: Seq<u64>, d: int) -> Seq<u64>
    decreases MAX_DEPTH - d,
{
    if d >= MAX_DEPTH {
        Seq::empty()
    } else {
        levels_above(l, ids, d + 1) + kept(ids, at_depth(l, d + 1))
    }
}

/// `ids` ordered deepest first (a stable sort by descending depth):
/// children are removed before their ancestors, so every removal's
/// damage region resolves through a still-intact chain.
pub open spec fn deepest_first<B>(l: Seq<SketchObject<B>>, ids: Seq<u64>) -> Seq<u64> {
    levels_above(l, ids, -1)
}

/// `ids` ordered deepest first, ties kept in their given order.
pub fn order_deepest_first<B>(model: &SketchModel<B>, ids: &Vec<u64>) -> (r: Vec<u64>)
    ensures
        r@ == deepest_first(model.objs(), ids@),
{
    let ghost l = model.objs();
    let n = ids.len();
    let mut deps: Vec<usize> = Vec::new();
    let mut k: usize = 0;
    while k < n
        invariant
            l == model.objs(),
            n == ids@.len(),
            k <= n,
            deps@.len() == k,
            forall|m: int| 0 <= m < k ==> #[trigger] deps@[m] as nat == depth_of(l, ids@[m]),
        decreases n - k,
    {
        deps.push(model.depth(ids[k]));
        k = k + 1;
    }
    let mut r: Vec<u64> = Vec::new();
    let mut d: usize = MAX_DEPTH + 1;
    while d > 0
        invariant
            l == model.objs(),
            n == ids@.len(),
            deps@.len() == n,
            forall|m: int| 0 <= m < n ==> #[trigger] deps@[m] as nat == depth_of(l, ids@[m]),
            d <= MAX_DEPTH + 1,
            r@ == levels_above(l, ids@, d as int - 1),
        decreases d,
    {
        d = d - 1;
        let ghost p = at_depth(l, d as int);
        let ghost before = r@;
        let mut k: usize = 0;
        while k < n
            invariant
                l == model.objs(),
                n == ids@.len(),
                deps@.len() == n,
                forall|m: int| 0 <= m < n ==> #[trigger] deps@[m] as nat == depth_of(l, ids@[m]),
                k <= n,
                p == at_depth(l, d as int),
                r@ == before + kept(ids@.subrange(0, k as int), p),
            decreases n - k,
        {
            proof {
                assert(ids@.subrange(0, k + 1).drop_last() =~= ids@.subrange(0, k as int));
            }
            if deps[k] == d {
                r.push(ids[k]);
                proof {
                    assert(r@ =~= before + kept(ids@.subrange(0, k + 1), p));
                }
            } else {
                proof {
                    assert(kept(ids@.subrange(0, k + 1), p) == kept(ids@.subrange(0, k as int), p));
                }
            }
            k = k + 1;
        }
        proof {
            assert(ids@.subrange(0, n as int) =~= ids@);
            assert(levels_above(l, ids@, d as int - 1) == levels_above(l, ids@, d as int) + kept(ids@, at_depth(l, d as int)));
        }
    }
    r
}

impl Selection {
    /// What a delete removes: the editable selection widened to whole
    /// subtrees, deepest objects first.
    pub fn delete_order<B>(&self, model: &SketchModel<B>) -> (r: Vec<u64>)
        ensures
            ({
                let l = model.objs();
                let sel = kept(self@, |id: u64| has_id(l, id) && !flag_inherited(l, id, false));
                r@ == deepest_first(l, expand_of(l, sel))
            }),
    {
        let sel = self.editable(model);
        let ids = expand_subtrees(model, sel.as_slice());
        order_deepest_first(model, &ids)
    }

    /// The editable selected ids that name groups (what an ungroup
    /// dissolves).
    pub fn editable_groups<B>(&self, model: &SketchModel<B>) -> (r: Vec<u64>)
        ensures
            ({
                let l = model.objs();
                let sel = kept(self@, |id: u64| has_id(l, id) && !flag_inherited(l, id, false));
                r@ == kept(sel, |id: u64| is_group_id(l, id))
            }),
    {
        let ghost l = model.objs();
        let sel = self.editable(model);
        let ghost p = |id: u64| is_group_id(l, id);
        let mut v: Vec<u64> = Vec::new();
        let mut k: usize = 0;
        while k < sel.len()
            invariant
                l == model.objs(),
                k <= sel@.len(),
                p == (|id: u64| is_group_id(l, id)),
                v@ == kept(sel@.subrange(0, k as int), p),
            decreases sel@.len() - k,
        {
            proof {
                assert(sel@.subrange(0, k + 1).drop_last() =~= sel@.subrange(0, k as int));
            }
            if model.is_group(sel[k]) {
                v.push(sel[k]);
            }
            k = k + 1;
        }
        proof {
            assert(sel@.subrange(0, sel@.len() as int) =~= sel@);
        }
        v
    }
}

// --- Clicks and rubber bands --------------------------------------------------

/// `s` with each of `ids` appended in turn unless already present.
pub open spec fn added(s: Seq<u64>, ids: Seq<u64>) -> Seq<u64>
    decreases ids.len(),
{
    if ids.len() == 0 {
        s
    } else {
        let r = added(s, ids.drop_last());
        if r.contains(ids.last()) {
            r
        } else {
            r.push(ids.last())
        }
    }
}

/// For the first `k` objects of `l`, in order, the band-select scope of
/// each one the band picks.
pub open spec fn band_scopes<B>(l: Seq<SketchObject<B>>, in_band: Seq<bool>, entered: Option<u64>, k: int) -> Seq<u64>
    decreases k,
{
    if k <= 0 {
        Seq::empty()
    } else {
        let r = band_scopes(l, in_band, entered, k - 1);
        if pickable(l, in_band, k - 1) {
            r.push(scope_of(chain_ids(l, l[k - 1].id, 64), entered))
        } else {
            r
        }
    }
}

/// The ids a select-all takes from the first `k` objects of `l`: the
/// top-level ones that are neither locked nor hidden, in list order.
pub open spec fn top_level_ids<B>(l: Seq<SketchObject<B>>, k: int) -> Seq<u64>
    decreases k,
{
    if k <= 0 {
        Seq::empty()
    } else {
        let r = top_level_ids(l, k - 1);
        let o = l[k - 1];
        if o.parent is None && !o.locked && !o.hidden {
            r.push(o.id)
        } else {
            r
        }
    }
}

proof fn lemma_added_distinct(s: Seq<u64>, ids: Seq<u64>)
    requires
        s.no_duplicates(),
    ensures
        added(s, ids).no_duplicates(),
    decreases ids.len(),
{
    if ids.len() > 0 {
        lemma_added_distinct(s, ids.drop_last());
        let r = added(s, ids.drop_last());
        if !r.contains(ids.last()) {
            assert forall|a: int, b: int| 0 <= a < b < r.len() + 1 implies r.push(ids.last())[a] != r.push(ids.last())[b] by {
                if b == r.len() {
                    assert(r[a] != ids.last());
                }
            }
        }
    }
}

/// What appending ids once each keeps: exactly the ids of `s` and of
/// `ids`.
proof fn lemma_added_contains(s: Seq<u64>, ids: Seq<u64>)
    ensures
        forall|x: u64| #[trigger] added(s, ids).contains(x) <==> s.contains(x) || ids.contains(x),
    decreases ids.len(),
{
    if ids.len() > 0 {
        lemma_added_contains(s, ids.drop_last());
        let r = added(s, ids.drop_last());
        assert forall|x: u64| #[trigger] added(s, ids).contains(x) <==> s.contains(x) || ids.contains(x) by {
            if ids.contains(x) && !ids.drop_last().contains(x) {
                let k = choose|k: int| 0 <= k < ids.len() && ids[k] == x;
                if k < ids.len() - 1 {
                    assert(ids.drop_last()[k] == x);
                }
                assert(x == ids.last());
                if !r.contains(x) {
                    assert(r.push(x)[r.len() as int] == x);
                }
            }
            if ids.drop_last().contains(x) {
                let k = choose|k: int| 0 <= k < ids.drop_last().len() && ids.drop_last()[k] == x;
                assert(ids[k] == x);
            }
            if added(s, ids).contains(x) && !r.contains(x) {
                assert(x == ids.last());
                assert(ids[ids.len() - 1] == x);
            }
            if r.contains(x) {
                let k = choose|k: int| 0 <= k < r.len() && r[k] == x;
                if !r.contains(ids.last()) {
                    assert(r.push(ids.last())[k] == x);
                }
            }
        }
    }
}

/// The band's scopes up to `n` are exactly the scopes of the pickable
/// objects there: an object the band covers but that is locked or
/// hidden (by its own flag or an ancestor's), or a group node, adds
/// nothing.
proof fn lemma_band_scopes_pickable<B>(l: Seq<SketchObject<B>>, in_band: Seq<bool>, entered: Option<u64>, n: int)
    requires
        0 <= n <= l.len(),
    ensures
        forall|x: u64| #[trigger] band_scopes(l, in_band, entered, n).contains(x) <==> exists|k: int|
            0 <= k < n && pickable(l, in_band, k) && x == scope_of(chain_ids(l, l[k].id, 64), entered),
    decreases n,
{
    if n > 0 {
        lemma_band_scopes_pickable(l, in_band, entered, n - 1);
        let r = band_scopes(l, in_band, entered, n - 1);
        assert forall|x: u64| #[trigger] band_scopes(l, in_band, entered, n).contains(x) <==> exists|k: int|
            0 <= k < n && pickable(l, in_band, k) && x == scope_of(chain_ids(l, l[k].id, 64), entered) by {
            if band_scopes(l, in_band, entered, n).contains(x) {
                if r.contains(x) {
                    let k = choose|k: int| 0 <= k < n - 1 && pickable(l, in_band, k) && x == scope_of(chain_ids(l, l[k].id, 64), entered);
                    assert(0 <= k < n);
                } else {
                    let j = choose|j: int| 0 <= j < band_scopes(l, in_band, entered, n).len() && band_scopes(l, in_band, entered, n)[j] == x;
                    if pickable(l, in_band, n - 1) {
                        if j < r.len() {
                            assert(r[j] == x);
                        }
                    }
                }
            }
            if exists|k: int| 0 <= k < n && pickable(l, in_band, k) && x == scope_of(chain_ids(l, l[k].id, 64), entered) {
                let k = choose|k: int| 0 <= k < n && pickable(l, in_band, k) && x == scope_of(chain_ids(l, l[k].id, 64), entered);
                if k < n - 1 {
                    assert(r.contains(x));
                    let j = choose|j: int| 0 <= j < r.len() && r[j] == x;
                    if pickable(l, in_band, n - 1) {
                        assert(band_scopes(l, in_band, entered, n)[j] == x);
                    }
                } else {
                    let b = band_scopes(l, in_band, entered, n);
                    assert(b[r.len() as int] == x);
                }
            }
        }
    }
}

/// What a rubber band selects: the base selection plus, for every
/// object the band covers that a pointer may pick (not a group node,
/// neither locked nor hidden through its own flags or an ancestor's),
/// its band-select scope; nothing else. A hidden or locked object is
/// never brought in by the band.
pub proof fn lemma_band_select_law<B>(base: Seq<u64>, l: Seq<SketchObject<B>>, in_band: Seq<bool>, entered: Option<u64>)
    ensures
        forall|x: u64| #[trigger] added(base, band_scopes(l, in_band, entered, l.len() as int)).contains(x) <==> base.contains(x)
            || exists|k: int| 0 <= k < l.len() && pickable(l, in_band, k) && x == scope_of(chain_ids(l, l[k].id, 64), entered),
{
    lemma_band_scopes_pickable(l, in_band, entered, l.len() as int);
    lemma_added_contains(base, band_scopes(l, in_band, entered, l.len() as int));
}

/// What the transform targets are, stated by ancestry: every target is
/// a member of the editable selection `sel` that no other member is an
/// ancestor of, at any depth; and every such member is a target. So a
/// member below another selected member never transforms twice.
pub proof fn lemma_outermost_law<B>(l: Seq<SketchObject<B>>, sel: Seq<u64>)
    ensures
        forall|x: u64| #[trigger] outermost(l, sel).contains(x) ==> sel.contains(x) && forall|s: u64|
            sel.contains(s) && s != x ==> !#[trigger] descends(l, x, s),
        forall|x: u64|
            sel.contains(x) && (forall|s: u64| sel.contains(s) && s != x ==> !#[trigger] descends(l, x, s))
                ==> #[trigger] outermost(l, sel).contains(x),
{
    let p = |id: u64| forall|j: int| 0 <= j < sel.len() ==> sel[j] == id || !descends(l, id, #[trigger] sel[j]);
    lemma_kept(sel, p);
    assert forall|x: u64| #[trigger] outermost(l, sel).contains(x) implies sel.contains(x) && forall|s: u64|
        sel.contains(s) && s != x ==> !#[trigger] descends(l, x, s) by {
        assert(p(x));
        assert forall|s: u64| sel.contains(s) && s != x implies !#[trigger] descends(l, x, s) by {
            let j = choose|j: int| 0 <= j < sel.len() && sel[j] == s;
            assert(sel[j] == x || !descends(l, x, sel[j]));
        }
    }
    assert forall|x: u64|
        sel.contains(x) && (forall|s: u64| sel.contains(s) && s != x ==> !#[trigger] descends(l, x, s))
            implies #[trigger] outermost(l, sel).contains(x) by {
        assert forall|j: int| 0 <= j < sel.len() implies sel[j] == x || !descends(l, x, #[trigger] sel[j]) by {
            assert(sel.contains(sel[j]));
        }
        assert(p(x));
    }
}

impl Selection {
    /// A click on the hit `leaf`: with shift, the picked object toggles;
    /// otherwise it becomes the selection unless it is already selected
    /// (so a click on a selected group keeps the whole selection for a
    /// drag).
    pub fn click<B>(&mut self, model: &SketchModel<B>, entered: Option<u64>, leaf: u64, shift: bool)
        ensures
            ({
                let id = pick_of(chain_ids(model.objs(), leaf, 64), old(self)@, entered);
                &&& shift ==> final(self)@ == (if old(self)@.contains(id) {
                    without(old(self)@, id)
                } else {
                    old(self)@.push(id)
                })
                &&& !shift ==> final(self)@ == (if old(self)@.contains(id) { old(self)@ } else { seq![id] })
            }),
    {
        let id = self.pick_target(model, entered, leaf);
        if shift {
            self.select_toggle(id);
        } else if !self.contains(id) {
            self.select_only(id);
        }
    }

    /// Select all: every top-level object that is neither locked nor
    /// hidden (group members follow their group), in list order, each
    /// once.
    pub fn select_all<B>(&mut self, model: &SketchModel<B>)
        ensures
            final(self)@ == added(Seq::empty(), top_level_ids(model.objs(), model.objs().len() as int)),
    {
        let ghost l = model.objs();
        self.deselect_all();
        let n = model.len();
        let mut k: usize = 0;
        while k < n
            invariant
                l == model.objs(),
                n == l.len(),
                k <= n,
                self@ == added(Seq::empty(), top_level_ids(l, k as int)),
            decreases n - k,
        {
            let o = model.object_at(k);
            if o.parent.is_none() && !o.locked && !o.hidden {
                self.select_add(o.id);
                proof {
                    let next = top_level_ids(l, k + 1);
                    assert(next.drop_last() =~= top_level_ids(l, k as int));
                }
            }
            k = k + 1;
        }
    }

    /// A rubber band over the objects `in_band` marks (one flag per
    /// object, in model order): the selection becomes `base` plus the
    /// band-select scope of every pickable object in the band, in model
    /// order, each added once.
    pub fn band_select<B>(&mut self, model: &SketchModel<B>, base: &Selection, in_band: &Vec<bool>, entered: Option<u64>)
        requires
            in_band@.len() == model.objs().len(),
        ensures
            final(self)@ == added(base@, band_scopes(model.objs(), in_band@, entered, model.objs().len() as int)),
    {
        let ghost l = model.objs();
        proof {
            use_type_invariant(base);
        }
        let mut ids: Vec<u64> = Vec::new();
        let mut k: usize = 0;
        while k < base.ids.len()
            invariant
                k <= base.ids@.len(),
                ids@ == base.ids@.subrange(0, k as int),
            decreases base.ids@.len() - k,
        {
            ids.push(base.ids[k]);
            proof {
                assert(ids@ =~= base.ids@.subrange(0, k + 1));
            }
            k = k + 1;
        }
        proof {
            assert(ids@ =~= base@);
        }
        self.ids = ids;
        let n = model.len();
        let mut k: usize = 0;
        while k < n
            invariant
                l == model.objs(),
                n == l.len(),
                in_band@.len() == n,
                k <= n,
                self@ == added(base@, band_scopes(l, in_band@, entered, k as int)),
            decreases n - k,
        {
            let id = model.id_at(k);
            let ghost prev = band_scopes(l, in_band@, entered, k as int);
            if in_band[k] && !model.is_group_at(k) && !model.eff_locked(id) && !model.eff_hidden(id) {
                proof {
                    assert(pickable(l, in_band@, k as int));
                }
                let scope = band_scope(model, entered, id);
                self.select_add(scope);
                proof {
                    let next = band_scopes(l, in_band@, entered, k + 1);
                    assert(next == prev.push(scope));
                    assert(next.drop_last() =~= prev);
                    assert(next.last() == scope);
                }
            } else {
                proof {
                    assert(!pickable(l, in_band@, k as int));
                    assert(band_scopes(l, in_band@, entered, k + 1) == prev);
                }
            }
            k = k + 1;
        }
    }
}

} // verus!

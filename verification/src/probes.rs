//! The probe store: point probes placed on the canvas, each with an id
//! that is never reused while the set lives, plus the plot panel's
//! preferences. What a probe carries (its position and sample history)
//! is the renderer's business; the store only keeps it.

use vstd::prelude::*;
use crate::settings::{ProbeQuantity, MAX_PROBES};

verus! {

/// One placed probe: its id and what the renderer keeps for it.
pub struct Probe<P> {
    pub id: u32,
    pub data: P,
}

/// The probes in placement order, the next id to hand out, and the plot
/// panel's visibility and quantity.
pub struct ProbeSet<P> {
    pub probes: Vec<Probe<P>>,
    pub next_id: u32,
    pub show_plot: bool,
    pub quantity: ProbeQuantity,
}

/// Loaded `(id, data)` pairs as probes, in order.
pub open spec fn probes_of<P>(all: Seq<(u32, P)>) -> Seq<Probe<P>> {
    Seq::new(all.len(), |j: int| Probe { id: all[j].0, data: all[j].1 })
}

/// The largest of the ids (0 for none).
pub open spec fn max_probe_id<P>(ps: Seq<(u32, P)>) -> u32
    decreases ps.len(),
{
    if ps.len() == 0 {
        0
    } else {
        let m = max_probe_id(ps.drop_last());
        if ps.last().0 > m { ps.last().0 } else { m }
    }
}

/// The probes other than `id`, in order.
pub open spec fn without_probe<P>(ps: Seq<Probe<P>>, id: u32) -> Seq<Probe<P>>
    decreases ps.len(),
{
    if ps.len() == 0 {
        ps
    } else {
        let r = without_probe(ps.drop_last(), id);
        if ps.last().id != id {
            r.push(ps.last())
        } else {
            r
        }
    }
}

/// What `without_probe` keeps: exactly the probes whose id is not `id`.
pub proof fn lemma_without_probe<P>(ps: Seq<Probe<P>>, id: u32)
    ensures
        forall|k: int| 0 <= k < without_probe(ps, id).len() ==> #[trigger] without_probe(ps, id)[k].id != id
            && exists|j: int| 0 <= j < ps.len() && ps[j] == without_probe(ps, id)[k],
    decreases ps.len(),
{
    if ps.len() > 0 {
        lemma_without_probe(ps.drop_last(), id);
        let r = without_probe(ps.drop_last(), id);
        assert forall|k: int| 0 <= k < without_probe(ps, id).len() implies #[trigger] without_probe(ps, id)[k].id != id
            && exists|j: int| 0 <= j < ps.len() && ps[j] == without_probe(ps, id)[k] by {
            if k < r.len() {
                assert(without_probe(ps, id)[k] == r[k]);
                assert(0 <= k < without_probe(ps.drop_last(), id).len());
                assert(without_probe(ps.drop_last(), id)[k].id != id);
                assert(exists|j: int| 0 <= j < ps.drop_last().len() && ps.drop_last()[j] == without_probe(ps.drop_last(), id)[k]);
                let j = choose|j: int| 0 <= j < ps.drop_last().len() && ps.drop_last()[j] == without_probe(ps.drop_last(), id)[k];
                assert(ps.drop_last()[j] == ps[j]);
            } else {
                assert(ps[ps.len() - 1] == without_probe(ps, id)[k]);
            }
        }
    }
}

impl<P> ProbeSet<P> {
    /// Every id is below the next one to be handed out, so a new id
    /// never repeats one in use.
    pub open spec fn ids_below_next(&self) -> bool {
        forall|k: int| 0 <= k < self.probes@.len() ==> #[trigger] self.probes@[k].id < self.next_id
    }

    /// No probes yet; ids start at 1; the plot is hidden and shows speed.
    pub fn new() -> (s: Self)
        ensures
            s.probes@.len() == 0,
            s.next_id == 1,
            !s.show_plot,
            s.quantity == ProbeQuantity::Speed,
            s.ids_below_next(),
    {
        ProbeSet { probes: Vec::new(), next_id: 1, show_plot: false, quantity: ProbeQuantity::Speed }
    }

    /// Place a probe: below `MAX_PROBES` it gets the next id, joins the
    /// set and shows the plot, and its id is returned; a full set
    /// refuses it.
    pub fn add(&mut self, data: P) -> (r: Option<u32>)
        requires
            old(self).next_id < u32::MAX,
        ensures
            old(self).probes@.len() >= MAX_PROBES ==> r is None && final(self).probes@ == old(self).probes@
                && final(self).next_id == old(self).next_id && final(self).show_plot == old(self).show_plot,
            old(self).probes@.len() < MAX_PROBES ==> {
                &&& r == Some(old(self).next_id)
                &&& final(self).probes@ == old(self).probes@.push(Probe { id: old(self).next_id, data })
                &&& final(self).next_id == old(self).next_id + 1
                &&& final(self).show_plot
            },
            final(self).quantity == old(self).quantity,
            old(self).ids_below_next() ==> final(self).ids_below_next(),
            old(self).ids_below_next() ==> (r matches Some(id) ==> forall|k: int|
                0 <= k < old(self).probes@.len() ==> #[trigger] old(self).probes@[k].id != id),
    {
        if self.probes.len() >= MAX_PROBES {
            return None;
        }
        let id = self.next_id;
        self.next_id = self.next_id + 1;
        self.probes.push(Probe { id, data });
        self.show_plot = true;
        Some(id)
    }

    /// Delete probe `id`; the plot hides once the set is empty.
    pub fn remove(&mut self, id: u32)
        ensures
            final(self).probes@ == without_probe(old(self).probes@, id),
            final(self).show_plot == (old(self).show_plot && final(self).probes@.len() > 0),
            final(self).next_id == old(self).next_id,
            final(self).quantity == old(self).quantity,
            old(self).ids_below_next() ==> final(self).ids_below_next(),
    {
        let ghost all = self.probes@;
        let n = self.probes.len();
        proof {
            lemma_without_probe(all, id);
        }
        let mut rest: Vec<Probe<P>> = Vec::new();
        std::mem::swap(&mut rest, &mut self.probes);
        let mut kept: Vec<Probe<P>> = Vec::new();
        let mut k: usize = 0;
        while rest.len() > 0
            invariant
                n == all.len(),
                k + rest@.len() == all.len(),
                rest@ == all.subrange(k as int, all.len() as int),
                kept@ == without_probe(all.subrange(0, k as int), id),
            decreases rest@.len(),
        {
            let p = rest.remove(0);
            proof {
                assert(all.subrange(0, k + 1).drop_last() =~= all.subrange(0, k as int));
                assert(all[k as int] == p);
                assert(rest@ =~= all.subrange(k + 1, all.len() as int));
            }
            if p.id != id {
                kept.push(p);
            }
            k = k + 1;
        }
        proof {
            assert(all.subrange(0, all.len() as int) =~= all);
        }
        self.probes = kept;
        if self.probes.len() == 0 {
            self.show_plot = false;
        }
    }

    /// Replace the set with loaded probes, their plot quantity and
    /// visibility; ids continue past the largest loaded one.
    pub fn load(&mut self, probes: Vec<(u32, P)>, quantity: ProbeQuantity, show_plot: bool)
        requires
            forall|k: int| 0 <= k < probes@.len() ==> #[trigger] probes@[k].0 < u32::MAX,
        ensures
            final(self).probes@ == probes_of(probes@),
            final(self).next_id == max_probe_id(probes@) + 1,
            final(self).quantity == quantity,
            final(self).show_plot == show_plot,
            final(self).ids_below_next(),
    {
        let ghost all = probes@;
        let n = probes.len();
        let mut out: Vec<Probe<P>> = Vec::new();
        let mut m: u32 = 0;
        let mut rest = probes;
        let mut k: usize = 0;
        proof {
            assert(out@ =~= probes_of(all.subrange(0, 0)));
        }
        while rest.len() > 0
            invariant
                n == all.len(),
                k + rest@.len() == all.len(),
                rest@ == all.subrange(k as int, all.len() as int),
                forall|j: int| 0 <= j < all.len() ==> #[trigger] all[j].0 < u32::MAX,
                out@ == probes_of(all.subrange(0, k as int)),
                m == max_probe_id(all.subrange(0, k as int)),
                forall|j: int| 0 <= j < k ==> #[trigger] all[j].0 <= m,
                m < u32::MAX,
            decreases rest@.len(),
        {
            let ghost pair = rest@[0];
            let (id, data) = rest.remove(0);
            proof {
                assert(pair == all[k as int]);
                assert(all.subrange(0, k + 1).drop_last() =~= all.subrange(0, k as int));
                assert(rest@ =~= all.subrange(k + 1, all.len() as int));
            }
            if id > m {
                m = id;
            }
            out.push(Probe { id, data });
            proof {
                assert(out@ =~= probes_of(all.subrange(0, k + 1)));
            }
            k = k + 1;
        }
        proof {
            assert(all.subrange(0, all.len() as int) =~= all);
        }
        self.probes = out;
        self.next_id = m + 1;
        self.quantity = quantity;
        self.show_plot = show_plot;
    }
}

} // verus!

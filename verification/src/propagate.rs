//! Collapsing a wave region by region and propagating each collapse to the
//! neighbouring regions.

use vstd::prelude::*;
use crate::wave::{Region, RegionView, Weights, reach_outcome, needed_reach, kept, total_weight, weighted_pick, collapsed_to, gathered, restricted, listed, unseen, lemma_restricted_len, lemma_restricted_sub};
use crate::grid::{Wave, WaveView, has_nan, least_positive, lowest_candidates, in_grid, cell_index, cell_count, region_at, lemma_cell_index, lemma_cell_index_inj, lemma_candidates};
use crate::strmap::{StrMap, alist_has, alist_get, alist_index};
use crate::tile_set::{RuleSet, Rules, opposite};
use crate::entropy::{lemma_count_bits_mono};

verus! {

/// `new` is what `Region::collapse_with_reach` makes of `old` at `pos` in a
/// wave of `size`: for some outcome of the reach test, the region holds one
/// tile drawn by weight among those that passed, and its entropy is 0.
pub open spec fn reach_collapsed<R: Fn(&String, i32, i32, i32, i32) -> bool>(
    can_reach: R,
    old: Region,
    new: RegionView,
    pos: (i32, i32),
    size: (i32, i32),
) -> bool {
    exists|keep: Seq<bool>, n: int|
        {
            &&& reach_outcome(can_reach, old.superposition.key_strings(), needed_reach(pos, size), keep)
            &&& 0 <= n < total_weight(kept(old@.superposition, keep))
            &&& new.superposition == collapsed_to(old@.superposition, weighted_pick(kept(old@.superposition, keep), n))
            &&& new.entropy == 0
        }
}

/// For some outcome of the reach test at `pos`, the weights of the tiles that
/// pass add up to 0 or to more than `u32::MAX`: no tile can be drawn.
pub open spec fn reach_blocked<R: Fn(&String, i32, i32, i32, i32) -> bool>(
    can_reach: R,
    old: Region,
    pos: (i32, i32),
    size: (i32, i32),
) -> bool {
    exists|keep: Seq<bool>|
        {
            &&& reach_outcome(can_reach, old.superposition.key_strings(), needed_reach(pos, size), keep)
            &&& !(0 < total_weight(kept(old@.superposition, keep)) <= u32::MAX)
        }
}

/// No region of least positive entropy can be blocked.
pub open spec fn never_blocked<R: Fn(&String, i32, i32, i32, i32) -> bool>(can_reach: R, wave: Wave) -> bool {
    forall|x: i32, y: i32|
        #![trigger cell_index(wave.size, x as int, y as int)]
        in_grid(wave.size, x as int, y as int) && least_positive(wave@, cell_index(wave.size, x as int, y as int))
            ==> !reach_blocked(can_reach, wave.regions@[cell_index(wave.size, x as int, y as int)], (x, y), wave.size)
}

/// The outcome of a collapse step at a position of least positive entropy:
/// only that region changed, collapsed to a tile it had.
pub open spec fn collapse_step<R: Fn(&String, i32, i32, i32, i32) -> bool>(
    can_reach: R,
    old: Wave,
    new: Wave,
    p: (i32, i32),
) -> bool {
    let i = cell_index(old.size, p.0 as int, p.1 as int);
    &&& lowest_candidates(old@).contains(p)
    &&& in_grid(old.size, p.0 as int, p.1 as int)
    &&& least_positive(old@, i)
    &&& new.regions@ == old.regions@.update(i, new.regions@[i])
    &&& reach_collapsed(can_reach, old.regions@[i], new.regions@[i]@, p, old.size)
    &&& new.regions@[i]@.superposition.len() == 1
    &&& old.regions@[i]@.superposition.len() >= 1
    &&& alist_has(old.regions@[i]@.superposition, new.regions@[i]@.superposition[0].0)
}

/// A collapse step keeps only entries the wave had.
pub proof fn lemma_collapse_step_keeps<R: Fn(&String, i32, i32, i32, i32) -> bool>(
    can_reach: R,
    old: Wave,
    new: Wave,
    p: (i32, i32),
)
    requires
        collapse_step(can_reach, old, new, p),
        old.size == new.size,
    ensures
        entries_kept(old@, new@),
{
    let i = cell_index(old.size, p.0 as int, p.1 as int);
    assert(new@.regions =~= old@.regions.update(i, new@.regions[i]));
    let sp = old@.regions[i].superposition;
    let k = new@.regions[i].superposition[0].0;
    let q = alist_index(sp, k);
    crate::strmap::lemma_alist_has(sp, k);
    let r = new.regions@[i]@;
    assert(reach_collapsed(can_reach, old.regions@[i], r, p, old.size));
    let (keep, n) = choose|keep: Seq<bool>, n: int|
        {
            &&& reach_outcome(can_reach, old.regions@[i].superposition.key_strings(), needed_reach(p, old.size), keep)
            &&& 0 <= n < total_weight(kept(old.regions@[i]@.superposition, keep))
            &&& r.superposition == collapsed_to(old.regions@[i]@.superposition, weighted_pick(kept(old.regions@[i]@.superposition, keep), n))
            &&& r.entropy == 0
        };
    assert(new@.regions[i].superposition[0] == sp[q]);
    assert forall|a: int, j: int|
        0 <= a < old@.regions.len() && 0 <= j < new@.regions[a].superposition.len() implies old@.regions[a].superposition.contains(
        #[trigger] new@.regions[a].superposition[j],
    ) by {
        if a != i {
            assert(new@.regions[a] == old@.regions[a]);
        } else {
            assert(j == 0);
        }
    }
}

impl Wave {
    /// Collapse a region of least positive entropy drawn at random, among the
    /// tiles that pass the reach test there (see `Region::collapse_with_reach`),
    /// and give its position; `(-2, -2)` when some entropy is NaN and
    /// `(-1, -1)` when none is positive, the wave unchanged. Nothing when the
    /// drawn region has no tile to collapse to; the wave is then unchanged.
    pub fn try_collapse<R: Fn(&String, i32, i32, i32, i32) -> bool>(
        &mut self,
        tile_set_size: u32,
        can_reach: &R,
    ) -> (res: Option<(i32, i32)>)
        requires
            old(self).wf(),
            forall|s: &String, a: i32, b: i32, c: i32, d: i32| can_reach.requires((s, a, b, c, d)),
        ensures
            final(self).wf(),
            final(self).size == old(self).size,
            match res {
                None => {
                    &&& final(self).regions@ == old(self).regions@
                    &&& !has_nan(old(self)@)
                    &&& exists|p: (i32, i32)|
                        #![trigger lowest_candidates(old(self)@).contains(p)]
                        lowest_candidates(old(self)@).contains(p) && in_grid(old(self).size, p.0 as int, p.1 as int)
                            && reach_blocked(
                            *can_reach,
                            old(self).regions@[cell_index(old(self).size, p.0 as int, p.1 as int)],
                            p,
                            old(self).size,
                        )
                },
                Some(p) => {
                    &&& has_nan(old(self)@) ==> p == (-2i32, -2i32) && final(self).regions@ == old(self).regions@
                    &&& !has_nan(old(self)@) && lowest_candidates(old(self)@).len() == 0 ==> p == (-1i32, -1i32)
                        && final(self).regions@ == old(self).regions@
                    &&& !has_nan(old(self)@) && lowest_candidates(old(self)@).len() > 0 ==> collapse_step(
                        *can_reach,
                        *old(self),
                        *final(self),
                        p,
                    )
                },
            },
    {
        let p = self.lowest_entropy(tile_set_size);
        if p.0 >= 0 && p.1 >= 0 {
            proof {
                lemma_candidates(self@, self.size.0 as int);
                let k = choose|k: int| 0 <= k < lowest_candidates(self@).len() && lowest_candidates(self@)[k] == p;
                assert(lowest_candidates(self@)[k] == p);
                lemma_cell_index(self.size, p.0 as int, p.1 as int);
            }
            let (w, h) = self.size;
            let xu = p.0 as usize;
            let hu = h as usize;
            let yu = p.1 as usize;
            let nreg = self.regions.len();
            assert(xu as int == p.0 && hu as int == h && yu as int == p.1);
            let idx: usize = xu * hu + yu;
            assert(idx as int == cell_index(self.size, p.0 as int, p.1 as int));
            let ghost before = *self;
            assert(self.regions@[idx as int].wf());
            let ok = self.regions[idx].try_collapse_with_reach(can_reach, p, (w, h));
            proof {
                assert forall|i: int| 0 <= i < self.regions@.len() implies (#[trigger] self.regions@[i]).wf() by {
                    if i != idx {
                        assert(self.regions@[i] == before.regions@[i]);
                    }
                }
            }
            if ok {
                proof {
                    assert(self.regions@ == before.regions@.update(idx as int, self.regions@[idx as int]));
                    let keep = choose|keep: Seq<bool>|
                        {
                            &&& reach_outcome(*can_reach, before.regions@[idx as int].superposition.key_strings(), needed_reach(p, (w, h)), keep)
                            &&& ok == (0 < total_weight(kept(before.regions@[idx as int]@.superposition, keep)) <= u32::MAX)
                            &&& ok ==> exists|n: int|
                                0 <= n < total_weight(kept(before.regions@[idx as int]@.superposition, keep)) && self.regions@[idx as int]@.superposition
                                    == collapsed_to(before.regions@[idx as int]@.superposition, weighted_pick(kept(before.regions@[idx as int]@.superposition, keep), n))
                        };
                    let n = choose|n: int|
                        0 <= n < total_weight(kept(before.regions@[idx as int]@.superposition, keep)) && self.regions@[idx as int]@.superposition
                            == collapsed_to(before.regions@[idx as int]@.superposition, weighted_pick(kept(before.regions@[idx as int]@.superposition, keep), n));
                    assert(reach_collapsed(*can_reach, before.regions@[idx as int], self.regions@[idx as int]@, p, before.size));
                }
                Some(p)
            } else {
                proof {
                    assert(self.regions@ =~= before.regions@);
                }
                None
            }
        } else {
            proof {
                if !has_nan(self@) && lowest_candidates(self@).len() > 0 {
                    lemma_candidates(self@, self.size.0 as int);
                    let k = choose|k: int| 0 <= k < lowest_candidates(self@).len() && lowest_candidates(self@)[k] == p;
                    assert(lowest_candidates(self@)[k] == p);
                }
            }
            Some(p)
        }
    }

    /// Collapse a region of least positive entropy drawn at random, among the
    /// tiles that pass the reach test there (see `Region::collapse_with_reach`),
    /// and give its position; `(-2, -2)` when some entropy is NaN and
    /// `(-1, -1)` when none is positive, the wave unchanged.
    pub fn collapse<R: Fn(&String, i32, i32, i32, i32) -> bool>(
        &mut self,
        tile_set_size: u32,
        can_reach: &R,
    ) -> (res: (i32, i32))
        requires
            old(self).wf(),
            forall|s: &String, a: i32, b: i32, c: i32, d: i32| can_reach.requires((s, a, b, c, d)),
            never_blocked(*can_reach, *old(self)),
        ensures
            final(self).wf(),
            final(self).size == old(self).size,
            has_nan(old(self)@) ==> res == (-2i32, -2i32) && final(self).regions@ == old(self).regions@,
            !has_nan(old(self)@) && lowest_candidates(old(self)@).len() == 0 ==> res == (-1i32, -1i32)
                && final(self).regions@ == old(self).regions@,
            !has_nan(old(self)@) && lowest_candidates(old(self)@).len() > 0 ==> collapse_step(
                *can_reach,
                *old(self),
                *final(self),
                res,
            ),
    {
        let ghost before = *self;
        match self.try_collapse(tile_set_size, can_reach) {
            Some(p) => p,
            None => {
                proof {
                    let p = choose|p: (i32, i32)|
                        #![trigger lowest_candidates(before@).contains(p)]
                        lowest_candidates(before@).contains(p) && in_grid(before.size, p.0 as int, p.1 as int)
                            && reach_blocked(
                            *can_reach,
                            before.regions@[cell_index(before.size, p.0 as int, p.1 as int)],
                            p,
                            before.size,
                        );
                    lemma_candidates(before@, before.size.0 as int);
                    let k = choose|k: int| 0 <= k < lowest_candidates(before@).len() && lowest_candidates(before@)[k] == p;
                    assert(lowest_candidates(before@)[k] == p);
                    assert(least_positive(before@, cell_index(before.size, p.0 as int, p.1 as int)));
                    assert(!reach_blocked(*can_reach, before.regions@[cell_index(before.size, p.0 as int, p.1 as int)], (p.0, p.1), before.size));
                }
                (-1, -1)
            },
        }
    }
}

/// The position next to `(x, y)` in direction `d`: up, right, down, left for
/// 0 to 3 (up is towards row 0).
pub open spec fn neighbour(x: int, y: int, d: int) -> (int, int) {
    if d == 0 {
        (x, y - 1)
    } else if d == 1 {
        (x + 1, y)
    } else if d == 2 {
        (x, y + 1)
    } else {
        (x - 1, y)
    }
}

/// Every tile still possible next to `(x, y)` in direction `d` is allowed
/// there by the rule of some tile still possible at `(x, y)`.
pub open spec fn allowed_near(w: WaveView, rules: Rules, x: int, y: int, d: int) -> bool {
    let n = neighbour(x, y, d);
    in_grid(w.size, n.0, n.1) ==> forall|j: int|
        0 <= j < region_at(w, n.0, n.1).superposition.len() ==> gathered(region_at(w, x, y).superposition, rules, d).contains(
            #[trigger] region_at(w, n.0, n.1).superposition[j].0,
        )
}

/// The four neighbours of `(x, y)` hold only tiles its own tiles allow.
pub open spec fn supported(w: WaveView, rules: Rules, x: int, y: int) -> bool {
    forall|d: int| 0 <= d < 4 ==> #[trigger] allowed_near(w, rules, x, y, d)
}

/// No region has more than 2^24 possible tiles, so that their numbers are
/// exact as floats.
pub open spec fn all_small(w: WaveView) -> bool {
    forall|i: int| 0 <= i < w.regions.len() ==> #[trigger] w.regions[i].superposition.len() <= 0x100_0000
}

/// No region has more than `u32::MAX` possible tiles.
pub open spec fn counts_fit(w: WaveView) -> bool {
    forall|i: int| 0 <= i < w.regions.len() ==> #[trigger] w.regions[i].superposition.len() <= u32::MAX
}

/// Every possible tile of every region has a rule.
pub open spec fn ruled(w: WaveView, rules: Rules) -> bool {
    forall|i: int, j: int|
        0 <= i < w.regions.len() && 0 <= j < w.regions[i].superposition.len() ==> alist_has(
            rules,
            #[trigger] w.regions[i].superposition[j].0,
        )
}

/// `b` keeps only entries of `a`, has no more of them, and as many only if it
/// is `a`.
pub open spec fn region_shrunk(a: RegionView, b: RegionView) -> bool {
    &&& forall|j: int| 0 <= j < b.superposition.len() ==> a.superposition.contains(#[trigger] b.superposition[j])
    &&& b.superposition.len() <= a.superposition.len()
    &&& b.superposition.len() == a.superposition.len() ==> b == a
}

/// Every region of `new` is a shrunk region of `old`, in the same grid.
pub open spec fn shrunk(old: WaveView, new: WaveView) -> bool {
    &&& new.size == old.size
    &&& new.regions.len() == old.regions.len()
    &&& forall|i: int| 0 <= i < old.regions.len() ==> region_shrunk(old.regions[i], #[trigger] new.regions[i])
}

/// The number of possible tiles over all regions.
pub open spec fn total_size(regions: Seq<RegionView>) -> int
    decreases regions.len(),
{
    if regions.len() == 0 {
        0
    } else {
        total_size(regions.drop_last()) + regions.last().superposition.len()
    }
}

/// A tile is allowed next to a region in direction `d` exactly when the rule of
/// one of the region's tiles lists it there.
pub proof fn lemma_gathered_contains(sp: Weights, rules: Rules, d: int, t: Seq<char>)
    ensures
        gathered(sp, rules, d).contains(t) <==> exists|i: int|
            0 <= i < sp.len() && #[trigger] alist_get(rules, sp[i].0).dir(d).contains(t),
    decreases sp.len(),
{
    if sp.len() > 0 {
        let front = sp.drop_last();
        let p = gathered(front, rules, d);
        let l = alist_get(rules, sp.last().0).dir(d);
        let f = l.filter(unseen(p));
        lemma_gathered_contains(front, rules, d, t);
        assert(gathered(sp, rules, d) == p + f);
        if (p + f).contains(t) {
            let k = choose|k: int| 0 <= k < (p + f).len() && (p + f)[k] == t;
            if k < p.len() {
                assert(p[k] == t);
                let i = choose|i: int| 0 <= i < front.len() && #[trigger] alist_get(rules, front[i].0).dir(d).contains(t);
                assert(front[i] == sp[i]);
            } else {
                assert(f[k - p.len()] == t);
                l.lemma_filter_contains_rev(unseen(p), t);
                assert(sp[sp.len() - 1] == sp.last());
                assert(alist_get(rules, sp[sp.len() - 1].0).dir(d).contains(t));
            }
        }
        if exists|i: int| 0 <= i < sp.len() && #[trigger] alist_get(rules, sp[i].0).dir(d).contains(t) {
            let i = choose|i: int| 0 <= i < sp.len() && #[trigger] alist_get(rules, sp[i].0).dir(d).contains(t);
            if p.contains(t) {
                let k = choose|k: int| 0 <= k < p.len() && p[k] == t;
                assert((p + f)[k] == t);
            } else if i < front.len() {
                assert(front[i] == sp[i]);
                assert(alist_get(rules, front[i].0).dir(d).contains(t));
            } else {
                assert(sp[i] == sp.last());
                let q = choose|q: int| 0 <= q < l.len() && l[q] == t;
                l.lemma_filter_contains(unseen(p), q);
                assert(f.contains(t));
                let k = choose|k: int| 0 <= k < f.len() && f[k] == t;
                assert((p + f)[p.len() + k] == t);
            }
        }
    }
}

/// A region with fewer entries allows fewer tiles next to it.
pub proof fn lemma_gathered_mono(a: Weights, b: Weights, rules: Rules, d: int, t: Seq<char>)
    requires
        forall|j: int| 0 <= j < a.len() ==> b.contains(#[trigger] a[j]),
        gathered(a, rules, d).contains(t),
    ensures
        gathered(b, rules, d).contains(t),
{
    lemma_gathered_contains(a, rules, d, t);
    lemma_gathered_contains(b, rules, d, t);
    let i = choose|i: int| 0 <= i < a.len() && #[trigger] alist_get(rules, a[i].0).dir(d).contains(t);
    assert(b.contains(a[i]));
    let q = choose|q: int| 0 <= q < b.len() && b[q] == a[i];
    assert(alist_get(rules, b[q].0).dir(d).contains(t));
}

/// Some neighbour of `(x, y)` on the grid allows no `t` next to it, in the
/// direction of `(x, y)`.
pub open spec fn ruled_out(w: WaveView, rules: Rules, x: int, y: int, t: Seq<char>) -> bool {
    exists|d: int|
        {
            let n = #[trigger] neighbour(x, y, d);
            &&& 0 <= d < 4
            &&& in_grid(w.size, n.0, n.1)
            &&& !gathered(region_at(w, n.0, n.1).superposition, rules, opposite(d)).contains(t)
        }
}

/// Every tile that `after` removed from a region of `before` is ruled out
/// there by a neighbour in `after`.
pub open spec fn removals_justified(before: WaveView, after: WaveView, rules: Rules) -> bool {
    forall|x: int, y: int, j: int|
        in_grid(before.size, x, y) && 0 <= j < region_at(before, x, y).superposition.len() && !region_at(
            after,
            x,
            y,
        ).superposition.contains(#[trigger] region_at(before, x, y).superposition[j]) ==> ruled_out(
            after,
            rules,
            x,
            y,
            region_at(before, x, y).superposition[j].0,
        )
}

/// A tile ruled out stays ruled out as the regions shrink.
pub proof fn lemma_ruled_out_shrunk(a: WaveView, b: WaveView, rules: Rules, x: int, y: int, t: Seq<char>)
    requires
        shrunk(a, b),
        a.regions.len() == cell_count(a.size),
        ruled_out(a, rules, x, y, t),
    ensures
        ruled_out(b, rules, x, y, t),
{
    let d = choose|d: int|
        {
            let n = #[trigger] neighbour(x, y, d);
            &&& 0 <= d < 4
            &&& in_grid(a.size, n.0, n.1)
            &&& !gathered(region_at(a, n.0, n.1).superposition, rules, opposite(d)).contains(t)
        };
    let n = neighbour(x, y, d);
    lemma_cell_index(a.size, n.0, n.1);
    let i = cell_index(a.size, n.0, n.1);
    assert(region_shrunk(a.regions[i], b.regions[i]));
    if gathered(region_at(b, n.0, n.1).superposition, rules, opposite(d)).contains(t) {
        lemma_gathered_mono(region_at(b, n.0, n.1).superposition, region_at(a, n.0, n.1).superposition, rules, opposite(d), t);
    }
}

/// Justified removals compose.
pub proof fn lemma_justified_trans(a: WaveView, b: WaveView, c: WaveView, rules: Rules)
    requires
        shrunk(a, b),
        shrunk(b, c),
        a.regions.len() == cell_count(a.size),
        removals_justified(a, b, rules),
        removals_justified(b, c, rules),
    ensures
        removals_justified(a, c, rules),
{
    assert forall|x: int, y: int, j: int|
        in_grid(a.size, x, y) && 0 <= j < region_at(a, x, y).superposition.len() && !region_at(
            c,
            x,
            y,
        ).superposition.contains(#[trigger] region_at(a, x, y).superposition[j]) implies ruled_out(
        c,
        rules,
        x,
        y,
        region_at(a, x, y).superposition[j].0,
    ) by {
        let e = region_at(a, x, y).superposition[j];
        lemma_cell_index(a.size, x, y);
        if region_at(b, x, y).superposition.contains(e) {
            let q = choose|q: int| 0 <= q < region_at(b, x, y).superposition.len() && region_at(b, x, y).superposition[q] == e;
            assert(!region_at(c, x, y).superposition.contains(region_at(b, x, y).superposition[q]));
        } else {
            lemma_ruled_out_shrunk(b, c, rules, x, y, e.0);
        }
    }
}

/// Nothing removed, nothing to justify.
pub proof fn lemma_justified_refl(a: WaveView, rules: Rules)
    ensures
        removals_justified(a, a, rules),
{
    assert forall|x: int, y: int, j: int|
        in_grid(a.size, x, y) && 0 <= j < region_at(a, x, y).superposition.len() && !region_at(
            a,
            x,
            y,
        ).superposition.contains(#[trigger] region_at(a, x, y).superposition[j]) implies ruled_out(
        a,
        rules,
        x,
        y,
        region_at(a, x, y).superposition[j].0,
    ) by {
        assert(region_at(a, x, y).superposition.contains(region_at(a, x, y).superposition[j]));
    }
}

/// Shrinking is transitive.
pub proof fn lemma_shrunk_trans(a: WaveView, b: WaveView, c: WaveView)
    requires
        shrunk(a, b),
        shrunk(b, c),
    ensures
        shrunk(a, c),
{
    assert forall|i: int| 0 <= i < a.regions.len() implies region_shrunk(a.regions[i], #[trigger] c.regions[i]) by {
        let ra = a.regions[i];
        let rb = b.regions[i];
        let rc = c.regions[i];
        assert(region_shrunk(ra, rb));
        assert(region_shrunk(rb, rc));
        assert forall|j: int| 0 <= j < rc.superposition.len() implies ra.superposition.contains(#[trigger] rc.superposition[j]) by {
            assert(rb.superposition.contains(rc.superposition[j]));
            let q = choose|q: int| 0 <= q < rb.superposition.len() && rb.superposition[q] == rc.superposition[j];
            assert(ra.superposition.contains(rb.superposition[q]));
        }
    }
}

/// Every wave is a shrunk version of itself.
pub proof fn lemma_shrunk_refl(a: WaveView)
    ensures
        shrunk(a, a),
{
    assert forall|i: int| 0 <= i < a.regions.len() implies region_shrunk(a.regions[i], #[trigger] a.regions[i]) by {
        assert forall|j: int| 0 <= j < a.regions[i].superposition.len() implies a.regions[i].superposition.contains(
            #[trigger] a.regions[i].superposition[j],
        ) by {
        }
    }
}

/// Totals are not negative.
pub proof fn lemma_total_size_nonneg(s: Seq<RegionView>)
    ensures
        total_size(s) >= 0,
    decreases s.len(),
{
    if s.len() > 0 {
        lemma_total_size_nonneg(s.drop_last());
    }
}

/// Changing one region changes the total by the difference of the sizes.
pub proof fn lemma_total_size_update(s: Seq<RegionView>, i: int, r: RegionView)
    requires
        0 <= i < s.len(),
    ensures
        total_size(s.update(i, r)) == total_size(s) - s[i].superposition.len() + r.superposition.len(),
    decreases s.len(),
{
    if i < s.len() - 1 {
        lemma_total_size_update(s.drop_last(), i, r);
        assert(s.update(i, r).drop_last() =~= s.drop_last().update(i, r));
    } else {
        assert(s.update(i, r).drop_last() =~= s.drop_last());
    }
}

/// Shrunk regions add up to no more; to as much only when nothing changed.
pub proof fn lemma_total_size_shrunk(a: Seq<RegionView>, b: Seq<RegionView>)
    requires
        a.len() == b.len(),
        forall|i: int| 0 <= i < a.len() ==> region_shrunk(a[i], #[trigger] b[i]),
    ensures
        total_size(b) <= total_size(a),
        total_size(b) == total_size(a) ==> b == a,
    decreases a.len(),
{
    if a.len() > 0 {
        let n = a.len() - 1;
        assert forall|i: int| 0 <= i < a.drop_last().len() implies region_shrunk(a.drop_last()[i], #[trigger] b.drop_last()[i]) by {
            assert(region_shrunk(a[i], b[i]));
        }
        lemma_total_size_shrunk(a.drop_last(), b.drop_last());
        assert(region_shrunk(a[n], b[n]));
        if total_size(b) == total_size(a) {
            assert(b.drop_last() == a.drop_last());
            assert(b =~= a.drop_last().push(a[n]));
            assert(a =~= a.drop_last().push(a[n]));
        }
    } else {
        assert(b =~= a);
    }
}

/// Support survives when the region itself is unchanged and its neighbours
/// only shrink.
pub proof fn lemma_supported_stable(a: WaveView, b: WaveView, rules: Rules, x: int, y: int)
    requires
        shrunk(a, b),
        a.regions.len() == cell_count(a.size),
        in_grid(a.size, x, y),
        region_at(b, x, y) == region_at(a, x, y),
        supported(a, rules, x, y),
    ensures
        supported(b, rules, x, y),
{
    assert forall|d: int| 0 <= d < 4 implies #[trigger] allowed_near(b, rules, x, y, d) by {
        assert(allowed_near(a, rules, x, y, d));
        let n = neighbour(x, y, d);
        if in_grid(b.size, n.0, n.1) {
            lemma_cell_index(a.size, n.0, n.1);
            let i = cell_index(a.size, n.0, n.1);
            assert(region_shrunk(a.regions[i], b.regions[i]));
            assert forall|j: int| 0 <= j < region_at(b, n.0, n.1).superposition.len() implies gathered(
                region_at(b, x, y).superposition,
                rules,
                d,
            ).contains(#[trigger] region_at(b, n.0, n.1).superposition[j].0) by {
                let e = b.regions[i].superposition[j];
                assert(a.regions[i].superposition.contains(e));
                let q = choose|q: int| 0 <= q < a.regions[i].superposition.len() && a.regions[i].superposition[q] == e;
                assert(region_at(a, n.0, n.1).superposition[q] == e);
            }
        }
    }
}

impl Wave {
    /// Restrict the region of `(x, y)` to the tiles of `allowed` (see
    /// `Region::update`); when that lowered its number of tiles, as a float,
    /// `(x, y)` joins `pending`.
    fn restrict_at<F: Fn(&StrMap<u32>) -> u32>(
        &mut self,
        x: i32,
        y: i32,
        allowed: &Vec<String>,
        entropy_of: &F,
        pending: &mut Vec<(i32, i32)>,
    )
        requires
            old(self).wf(),
            in_grid(old(self).size, x as int, y as int),
            counts_fit(old(self)@),
            forall|m: &StrMap<u32>| entropy_of.requires((m,)),
        ensures
            final(self).wf(),
            final(self).size == old(self).size,
            ({
                let i = cell_index(old(self).size, x as int, y as int);
                let a = old(self)@.regions[i];
                let b = final(self)@.regions[i];
                &&& final(self).regions@ == old(self).regions@.update(i, final(self).regions@[i])
                &&& b.superposition == restricted(a.superposition, allowed.deep_view())
                &&& b.superposition.len() <= a.superposition.len()
                &&& final(pending)@ == old(pending)@.push((x, y)) || final(pending)@ == old(pending)@
                &&& final(pending)@ == old(pending)@.push((x, y)) ==> b.superposition.len() < a.superposition.len()
                    && call_ensures(*entropy_of, (&final(self).regions@[i].superposition,), b.entropy)
                &&& final(pending)@ == old(pending)@ ==> (b.superposition.len() < a.superposition.len() && b.entropy
                    == a.entropy && a.superposition.len() > 0x100_0000) || final(self).regions@[i] == old(
                    self,
                ).regions@[i]
            }),
            shrunk(old(self)@, final(self)@),
            total_size(final(self)@.regions) + final(pending)@.len() - old(pending)@.len() <= total_size(
                old(self)@.regions,
            ),
            all_small(old(self)@) && final(self).regions@[cell_index(old(self).size, x as int, y as int)] != old(
                self,
            ).regions@[cell_index(old(self).size, x as int, y as int)] ==> final(pending)@ == old(pending)@.push((x, y)),
            forall|e: (Seq<char>, u32)|
                #[trigger] old(self)@.regions[cell_index(old(self).size, x as int, y as int)].superposition.contains(e)
                    && !final(self)@.regions[cell_index(old(self).size, x as int, y as int)].superposition.contains(e)
                    ==> !allowed.deep_view().contains(e.0),
    {
        let idx = self.index_at(x, y);
        let ghost before = *self;
        assert(self.regions@[idx as int].wf());
        assert(self@.regions[idx as int] == self.regions@[idx as int]@);
        assert(self@.regions[idx as int].superposition.len() <= u32::MAX);
        let changed = self.regions[idx].update(allowed, entropy_of);
        proof {
            assert forall|i: int| 0 <= i < self.regions@.len() implies (#[trigger] self.regions@[i]).wf() by {
                if i != idx {
                    assert(self.regions@[i] == before.regions@[i]);
                }
            }
            let a = before@.regions[idx as int];
            let b = self@.regions[idx as int];
            assert(b == self.regions@[idx as int]@);
            lemma_restricted_len(a.superposition, allowed.deep_view());
            if changed {
                assert(b.superposition.len() != a.superposition.len());
            } else if b.superposition.len() < a.superposition.len() && a.superposition.len() <= 0x100_0000 {
                lemma_count_bits_mono(b.superposition.len() as u32, a.superposition.len() as u32);
            }
        }
        proof {
            let i = idx as int;
            let a = before@.regions[i];
            let b = self@.regions[i];
            lemma_restricted_sub(a.superposition, allowed.deep_view());
            assert(self@.regions =~= before@.regions.update(i, b));
            if b.superposition.len() == a.superposition.len() {
                assert(self.regions@[i] == before.regions@[i]);
            }
            assert(region_shrunk(a, b));
            assert forall|j: int| 0 <= j < before@.regions.len() implies region_shrunk(
                before@.regions[j],
                #[trigger] self@.regions[j],
            ) by {
                if j != i {
                    lemma_shrunk_refl(before@);
                }
            }
            lemma_total_size_update(before@.regions, i, b);
            if all_small(before@) {
                assert(a.superposition.len() <= 0x100_0000);
            }
            assert forall|e: (Seq<char>, u32)|
                #[trigger] a.superposition.contains(e) && !b.superposition.contains(e) implies !allowed.deep_view().contains(
                e.0,
            ) by {
                if allowed.deep_view().contains(e.0) {
                    let q = choose|q: int| 0 <= q < a.superposition.len() && a.superposition[q] == e;
                    a.superposition.lemma_filter_contains(listed(allowed.deep_view()), q);
                }
            }
        }
        if changed {
            pending.push((x, y));
            proof {
                let b = self@.regions[idx as int];
                assert(call_ensures(*entropy_of, (&self.regions@[idx as int].superposition,), self.regions@[idx as int].entropy));
                assert(b.entropy == self.regions@[idx as int].entropy);
            }
        } else {
            assert(pending@.push((x, y)).len() != pending@.len());
        }
    }
}

/// The direction handled at step `k` of `propagate_from`: left, up, right,
/// down.
pub open spec fn step_dir(k: int) -> int {
    if k == 0 {
        3
    } else {
        k - 1
    }
}

/// What shrinking keeps: rules for every tile, and counts within bounds.
pub proof fn lemma_shrunk_keeps(a: WaveView, b: WaveView, rules: Rules)
    requires
        shrunk(a, b),
    ensures
        ruled(a, rules) ==> ruled(b, rules),
        counts_fit(a) ==> counts_fit(b),
        all_small(a) ==> all_small(b),
{
    assert forall|i: int| 0 <= i < b.regions.len() implies #[trigger] b.regions[i].superposition.len()
        <= a.regions[i].superposition.len() by {
        assert(region_shrunk(a.regions[i], b.regions[i]));
    }
    if ruled(a, rules) {
        assert forall|i: int, j: int|
            0 <= i < b.regions.len() && 0 <= j < b.regions[i].superposition.len() implies alist_has(
            rules,
            #[trigger] b.regions[i].superposition[j].0,
        ) by {
            assert(region_shrunk(a.regions[i], b.regions[i]));
            assert(a.regions[i].superposition.contains(b.regions[i].superposition[j]));
            let q = choose|q: int|
                0 <= q < a.regions[i].superposition.len() && a.regions[i].superposition[q] == b.regions[i].superposition[j];
            assert(alist_has(rules, a.regions[i].superposition[q].0));
        }
    }
}

impl Wave {
    /// Restrict the four neighbours of `(x, y)` (left, up, right, down) to the
    /// tiles the tiles of `(x, y)` allow next to them (see
    /// `Region::get_dir_vectors`), adding to `pending` each neighbour whose
    /// number of tiles went down.
    fn propagate_from<F: Fn(&StrMap<u32>) -> u32>(
        &mut self,
        x: i32,
        y: i32,
        rule_set: &RuleSet,
        entropy_of: &F,
        pending: &mut Vec<(i32, i32)>,
    )
        requires
            old(self).wf(),
            in_grid(old(self).size, x as int, y as int),
            rule_set.wf(),
            ruled(old(self)@, rule_set@.rules),
            counts_fit(old(self)@),
            forall|m: &StrMap<u32>| entropy_of.requires((m,)),
        ensures
            final(self).wf(),
            final(self).size == old(self).size,
            shrunk(old(self)@, final(self)@),
            ruled(final(self)@, rule_set@.rules),
            counts_fit(final(self)@),
            old(pending)@.len() <= final(pending)@.len(),
            final(pending)@.take(old(pending)@.len() as int) == old(pending)@,
            forall|k: int|
                old(pending)@.len() <= k < final(pending)@.len() ==> in_grid(
                    old(self).size,
                    #[trigger] final(pending)@[k].0 as int,
                    final(pending)@[k].1 as int,
                ),
            total_size(final(self)@.regions) + final(pending)@.len() - old(pending)@.len() <= total_size(
                old(self)@.regions,
            ),
            final(self).regions@[cell_index(old(self).size, x as int, y as int)] == old(self).regions@[cell_index(
                old(self).size,
                x as int,
                y as int,
            )],
            forall|i: int|
                0 <= i < old(self).regions@.len() && #[trigger] final(self).regions@[i] != old(self).regions@[i]
                    && all_small(old(self)@) ==> call_ensures(
                    *entropy_of,
                    (&final(self).regions@[i].superposition,),
                    final(self).regions@[i].entropy,
                ),
            all_small(old(self)@) ==> forall|cx: i32, cy: i32|
                #![trigger cell_index(old(self).size, cx as int, cy as int)]
                in_grid(old(self).size, cx as int, cy as int) && final(self).regions@[cell_index(
                    old(self).size,
                    cx as int,
                    cy as int,
                )] != old(self).regions@[cell_index(old(self).size, cx as int, cy as int)]
                    ==> final(pending)@.contains((cx, cy)),
            supported(final(self)@, rule_set@.rules, x as int, y as int),
            removals_justified(old(self)@, final(self)@, rule_set@.rules),
            forall|k: int|
                old(pending)@.len() <= k < final(pending)@.len() ==> region_at(
                    final(self)@,
                    #[trigger] final(pending)@[k].0 as int,
                    final(pending)@[k].1 as int,
                ).superposition.len() < region_at(old(self)@, final(pending)@[k].0 as int, final(pending)@[k].1 as int).superposition.len(),
            forall|other: WaveView|
                entries_kept(old(self)@, other) && supported(other, rule_set@.rules, x as int, y as int) ==> #[trigger] entries_kept(
                    final(self)@,
                    other,
                ),
    {
        let ghost w0 = *self;
        let ghost p0 = pending@;
        let ghost rules = rule_set@.rules;
        let idx = self.index_at(x, y);
        let ghost ip = idx as int;
        assert(self.regions@[ip].wf());
        assert(self@.regions[ip] == self.regions@[ip]@);
        assert forall|i: int| 0 <= i < self@.regions[ip].superposition.len() implies alist_has(
            rules,
            #[trigger] self@.regions[ip].superposition[i].0,
        ) by {
            assert(ruled(w0@, rules));
        }
        let vecs = self.regions[idx].get_dir_vectors(rule_set);
        let ghost sp = self@.regions[ip].superposition;
        let (w, h) = self.size;
        proof {
            lemma_shrunk_refl(self@);
            lemma_justified_refl(self@, rules);
            lemma_cell_index(self.size, x as int, y as int);
        }
        let mut k: usize = 0;
        while k < 4
            invariant
                0 <= k <= 4,
                w0.wf(),
                self.wf(),
                (w, h) == self.size,
                self.size == w0.size,
                in_grid(w0.size, x as int, y as int),
                ip == cell_index(w0.size, x as int, y as int),
                0 <= ip < self.regions@.len(),
                rules == rule_set@.rules,
                forall|m: &StrMap<u32>| entropy_of.requires((m,)),
                vecs@.len() == 4,
                vecs@[0].deep_view() == gathered(sp, rules, 3),
                vecs@[1].deep_view() == gathered(sp, rules, 0),
                vecs@[2].deep_view() == gathered(sp, rules, 1),
                vecs@[3].deep_view() == gathered(sp, rules, 2),
                sp == w0@.regions[ip].superposition,
                shrunk(w0@, self@),
                counts_fit(w0@),
                ruled(w0@, rules),
                p0.len() <= pending@.len(),
                pending@.take(p0.len() as int) == p0,
                forall|q: int|
                    p0.len() <= q < pending@.len() ==> in_grid(w0.size, #[trigger] pending@[q].0 as int, pending@[q].1 as int),
                total_size(self@.regions) + pending@.len() - p0.len() <= total_size(w0@.regions),
                self.regions@[ip] == w0.regions@[ip],
                forall|i: int|
                    0 <= i < w0.regions@.len() && #[trigger] self.regions@[i] != w0.regions@[i] && all_small(w0@)
                        ==> call_ensures(*entropy_of, (&self.regions@[i].superposition,), self.regions@[i].entropy),
                all_small(w0@) ==> forall|cx: i32, cy: i32|
                    #![trigger cell_index(w0.size, cx as int, cy as int)]
                    in_grid(w0.size, cx as int, cy as int) && self.regions@[cell_index(w0.size, cx as int, cy as int)]
                        != w0.regions@[cell_index(w0.size, cx as int, cy as int)] ==> pending@.contains((cx, cy)),
                forall|kk: int| 0 <= kk < k ==> #[trigger] allowed_near(self@, rules, x as int, y as int, step_dir(kk)),
                removals_justified(w0@, self@, rules),
                forall|q: int|
                    p0.len() <= q < pending@.len() ==> region_at(self@, #[trigger] pending@[q].0 as int, pending@[q].1 as int).superposition.len()
                        < region_at(w0@, pending@[q].0 as int, pending@[q].1 as int).superposition.len(),
                forall|other: WaveView|
                    entries_kept(w0@, other) && supported(other, rules, x as int, y as int) ==> #[trigger] entries_kept(
                        self@,
                        other,
                    ),
            decreases 4 - k,
        {
            let ghost wa = *self;
            let ghost pa = pending@;
            let (nx, ny, inside) = if k == 0 {
                (x - 1, y, x > 0)
            } else if k == 1 {
                (x, y - 1, y > 0)
            } else if k == 2 {
                (x + 1, y, x < w - 1)
            } else {
                (x, y + 1, y < h - 1)
            };
            let ghost d = step_dir(k as int);
            assert(inside ==> (nx as int, ny as int) == neighbour(x as int, y as int, d));
            assert(inside <==> in_grid(w0.size, neighbour(x as int, y as int, d).0, neighbour(x as int, y as int, d).1));
            if inside {
                proof {
                    lemma_shrunk_keeps(w0@, self@, rules);
                    lemma_cell_index(self.size, nx as int, ny as int);
                    if cell_index(w0.size, nx as int, ny as int) == ip {
                        lemma_cell_index_inj(w0.size, nx as int, ny as int, x as int, y as int);
                    }
                }
                self.restrict_at(nx, ny, &vecs[k], entropy_of, pending);
                proof {
                    let ni = cell_index(w0.size, nx as int, ny as int);
                    lemma_shrunk_trans(w0@, wa@, self@);
                    assert(vecs@[k as int].deep_view() == gathered(sp, rules, d));
                    // Positions still agree with the pending list.
                    assert(pending@.take(p0.len() as int) =~= p0) by {
                        if pending@ == pa.push((nx, ny)) {
                            assert(pending@.take(p0.len() as int) =~= pa.take(p0.len() as int));
                        }
                    }
                    assert forall|q: int| p0.len() <= q < pending@.len() implies in_grid(
                        w0.size,
                        #[trigger] pending@[q].0 as int,
                        pending@[q].1 as int,
                    ) by {
                        if q < pa.len() {
                            assert(pending@[q] == pa[q]);
                        }
                    }
                    // The new neighbour is allowed by the tiles of (x, y).
                    lemma_restricted_sub(wa@.regions[ni].superposition, vecs@[k as int].deep_view());
                    assert(self@.regions[ip] == wa@.regions[ip]);
                    assert(allowed_near(self@, rules, x as int, y as int, d)) by {
                        assert forall|j: int| 0 <= j < region_at(self@, nx as int, ny as int).superposition.len() implies gathered(
                            region_at(self@, x as int, y as int).superposition,
                            rules,
                            d,
                        ).contains(#[trigger] region_at(self@, nx as int, ny as int).superposition[j].0) by {
                            assert(region_at(self@, nx as int, ny as int).superposition[j] == self@.regions[ni].superposition[j]);
                        }
                    }
                    // What the neighbour lost is ruled out by (x, y).
                    assert(removals_justified(wa@, self@, rules)) by {
                        assert forall|cx: int, cy: int, j: int|
                            in_grid(wa.size, cx, cy) && 0 <= j < region_at(wa@, cx, cy).superposition.len() && !region_at(
                                self@,
                                cx,
                                cy,
                            ).superposition.contains(#[trigger] region_at(wa@, cx, cy).superposition[j]) implies ruled_out(
                            self@,
                            rules,
                            cx,
                            cy,
                            region_at(wa@, cx, cy).superposition[j].0,
                        ) by {
                            let e = region_at(wa@, cx, cy).superposition[j];
                            lemma_cell_index(w0.size, cx, cy);
                            let ci = cell_index(w0.size, cx, cy);
                            if ci != ni {
                                assert(self.regions@[ci] == wa.regions@[ci]);
                                assert(region_at(self@, cx, cy).superposition.contains(e));
                            }
                            lemma_cell_index_inj(w0.size, cx, cy, nx as int, ny as int);
                            assert(wa@.regions[ni].superposition.contains(e));
                            assert(!vecs@[k as int].deep_view().contains(e.0));
                            let od = opposite(d);
                            assert(neighbour(cx, cy, od) == (x as int, y as int));
                            assert(opposite(od) == d);
                            assert(region_at(self@, x as int, y as int).superposition == sp);
                        }
                    }
                    lemma_justified_trans(w0@, wa@, self@, rules);
                    // Pushed positions have fewer tiles than they started with.
                    assert forall|q: int|
                        p0.len() <= q < pending@.len() implies region_at(self@, #[trigger] pending@[q].0 as int, pending@[q].1 as int).superposition.len()
                            < region_at(w0@, pending@[q].0 as int, pending@[q].1 as int).superposition.len() by {
                        let c = pending@[q];
                        lemma_cell_index(w0.size, c.0 as int, c.1 as int);
                        let ci = cell_index(w0.size, c.0 as int, c.1 as int);
                        assert(region_shrunk(w0@.regions[ci], wa@.regions[ci]));
                        if q < pa.len() {
                            assert(pending@[q] == pa[q]);
                            if ci == ni {
                                assert(region_shrunk(wa@.regions[ci], self@.regions[ci]));
                            } else {
                                assert(self.regions@[ci] == wa.regions@[ci]);
                            }
                        } else {
                            assert(c == (nx, ny));
                        }
                    }
                    // Whatever supports the tiles of (x, y) keeps within the result.
                    assert forall|other: WaveView|
                        entries_kept(w0@, other) && supported(other, rules, x as int, y as int) implies #[trigger] entries_kept(
                        self@,
                        other,
                    ) by {
                        assert(entries_kept(wa@, other));
                        assert forall|i: int, j: int|
                            0 <= i < self@.regions.len() && 0 <= j < other.regions[i].superposition.len() implies self@.regions[i].superposition.contains(
                            #[trigger] other.regions[i].superposition[j],
                        ) by {
                            let e = other.regions[i].superposition[j];
                            assert(wa@.regions[i].superposition.contains(e));
                            if i == ni {
                                assert(allowed_near(other, rules, x as int, y as int, d));
                                assert(region_at(other, nx as int, ny as int).superposition[j] == e);
                                assert(gathered(region_at(other, x as int, y as int).superposition, rules, d).contains(e.0));
                                assert forall|jj: int| 0 <= jj < region_at(other, x as int, y as int).superposition.len() implies sp.contains(
                                    #[trigger] region_at(other, x as int, y as int).superposition[jj],
                                ) by {
                                    assert(wa@.regions[ip].superposition.contains(other.regions[ip].superposition[jj]));
                                }
                                lemma_gathered_mono(region_at(other, x as int, y as int).superposition, sp, rules, d, e.0);
                                let q = choose|q: int| 0 <= q < wa@.regions[i].superposition.len() && wa@.regions[i].superposition[q] == e;
                                wa@.regions[i].superposition.lemma_filter_contains(listed(vecs@[k as int].deep_view()), q);
                            } else {
                                assert(self.regions@[i] == wa.regions@[i]);
                            }
                        }
                    }
                    // Earlier directions are untouched.
                    assert forall|kk: int| 0 <= kk < k + 1 implies #[trigger] allowed_near(
                        self@,
                        rules,
                        x as int,
                        y as int,
                        step_dir(kk),
                    ) by {
                        if kk < k {
                            assert(allowed_near(wa@, rules, x as int, y as int, step_dir(kk)));
                            let n2 = neighbour(x as int, y as int, step_dir(kk));
                            if in_grid(w0.size, n2.0, n2.1) {
                                lemma_cell_index(w0.size, n2.0, n2.1);
                                if cell_index(w0.size, n2.0, n2.1) == ni {
                                    lemma_cell_index_inj(w0.size, n2.0, n2.1, nx as int, ny as int);
                                }
                                assert(region_at(self@, n2.0, n2.1) == region_at(wa@, n2.0, n2.1));
                            }
                        }
                    }
                    // Entropies and the pending list for changed regions.
                    assert forall|i: int|
                        0 <= i < w0.regions@.len() && #[trigger] self.regions@[i] != w0.regions@[i] && all_small(w0@) implies call_ensures(
                        *entropy_of,
                        (&self.regions@[i].superposition,),
                        self.regions@[i].entropy,
                    ) by {
                        if i != ni {
                            assert(self.regions@[i] == wa.regions@[i]);
                        } else if self.regions@[i] == wa.regions@[i] {
                        } else {
                            lemma_shrunk_keeps(w0@, wa@, rules);
                        }
                    }
                    if all_small(w0@) {
                        lemma_shrunk_keeps(w0@, wa@, rules);
                        assert forall|cx: i32, cy: i32|
                            #![trigger cell_index(w0.size, cx as int, cy as int)]
                            in_grid(w0.size, cx as int, cy as int) && self.regions@[cell_index(w0.size, cx as int, cy as int)]
                                != w0.regions@[cell_index(w0.size, cx as int, cy as int)] implies pending@.contains((cx, cy)) by {
                            let ci = cell_index(w0.size, cx as int, cy as int);
                            lemma_cell_index(w0.size, cx as int, cy as int);
                            if ci == ni && self.regions@[ci] != wa.regions@[ci] {
                                lemma_cell_index_inj(w0.size, cx as int, cy as int, nx as int, ny as int);
                                assert(pending@[pending@.len() - 1] == (cx, cy));
                            } else {
                                assert(self.regions@[ci] == wa.regions@[ci]);
                                assert(pa.contains((cx, cy)));
                                let q = choose|q: int| 0 <= q < pa.len() && pa[q] == (cx, cy);
                                assert(pending@[q] == (cx, cy));
                            }
                        }
                    }
                }
            } else {
                proof {
                    assert(allowed_near(self@, rules, x as int, y as int, d));
                }
            }
            k += 1;
        }
        proof {
            lemma_shrunk_keeps(w0@, self@, rules);
            assert forall|d: int| 0 <= d < 4 implies #[trigger] allowed_near(self@, rules, x as int, y as int, d) by {
                let kk = if d == 3 { 0 } else { d + 1 };
                assert(step_dir(kk) == d);
                assert(allowed_near(self@, rules, x as int, y as int, step_dir(kk)));
            }
        }
    }
}

/// What propagating from `i_pos` leaves: regions only lose tiles, each tile
/// lost is ruled out by a neighbour, nothing is lost that any smaller wave in
/// which `i_pos` and the changed regions support their neighbours keeps, and,
/// when no region has more than 2^24 tiles, `i_pos` and every region that
/// changed do support their neighbours.
pub open spec fn propagated(before: WaveView, after: WaveView, i_pos: (i32, i32), rules: Rules) -> bool {
    &&& shrunk(before, after)
    &&& removals_justified(before, after, rules)
    &&& forall|other: WaveView|
        entries_kept(before, other) && (forall|x: i32, y: i32|
            in_grid(before.size, x as int, y as int) && ((x, y) == i_pos || region_at(after, x as int, y as int)
                != region_at(before, x as int, y as int)) ==> #[trigger] supported(other, rules, x as int, y as int))
            ==> #[trigger] entries_kept(after, other)
    &&& all_small(before) ==> forall|x: i32, y: i32|
        #![trigger region_at(after, x as int, y as int)]
        in_grid(before.size, x as int, y as int) && ((x, y) == i_pos || region_at(after, x as int, y as int) != region_at(
            before,
            x as int,
            y as int,
        )) ==> supported(after, rules, x as int, y as int)
}

/// When no region has more than 2^24 tiles, every region that changed has
/// the entropy `entropy_of` gives for its tiles.
pub open spec fn entropies_recomputed<F: Fn(&StrMap<u32>) -> u32>(before: WaveView, after: Wave, entropy_of: F) -> bool {
    all_small(before) ==> forall|i: int|
        0 <= i < before.regions.len() && #[trigger] after@.regions[i] != before.regions[i] ==> call_ensures(
            entropy_of,
            (&after.regions@[i].superposition,),
            after@.regions[i].entropy,
        )
}

impl Wave {
    /// Propagate a change at `i_pos`: round after round, the neighbours of
    /// each position of the round are restricted to the tiles that position
    /// allows next to it (see `Region::get_dir_vectors`), and the neighbours
    /// whose number of tiles went down make the next round, until a round
    /// changes nothing. Regions only lose tiles, each ruled out by a
    /// neighbour, and lose none that a smaller wave supported at `i_pos` and at
    /// the changed regions keeps (see `propagated`); when no region has more
    /// than 2^24 tiles, every region that changed, and `i_pos`, end up
    /// supporting their neighbours, so that the result is the greatest such
    /// wave, and every region that changed has its entropy recomputed by
    /// `entropy_of`.
    pub fn start_propagate<F: Fn(&StrMap<u32>) -> u32>(
        &mut self,
        i_pos: (i32, i32),
        rule_set: &RuleSet,
        entropy_of: &F,
    )
        requires
            old(self).wf(),
            in_grid(old(self).size, i_pos.0 as int, i_pos.1 as int),
            rule_set.wf(),
            ruled(old(self)@, rule_set@.rules),
            counts_fit(old(self)@),
            forall|m: &StrMap<u32>| entropy_of.requires((m,)),
        ensures
            final(self).wf(),
            final(self).size == old(self).size,
            shrunk(old(self)@, final(self)@),
            ruled(final(self)@, rule_set@.rules),
            counts_fit(final(self)@),
            propagated(old(self)@, final(self)@, i_pos, rule_set@.rules),
            entropies_recomputed(old(self)@, *final(self), *entropy_of),
    {
        let ghost w0 = *self;
        let ghost rules = rule_set@.rules;
        let mut pos_v: Vec<(i32, i32)> = Vec::new();
        pos_v.push(i_pos);
        // The positions processed so far.
        let ghost mut done: Seq<(i32, i32)> = Seq::empty();
        proof {
            lemma_shrunk_refl(self@);
            lemma_justified_refl(self@, rules);
            assert(pos_v@[0] == i_pos);
        }
        while pos_v.len() > 0
            invariant
                w0.wf(),
                self.wf(),
                self.size == w0.size,
                in_grid(w0.size, i_pos.0 as int, i_pos.1 as int),
                rule_set.wf(),
                rules == rule_set@.rules,
                forall|m: &StrMap<u32>| entropy_of.requires((m,)),
                shrunk(w0@, self@),
                removals_justified(w0@, self@, rules),
                ruled(self@, rules),
                counts_fit(self@),
                forall|q: int| 0 <= q < pos_v@.len() ==> in_grid(w0.size, #[trigger] pos_v@[q].0 as int, pos_v@[q].1 as int),
                forall|q: int|
                    0 <= q < pos_v@.len() ==> #[trigger] pos_v@[q] == i_pos || region_at(self@, pos_v@[q].0 as int, pos_v@[q].1 as int).superposition.len()
                        < region_at(w0@, pos_v@[q].0 as int, pos_v@[q].1 as int).superposition.len(),
                forall|q: int|
                    0 <= q < done.len() ==> in_grid(w0.size, #[trigger] done[q].0 as int, done[q].1 as int) && (done[q] == i_pos
                        || region_at(self@, done[q].0 as int, done[q].1 as int).superposition.len() < region_at(
                        w0@,
                        done[q].0 as int,
                        done[q].1 as int,
                    ).superposition.len()),
                forall|other: WaveView|
                    entries_kept(w0@, other) && (forall|q: int|
                        0 <= q < done.len() ==> supported(other, rules, #[trigger] done[q].0 as int, done[q].1 as int))
                        ==> #[trigger] entries_kept(self@, other),
                forall|i: int|
                    0 <= i < w0.regions@.len() && #[trigger] self.regions@[i] != w0.regions@[i] && all_small(w0@)
                        ==> call_ensures(*entropy_of, (&self.regions@[i].superposition,), self.regions@[i].entropy),
                all_small(w0@) ==> forall|cx: i32, cy: i32|
                    #![trigger cell_index(w0.size, cx as int, cy as int)]
                    in_grid(w0.size, cx as int, cy as int) && (self.regions@[cell_index(w0.size, cx as int, cy as int)]
                        != w0.regions@[cell_index(w0.size, cx as int, cy as int)] || (cx, cy) == i_pos) ==> pos_v@.contains(
                        (cx, cy),
                    ) || supported(self@, rules, cx as int, cy as int),
            decreases total_size(self@.regions) + if pos_v@.len() > 0 {
                1int
            } else {
                0int
            },
        {
            let ghost wr = *self;
            let mut new_pos_v: Vec<(i32, i32)> = Vec::new();
            let mut k: usize = 0;
            assert(pos_v@.skip(0) =~= pos_v@);
            while k < pos_v.len()
                invariant
                    w0.wf(),
                    self.wf(),
                    self.size == w0.size,
                    0 <= k <= pos_v@.len(),
                    rule_set.wf(),
                    rules == rule_set@.rules,
                    forall|m: &StrMap<u32>| entropy_of.requires((m,)),
                    shrunk(w0@, self@),
                    removals_justified(w0@, self@, rules),
                    ruled(self@, rules),
                    counts_fit(self@),
                    forall|q: int| 0 <= q < pos_v@.len() ==> in_grid(w0.size, #[trigger] pos_v@[q].0 as int, pos_v@[q].1 as int),
                    forall|q: int|
                        0 <= q < pos_v@.len() ==> #[trigger] pos_v@[q] == i_pos || region_at(self@, pos_v@[q].0 as int, pos_v@[q].1 as int).superposition.len()
                            < region_at(w0@, pos_v@[q].0 as int, pos_v@[q].1 as int).superposition.len(),
                    forall|q: int|
                        0 <= q < new_pos_v@.len() ==> region_at(self@, #[trigger] new_pos_v@[q].0 as int, new_pos_v@[q].1 as int).superposition.len()
                            < region_at(w0@, new_pos_v@[q].0 as int, new_pos_v@[q].1 as int).superposition.len(),
                    forall|q: int|
                        0 <= q < done.len() ==> in_grid(w0.size, #[trigger] done[q].0 as int, done[q].1 as int) && (done[q] == i_pos
                            || region_at(self@, done[q].0 as int, done[q].1 as int).superposition.len() < region_at(
                            w0@,
                            done[q].0 as int,
                            done[q].1 as int,
                        ).superposition.len()),
                    forall|other: WaveView|
                        entries_kept(w0@, other) && (forall|q: int|
                            0 <= q < done.len() ==> supported(other, rules, #[trigger] done[q].0 as int, done[q].1 as int))
                            ==> #[trigger] entries_kept(self@, other),
                    forall|q: int|
                        0 <= q < new_pos_v@.len() ==> in_grid(w0.size, #[trigger] new_pos_v@[q].0 as int, new_pos_v@[q].1 as int),
                    total_size(self@.regions) + new_pos_v@.len() <= total_size(wr@.regions),
                    forall|i: int|
                        0 <= i < w0.regions@.len() && #[trigger] self.regions@[i] != w0.regions@[i] && all_small(w0@)
                            ==> call_ensures(*entropy_of, (&self.regions@[i].superposition,), self.regions@[i].entropy),
                    all_small(w0@) ==> forall|cx: i32, cy: i32|
                        #![trigger cell_index(w0.size, cx as int, cy as int)]
                        in_grid(w0.size, cx as int, cy as int) && (self.regions@[cell_index(w0.size, cx as int, cy as int)]
                            != w0.regions@[cell_index(w0.size, cx as int, cy as int)] || (cx, cy) == i_pos) ==> pos_v@.skip(
                            k as int,
                        ).contains((cx, cy)) || new_pos_v@.contains((cx, cy)) || supported(self@, rules, cx as int, cy as int),
                decreases pos_v@.len() - k,
            {
                let (x, y) = pos_v[k];
                assert(in_grid(w0.size, pos_v@[k as int].0 as int, pos_v@[k as int].1 as int));
                let ghost wa = *self;
                let ghost na = new_pos_v@;
                let ghost da = done;
                self.propagate_from(x, y, rule_set, entropy_of, &mut new_pos_v);
                proof {
                    done = done.push((x, y));
                    let ghost ip = cell_index(w0.size, x as int, y as int);
                    lemma_cell_index(w0.size, x as int, y as int);
                    assert forall|q: int|
                        0 <= q < pos_v@.len() implies #[trigger] pos_v@[q] == i_pos || region_at(self@, pos_v@[q].0 as int, pos_v@[q].1 as int).superposition.len()
                            < region_at(w0@, pos_v@[q].0 as int, pos_v@[q].1 as int).superposition.len() by {
                        let c = pos_v@[q];
                        lemma_cell_index(w0.size, c.0 as int, c.1 as int);
                        let ci = cell_index(w0.size, c.0 as int, c.1 as int);
                        assert(region_shrunk(wa@.regions[ci], self@.regions[ci]));
                    }
                    assert forall|q: int|
                        0 <= q < new_pos_v@.len() implies region_at(self@, #[trigger] new_pos_v@[q].0 as int, new_pos_v@[q].1 as int).superposition.len()
                            < region_at(w0@, new_pos_v@[q].0 as int, new_pos_v@[q].1 as int).superposition.len() by {
                        let c = new_pos_v@[q];
                        if q < na.len() {
                            assert(new_pos_v@.take(na.len() as int)[q] == na[q]);
                            assert(new_pos_v@[q] == na[q]);
                        }
                        assert(in_grid(w0.size, c.0 as int, c.1 as int));
                        lemma_cell_index(w0.size, c.0 as int, c.1 as int);
                        let ci = cell_index(w0.size, c.0 as int, c.1 as int);
                        assert(region_shrunk(w0@.regions[ci], wa@.regions[ci]));
                        assert(region_shrunk(wa@.regions[ci], self@.regions[ci]));
                    }
                    assert forall|q: int| 0 <= q < done.len() implies in_grid(w0.size, #[trigger] done[q].0 as int, done[q].1 as int)
                        && (done[q] == i_pos || region_at(self@, done[q].0 as int, done[q].1 as int).superposition.len()
                        < region_at(w0@, done[q].0 as int, done[q].1 as int).superposition.len()) by {
                        let c = done[q];
                        if q < da.len() {
                            assert(c == da[q]);
                            lemma_cell_index(w0.size, c.0 as int, c.1 as int);
                            let ci = cell_index(w0.size, c.0 as int, c.1 as int);
                            assert(region_shrunk(wa@.regions[ci], self@.regions[ci]));
                        } else {
                            assert(c == (x, y));
                            assert(c == pos_v@[k as int]);
                            assert(self.regions@[ip] == wa.regions@[ip]);
                        }
                    }
                    assert forall|other: WaveView|
                        entries_kept(w0@, other) && (forall|q: int|
                            0 <= q < done.len() ==> supported(other, rules, #[trigger] done[q].0 as int, done[q].1 as int))
                            implies #[trigger] entries_kept(self@, other) by {
                        assert forall|q: int| 0 <= q < da.len() implies supported(other, rules, #[trigger] da[q].0 as int, da[q].1 as int) by {
                            assert(done[q] == da[q]);
                        }
                        assert(entries_kept(wa@, other));
                        assert(done[da.len() as int] == (x, y));
                        assert(supported(other, rules, x as int, y as int));
                    }
                    lemma_justified_trans(w0@, wa@, self@, rules);
                    lemma_shrunk_trans(w0@, wa@, self@);
                    lemma_shrunk_keeps(w0@, wa@, rules);
                    assert forall|q: int| 0 <= q < new_pos_v@.len() implies in_grid(
                        w0.size,
                        #[trigger] new_pos_v@[q].0 as int,
                        new_pos_v@[q].1 as int,
                    ) by {
                        if q < na.len() {
                            assert(new_pos_v@.take(na.len() as int)[q] == na[q]);
                        }
                    }
                    assert forall|i: int|
                        0 <= i < w0.regions@.len() && #[trigger] self.regions@[i] != w0.regions@[i] && all_small(w0@) implies call_ensures(
                        *entropy_of,
                        (&self.regions@[i].superposition,),
                        self.regions@[i].entropy,
                    ) by {
                        if self.regions@[i] == wa.regions@[i] {
                        } else {
                        }
                    }
                    if all_small(w0@) {
                        assert forall|cx: i32, cy: i32|
                            #![trigger cell_index(w0.size, cx as int, cy as int)]
                            in_grid(w0.size, cx as int, cy as int) && (self.regions@[cell_index(
                                w0.size,
                                cx as int,
                                cy as int,
                            )] != w0.regions@[cell_index(w0.size, cx as int, cy as int)] || (cx, cy) == i_pos) implies pos_v@.skip(
                            k + 1,
                        ).contains((cx, cy)) || new_pos_v@.contains((cx, cy)) || supported(self@, rules, cx as int, cy as int) by {
                            let ci = cell_index(w0.size, cx as int, cy as int);
                            lemma_cell_index(w0.size, cx as int, cy as int);
                            if self.regions@[ci] != wa.regions@[ci] {
                                assert(new_pos_v@.contains((cx, cy)));
                            } else if (cx, cy) == (x, y) {
                            } else {
                                assert(wa.regions@[ci] != w0.regions@[ci] || (cx, cy) == i_pos);
                                if pos_v@.skip(k as int).contains((cx, cy)) {
                                    let q = choose|q: int| 0 <= q < pos_v@.skip(k as int).len() && pos_v@.skip(k as int)[q] == (cx, cy);
                                    assert(q != 0);
                                    assert(pos_v@.skip(k + 1)[q - 1] == (cx, cy));
                                } else if na.contains((cx, cy)) {
                                    let q = choose|q: int| 0 <= q < na.len() && na[q] == (cx, cy);
                                    assert(new_pos_v@.take(na.len() as int)[q] == na[q]);
                                    assert(new_pos_v@[q] == (cx, cy));
                                } else {
                                    assert(supported(wa@, rules, cx as int, cy as int));
                                    assert(region_at(self@, cx as int, cy as int) == region_at(wa@, cx as int, cy as int));
                                    lemma_supported_stable(wa@, self@, rules, cx as int, cy as int);
                                }
                            }
                        }
                    }
                }
                k += 1;
            }
            proof {
                assert(pos_v@.skip(k as int) =~= Seq::<(i32, i32)>::empty());
                assert(total_size(self@.regions) + new_pos_v@.len() <= total_size(wr@.regions));
            }
            pos_v = new_pos_v;
            proof {
                lemma_total_size_nonneg(self@.regions);
            }
            assert(total_size(self@.regions) + (if pos_v@.len() > 0 { 1int } else { 0int }) < total_size(wr@.regions) + 1);
        }
        proof {
            lemma_shrunk_keeps(w0@, self@, rules);
            if all_small(w0@) {
                assert forall|x: i32, y: i32|
                    #![trigger region_at(self@, x as int, y as int)]
                    in_grid(w0.size, x as int, y as int) && ((x, y) == i_pos || region_at(self@, x as int, y as int)
                        != region_at(w0@, x as int, y as int)) implies supported(self@, rules, x as int, y as int) by {
                    let ci = cell_index(w0.size, x as int, y as int);
                    lemma_cell_index(w0.size, x as int, y as int);
                    if region_at(self@, x as int, y as int) != region_at(w0@, x as int, y as int) {
                        assert(self.regions@[ci] != w0.regions@[ci]);
                    }
                }
            }
            if all_small(w0@) {
                assert forall|i: int|
                    0 <= i < w0@.regions.len() && #[trigger] self@.regions[i] != w0@.regions[i] implies call_ensures(
                    *entropy_of,
                    (&self.regions@[i].superposition,),
                    self@.regions[i].entropy,
                ) by {
                    assert(self.regions@[i] != w0.regions@[i]);
                }
            }
        }
    }
}

/// The number of regions with a positive entropy.
pub open spec fn positive_count(regions: Seq<RegionView>) -> int
    decreases regions.len(),
{
    if regions.len() == 0 {
        0
    } else {
        positive_count(regions.drop_last()) + if crate::entropy::f32_positive(regions.last().entropy) {
            1int
        } else {
            0int
        }
    }
}

/// Counts are not negative.
pub proof fn lemma_positive_count_nonneg(s: Seq<RegionView>)
    ensures
        positive_count(s) >= 0,
    decreases s.len(),
{
    if s.len() > 0 {
        lemma_positive_count_nonneg(s.drop_last());
    }
}

/// Changing one region changes the count by that region alone.
pub proof fn lemma_positive_count_update(s: Seq<RegionView>, i: int, r: RegionView)
    requires
        0 <= i < s.len(),
    ensures
        positive_count(s.update(i, r)) == positive_count(s) - (if crate::entropy::f32_positive(s[i].entropy) {
            1int
        } else {
            0int
        }) + (if crate::entropy::f32_positive(r.entropy) {
            1int
        } else {
            0int
        }),
    decreases s.len(),
{
    if i < s.len() - 1 {
        lemma_positive_count_update(s.drop_last(), i, r);
        assert(s.update(i, r).drop_last() =~= s.drop_last().update(i, r));
    } else {
        assert(s.update(i, r).drop_last() =~= s.drop_last());
    }
}

/// Every region of `after` holds only entries its region in `before` had.
pub open spec fn entries_kept(before: WaveView, after: WaveView) -> bool {
    &&& after.size == before.size
    &&& after.regions.len() == before.regions.len()
    &&& forall|i: int, j: int|
        0 <= i < before.regions.len() && 0 <= j < after.regions[i].superposition.len()
            ==> before.regions[i].superposition.contains(#[trigger] after.regions[i].superposition[j])
}

/// Keeping entries composes, and shrinking keeps entries.
pub proof fn lemma_entries_kept_trans(a: WaveView, b: WaveView, c: WaveView)
    requires
        entries_kept(a, b),
        entries_kept(b, c) || shrunk(b, c),
    ensures
        entries_kept(a, c),
{
    assert forall|i: int, j: int|
        0 <= i < a.regions.len() && 0 <= j < c.regions[i].superposition.len() implies a.regions[i].superposition.contains(
        #[trigger] c.regions[i].superposition[j],
    ) by {
        if shrunk(b, c) {
            assert(region_shrunk(b.regions[i], c.regions[i]));
        }
        assert(b.regions[i].superposition.contains(c.regions[i].superposition[j]));
        let q = choose|q: int| 0 <= q < b.regions[i].superposition.len() && b.regions[i].superposition[q] == c.regions[i].superposition[j];
        assert(a.regions[i].superposition.contains(b.regions[i].superposition[q]));
    }
}

/// A wave keeps its own entries.
pub proof fn lemma_entries_kept_refl(a: WaveView)
    ensures
        entries_kept(a, a),
{
    assert forall|i: int, j: int|
        0 <= i < a.regions.len() && 0 <= j < a.regions[i].superposition.len() implies a.regions[i].superposition.contains(
        #[trigger] a.regions[i].superposition[j],
    ) by {
    }
}

/// Every region of `after` that differs from its region in `before`, except
/// the one at `skip`, supports its neighbours.
pub open spec fn changed_supported(before: WaveView, after: WaveView, rules: Rules, skip: Option<(i32, i32)>) -> bool {
    forall|x: i32, y: i32|
        #![trigger region_at(after, x as int, y as int)]
        in_grid(before.size, x as int, y as int) && region_at(after, x as int, y as int) != region_at(
            before,
            x as int,
            y as int,
        ) && skip != Some((x, y)) ==> supported(after, rules, x as int, y as int)
}

/// Support survives when the region keeps its tiles and the regions keep
/// only entries they had.
pub proof fn lemma_supported_kept(a: WaveView, b: WaveView, rules: Rules, x: int, y: int)
    requires
        entries_kept(a, b),
        a.regions.len() == cell_count(a.size),
        in_grid(a.size, x, y),
        region_at(b, x, y).superposition == region_at(a, x, y).superposition,
        supported(a, rules, x, y),
    ensures
        supported(b, rules, x, y),
{
    assert forall|d: int| 0 <= d < 4 implies #[trigger] allowed_near(b, rules, x, y, d) by {
        assert(allowed_near(a, rules, x, y, d));
        let n = neighbour(x, y, d);
        if in_grid(b.size, n.0, n.1) {
            lemma_cell_index(a.size, n.0, n.1);
            let i = cell_index(a.size, n.0, n.1);
            assert forall|j: int| 0 <= j < region_at(b, n.0, n.1).superposition.len() implies gathered(
                region_at(b, x, y).superposition,
                rules,
                d,
            ).contains(#[trigger] region_at(b, n.0, n.1).superposition[j].0) by {
                let e = b.regions[i].superposition[j];
                assert(a.regions[i].superposition.contains(e));
                let q = choose|q: int| 0 <= q < a.regions[i].superposition.len() && a.regions[i].superposition[q] == e;
                assert(region_at(a, n.0, n.1).superposition[q] == e);
            }
        }
    }
}

/// A region of least positive entropy is blocked at `p`.
pub open spec fn blocked_somewhere<R: Fn(&String, i32, i32, i32, i32) -> bool>(can_reach: R, wave: Wave) -> bool {
    exists|p: (i32, i32)|
        #![trigger lowest_candidates(wave@).contains(p)]
        lowest_candidates(wave@).contains(p) && in_grid(wave.size, p.0 as int, p.1 as int) && reach_blocked(
            can_reach,
            wave.regions@[cell_index(wave.size, p.0 as int, p.1 as int)],
            p,
            wave.size,
        )
}

impl Wave {
    /// Collapse the region at `pos` to `tile` and propagate from it (see
    /// `start_propagate`); a position off the grid changes nothing.
    pub fn set_pos<F: Fn(&StrMap<u32>) -> u32>(
        &mut self,
        pos: (i32, i32),
        tile: String,
        rule_set: &RuleSet,
        entropy_of: &F,
    )
        requires
            old(self).wf(),
            rule_set.wf(),
            ruled(old(self)@, rule_set@.rules),
            counts_fit(old(self)@),
            forall|m: &StrMap<u32>| entropy_of.requires((m,)),
            in_grid(old(self).size, pos.0 as int, pos.1 as int) ==> alist_has(
                region_at(old(self)@, pos.0 as int, pos.1 as int).superposition,
                tile@,
            ),
        ensures
            final(self).wf(),
            final(self).size == old(self).size,
            ruled(final(self)@, rule_set@.rules),
            counts_fit(final(self)@),
            !in_grid(old(self).size, pos.0 as int, pos.1 as int) ==> final(self).regions@ == old(self).regions@,
            in_grid(old(self).size, pos.0 as int, pos.1 as int) ==> ({
                let i = cell_index(old(self).size, pos.0 as int, pos.1 as int);
                let set = RegionView {
                    superposition: collapsed_to(old(self)@.regions[i].superposition, tile@),
                    entropy: 0,
                };
                let mid = WaveView { size: old(self).size, regions: old(self)@.regions.update(i, set) };
                &&& propagated(mid, final(self)@, pos, rule_set@.rules)
                &&& entropies_recomputed(mid, *final(self), *entropy_of)
            }),
    {
        if pos.0 >= 0 && pos.0 < self.size.0 && pos.1 >= 0 && pos.1 < self.size.1 {
            let idx = self.index_at(pos.0, pos.1);
            let ghost before = *self;
            let ghost rules = rule_set@.rules;
            assert(self.regions@[idx as int].wf());
            assert(self@.regions[idx as int] == self.regions@[idx as int]@);
            self.regions[idx].set_tile(tile);
            proof {
                let i = idx as int;
                let set = RegionView {
                    superposition: collapsed_to(before@.regions[i].superposition, tile@),
                    entropy: 0,
                };
                assert(self@.regions =~= before@.regions.update(i, set));
                assert forall|j: int| 0 <= j < self.regions@.len() implies (#[trigger] self.regions@[j]).wf() by {
                    if j != i {
                        assert(self.regions@[j] == before.regions@[j]);
                    }
                }
                assert forall|a: int, b: int|
                    0 <= a < self@.regions.len() && 0 <= b < self@.regions[a].superposition.len() implies alist_has(
                    rules,
                    #[trigger] self@.regions[a].superposition[b].0,
                ) by {
                    if a == i {
                        let q = alist_index(before@.regions[i].superposition, tile@);
                        assert(before@.regions[i].superposition[q].0 == tile@);
                    } else {
                        assert(self@.regions[a] == before@.regions[a]);
                    }
                }
                assert forall|a: int| 0 <= a < self@.regions.len() implies #[trigger] self@.regions[a].superposition.len()
                    <= u32::MAX by {
                    if a != i {
                        assert(self@.regions[a] == before@.regions[a]);
                    }
                }
            }
            self.start_propagate(pos, rule_set, entropy_of);
        }
    }

    /// Collapse the wave: collapse a region of least positive entropy (see
    /// `try_collapse`), propagate from it (see `start_propagate`), and again,
    /// until no region has a positive entropy (`"ok_wave"`) or some entropy is
    /// NaN (`"invalid_wave"`). A drawn region with no tile to collapse to also
    /// ends the work, as `"invalid_wave"`. Regions only keep tiles they had;
    /// when no region has more than 2^24 tiles, every region that changed
    /// supports its neighbours at the end.
    pub fn loop_propagate<R: Fn(&String, i32, i32, i32, i32) -> bool, F: Fn(&StrMap<u32>) -> u32>(
        &mut self,
        tile_set_size: u32,
        rule_set: &RuleSet,
        _results_path: Option<&String>,
        can_reach: &R,
        entropy_of: &F,
    ) -> (res: &'static str)
        requires
            old(self).wf(),
            rule_set.wf(),
            ruled(old(self)@, rule_set@.rules),
            counts_fit(old(self)@),
            forall|s: &String, a: i32, b: i32, c: i32, d: i32| can_reach.requires((s, a, b, c, d)),
            forall|m: &StrMap<u32>| entropy_of.requires((m,)),
        ensures
            final(self).wf(),
            final(self).size == old(self).size,
            ruled(final(self)@, rule_set@.rules),
            counts_fit(final(self)@),
            entries_kept(old(self)@, final(self)@),
            all_small(old(self)@) ==> changed_supported(old(self)@, final(self)@, rule_set@.rules, None),
            (res@ == "ok_wave"@ && !has_nan(final(self)@) && lowest_candidates(final(self)@).len() == 0) || (res@
                == "invalid_wave"@ && (has_nan(final(self)@) || blocked_somewhere(*can_reach, *final(self)))),
    {
        let ghost rules = rule_set@.rules;
        let ghost w0 = *self;
        proof {
            lemma_entries_kept_refl(w0@);
        }
        let first = self.try_collapse(tile_set_size, can_reach);
        let mut pos: (i32, i32) = match first {
            None => {
                return "invalid_wave";
            },
            Some(p) => p,
        };
        if !(pos.0 >= 0 && pos.1 >= 0) {
            proof {
                if !has_nan(w0@) && lowest_candidates(w0@).len() > 0 {
                    assert(in_grid(w0.size, pos.0 as int, pos.1 as int));
                }
                assert(self@ == w0@);
            }
            if pos.0 == -1 && pos.1 == -1 {
                return "ok_wave";
            } else {
                return "invalid_wave";
            }
        }
        proof {
            assert(collapse_step(*can_reach, w0, *self, pos));
            let i = cell_index(w0.size, pos.0 as int, pos.1 as int);
            lemma_cell_index(w0.size, pos.0 as int, pos.1 as int);
            assert(self@.regions =~= w0@.regions.update(i, self@.regions[i]));
            lemma_collapse_step_keeps(*can_reach, w0, *self, pos);
            assert forall|a: int, b: int|
                0 <= a < self@.regions.len() && 0 <= b < self@.regions[a].superposition.len() implies alist_has(
                rules,
                #[trigger] self@.regions[a].superposition[b].0,
            ) by {
                if a != i {
                    assert(self@.regions[a] == w0@.regions[a]);
                } else {
                    let k = self@.regions[i].superposition[0].0;
                    let q = alist_index(w0@.regions[i].superposition, k);
                    assert(w0@.regions[i].superposition[q].0 == k);
                }
            }
            assert forall|a: int| 0 <= a < self@.regions.len() implies #[trigger] self@.regions[a].superposition.len()
                <= u32::MAX by {
                if a != i {
                    assert(self@.regions[a] == w0@.regions[a]);
                }
            }
            if all_small(w0@) {
                assert forall|a: int| 0 <= a < self@.regions.len() implies #[trigger] self@.regions[a].superposition.len()
                    <= 0x100_0000 by {
                    if a != i {
                        assert(self@.regions[a] == w0@.regions[a]);
                    }
                }
            }
            assert forall|x: i32, y: i32|
                #![trigger region_at(self@, x as int, y as int)]
                in_grid(w0.size, x as int, y as int) && region_at(self@, x as int, y as int) != region_at(
                    w0@,
                    x as int,
                    y as int,
                ) && Some(pos) != Some((x, y)) implies supported(self@, rules, x as int, y as int) by {
                lemma_cell_index(w0.size, x as int, y as int);
                if cell_index(w0.size, x as int, y as int) == i {
                    lemma_cell_index_inj(w0.size, x as int, y as int, pos.0 as int, pos.1 as int);
                }
            }
        }
        loop
            invariant_except_break
                self.wf(),
                entries_kept(w0@, self@),
                self.size == w0.size,
                w0.size == old(self).size,
                w0@ == old(self)@,
                rule_set.wf(),
                rules == rule_set@.rules,
                ruled(self@, rules),
                counts_fit(self@),
                forall|s: &String, a: i32, b: i32, c: i32, d: i32| can_reach.requires((s, a, b, c, d)),
                forall|m: &StrMap<u32>| entropy_of.requires((m,)),
                in_grid(self.size, pos.0 as int, pos.1 as int),
                all_small(w0@) ==> all_small(self@),
                all_small(w0@) ==> changed_supported(w0@, self@, rules, Some(pos)),
            ensures
                self.wf(),
                self.size == w0.size,
                entries_kept(w0@, self@),
                all_small(w0@) ==> changed_supported(w0@, self@, rules, None),
                ruled(self@, rules),
                counts_fit(self@),
                !(pos.0 >= 0 && pos.1 >= 0),
                has_nan(self@) ==> pos == (-2i32, -2i32),
                !has_nan(self@) ==> pos == (-1i32, -1i32) && lowest_candidates(self@).len() == 0,
            decreases total_size(self@.regions), positive_count(self@.regions),
        {
            let ghost wa = *self;
            self.start_propagate(pos, rule_set, entropy_of);
            let ghost wb = *self;
            proof {
                lemma_total_size_shrunk(wa@.regions, wb@.regions);
                lemma_shrunk_keeps(wa@, wb@, rules);
                lemma_entries_kept_trans(w0@, wa@, wb@);
                if all_small(w0@) {
                    lemma_entries_kept_refl(wa@);
                    lemma_entries_kept_trans(wa@, wa@, wb@);
                    assert forall|x: i32, y: i32|
                        #![trigger region_at(wb@, x as int, y as int)]
                        in_grid(w0.size, x as int, y as int) && region_at(wb@, x as int, y as int) != region_at(
                            w0@,
                            x as int,
                            y as int,
                        ) && None::<(i32, i32)> != Some((x, y)) implies supported(wb@, rules, x as int, y as int) by {
                        if (x, y) == pos || region_at(wb@, x as int, y as int) != region_at(wa@, x as int, y as int) {
                        } else {
                            assert(region_at(wa@, x as int, y as int) != region_at(w0@, x as int, y as int));
                            assert(Some(pos) != Some((x, y)));
                            lemma_supported_kept(wa@, wb@, rules, x as int, y as int);
                        }
                    }
                }
            }
            match self.try_collapse(tile_set_size, can_reach) {
                None => {
                    proof {
                        assert(self@ =~= wb@);
                    }
                    return "invalid_wave";
                },
                Some(p) => {
                    pos = p;
                },
            }
            if !(pos.0 >= 0 && pos.1 >= 0) {
                proof {
                    if !has_nan(wb@) && lowest_candidates(wb@).len() > 0 {
                        assert(in_grid(wb.size, pos.0 as int, pos.1 as int));
                    }
                    assert(self@ == wb@);
                }
                break;
            }
            proof {
                assert(collapse_step(*can_reach, wb, *self, pos));
                lemma_collapse_step_keeps(*can_reach, wb, *self, pos);
                lemma_entries_kept_trans(w0@, wb@, self@);
                let i = cell_index(wb.size, pos.0 as int, pos.1 as int);
                lemma_cell_index(wb.size, pos.0 as int, pos.1 as int);
                let r = self@.regions[i];
                assert(self@.regions =~= wb@.regions.update(i, r));
                assert(r.entropy == 0);
                assert(!crate::entropy::f32_positive(r.entropy));
                assert(least_positive(wb@, i));
                lemma_total_size_update(wb@.regions, i, r);
                lemma_positive_count_update(wb@.regions, i, r);
                lemma_positive_count_nonneg(self@.regions);
                lemma_total_size_nonneg(self@.regions);
                assert forall|a: int, b: int|
                    0 <= a < self@.regions.len() && 0 <= b < self@.regions[a].superposition.len() implies alist_has(
                    rules,
                    #[trigger] self@.regions[a].superposition[b].0,
                ) by {
                    if a != i {
                        assert(self@.regions[a] == wb@.regions[a]);
                    } else {
                        let k = self@.regions[i].superposition[0].0;
                        let q = alist_index(wb@.regions[i].superposition, k);
                        assert(wb@.regions[i].superposition[q].0 == k);
                    }
                }
                assert forall|a: int| 0 <= a < self@.regions.len() implies #[trigger] self@.regions[a].superposition.len()
                    <= u32::MAX by {
                    if a != i {
                        assert(self@.regions[a] == wb@.regions[a]);
                    }
                }
                if all_small(w0@) {
                    assert forall|a: int| 0 <= a < self@.regions.len() implies #[trigger] self@.regions[a].superposition.len()
                        <= 0x100_0000 by {
                        if a != i {
                            assert(self@.regions[a] == wb@.regions[a]);
                        }
                    }
                    assert forall|x: i32, y: i32|
                        #![trigger region_at(self@, x as int, y as int)]
                        in_grid(w0.size, x as int, y as int) && region_at(self@, x as int, y as int) != region_at(
                            w0@,
                            x as int,
                            y as int,
                        ) && Some(pos) != Some((x, y)) implies supported(self@, rules, x as int, y as int) by {
                        lemma_cell_index(w0.size, x as int, y as int);
                        if cell_index(w0.size, x as int, y as int) == i {
                            lemma_cell_index_inj(w0.size, x as int, y as int, pos.0 as int, pos.1 as int);
                        }
                        assert(region_at(self@, x as int, y as int) == region_at(wb@, x as int, y as int));
                        assert(supported(wb@, rules, x as int, y as int));
                        lemma_supported_kept(wb@, self@, rules, x as int, y as int);
                    }
                }
            }
        }
        if pos.0 == -1 && pos.1 == -1 {
            "ok_wave"
        } else {
            "invalid_wave"
        }
    }
}

} // verus!

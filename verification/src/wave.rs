//! Regions and waves: the possible tiles of each cell of the output grid, and
//! their collapse and propagation.

use vstd::prelude::*;
use crate::strmap::{StrMap, alist_has, alist_get, alist_insert, alist_wf, lemma_alist_index, lemma_alist_insert};
use crate::tile_set::{TileSet, RuleSet, Rules, Names};
use crate::entropy::{count_as_f32, f32_bits_of_count, f32_less, key_of, is_nan};
use crate::random::random_below;
use crate::names::null_name;

verus! {

/// Possible tiles with their weights, in order.
pub type Weights = Seq<(Seq<char>, u32)>;

/// The model of a region.
#[verifier::ext_equal]
pub ghost struct RegionView {
    pub superposition: Weights,
    pub entropy: u32,
}

/// A cell of the wave: the tiles it may still become, each with its weight, and
/// its entropy (a single-precision float, held as its bit pattern).
#[derive(Clone, Debug)]
pub struct Region {
    pub superposition: StrMap<u32>,
    pub entropy: u32,
}

impl View for Region {
    type V = RegionView;

    open spec fn view(&self) -> RegionView {
        RegionView { superposition: self.superposition@, entropy: self.entropy }
    }
}

/// The weights a fresh region gives the tiles: the given probability of each
/// tile, 100 for a tile without one.
pub open spec fn initial_weights(tiles: Names, probabilities: Weights) -> Weights
    decreases tiles.len(),
{
    if tiles.len() == 0 {
        Seq::empty()
    } else {
        let t = tiles.last();
        alist_insert(
            initial_weights(tiles.drop_last(), probabilities),
            t,
            if alist_has(probabilities, t) {
                alist_get(probabilities, t)
            } else {
                100u32
            },
        )
    }
}

/// The sum of the weights.
pub open spec fn total_weight(sp: Weights) -> int
    decreases sp.len(),
{
    if sp.len() == 0 {
        0
    } else {
        total_weight(sp.drop_last()) + sp.last().1
    }
}

/// The tile that draw `n` selects: the weights are laid end to end in order,
/// each tile owning a stretch as long as its weight, and `n` falls in one
/// stretch. `Null` when `n` is past them all.
pub open spec fn weighted_pick(sp: Weights, n: int) -> Seq<char>
    decreases sp.len(),
{
    if sp.len() == 0 {
        null_name()
    } else if n < sp[0].1 {
        sp[0].0
    } else {
        weighted_pick(sp.drop_first(), n - sp[0].1)
    }
}

/// The superposition after collapsing to tile `k`: that tile alone, with its
/// weight.
pub open spec fn collapsed_to(sp: Weights, k: Seq<char>) -> Weights {
    seq![(k, alist_get(sp, k))]
}

/// Weights are sums of the first weight and the rest.
pub proof fn lemma_total_weight_first(sp: Weights)
    requires
        sp.len() > 0,
    ensures
        total_weight(sp) == sp[0].1 + total_weight(sp.drop_first()),
    decreases sp.len(),
{
    if sp.len() > 1 {
        lemma_total_weight_first(sp.drop_last());
        assert(sp.drop_last().drop_first() =~= sp.drop_first().drop_last());
        assert(sp.drop_first().last() == sp.last());
        assert(sp.drop_last()[0] == sp[0]);
        assert(total_weight(sp.drop_first()) == total_weight(sp.drop_first().drop_last()) + sp.drop_first().last().1);
    } else {
        assert(sp.drop_first().len() == 0);
        assert(sp.drop_last().len() == 0);
        assert(total_weight(sp.drop_first()) == 0);
        assert(total_weight(sp.drop_last()) == 0);
        assert(sp.last() == sp[0]);
    }
}

/// Totals are not negative.
pub proof fn lemma_total_weight_nonneg(sp: Weights)
    ensures
        total_weight(sp) >= 0,
    decreases sp.len(),
{
    if sp.len() > 0 {
        lemma_total_weight_nonneg(sp.drop_last());
    }
}

/// A draw below the total selects a tile of the superposition whose weight is
/// not zero.
pub proof fn lemma_weighted_pick_in(sp: Weights, n: int)
    requires
        0 <= n < total_weight(sp),
    ensures
        exists|i: int| 0 <= i < sp.len() && sp[i].0 == weighted_pick(sp, n) && sp[i].1 > 0,
    decreases sp.len(),
{
    lemma_total_weight_first(sp);
    if n < sp[0].1 {
        assert(sp[0].0 == weighted_pick(sp, n));
    } else {
        lemma_weighted_pick_in(sp.drop_first(), n - sp[0].1);
        let i = choose|i: int| 0 <= i < sp.drop_first().len() && sp.drop_first()[i].0 == weighted_pick(sp.drop_first(), n - sp[0].1) && sp.drop_first()[i].1 > 0;
        assert(sp[i + 1] == sp.drop_first()[i]);
    }
}

/// Each tile owns the stretch of draws as long as its weight that begins after
/// the weights before it: every draw in that stretch selects it.
pub proof fn law_weighted_pick_stretch(sp: Weights, i: int, n: int)
    requires
        0 <= i < sp.len(),
        total_weight(sp.take(i)) <= n < total_weight(sp.take(i)) + sp[i].1,
    ensures
        weighted_pick(sp, n) == sp[i].0,
    decreases i,
{
    lemma_total_weight_nonneg(sp.take(i));
    if i == 0 {
        assert(sp.take(0).len() == 0);
        assert(total_weight(sp.take(0)) == 0);
    } else {
        lemma_total_weight_first(sp.take(i));
        assert(sp.take(i).drop_first() =~= sp.drop_first().take(i - 1));
        assert(sp.take(i)[0] == sp[0]);
        assert(sp.drop_first()[i - 1] == sp[i]);
        lemma_total_weight_nonneg(sp.drop_first().take(i - 1));
        assert(n >= sp[0].1);
        law_weighted_pick_stretch(sp.drop_first(), i - 1, n - sp[0].1);
    }
}

/// A copy of a weight map.
pub fn copy_weights(m: &StrMap<u32>) -> (res: StrMap<u32>)
    requires
        m.wf(),
    ensures
        res.wf(),
        res@ == m@,
{
    let mut out: StrMap<u32> = StrMap::new();
    let mut i: usize = 0;
    while i < m.len()
        invariant
            m.wf(),
            i <= m@.len(),
            out.wf(),
            out@ == m@.take(i as int),
        decreases m@.len() - i,
    {
        let k = m.key_at(i).clone();
        let v = *m.value_at(i);
        proof {
            if alist_has(m@.take(i as int), k@) {
                let j = crate::strmap::alist_index(m@.take(i as int), k@);
                assert(m@[j].0 == k@);
            }
        }
        out.insert(k, v);
        assert(out@ =~= m@.take(i + 1));
        i += 1;
    }
    assert(m@.take(m@.len() as int) =~= m@);
    out
}

/// The sum of the weights, when it fits in a `u32`.
pub fn weight_sum(sp: &StrMap<u32>) -> (res: Option<u32>)
    ensures
        match res {
            Some(t) => t == total_weight(sp@),
            None => total_weight(sp@) > u32::MAX,
        },
{
    let mut t: u32 = 0;
    let mut i: usize = 0;
    assert(sp@.take(0) =~= Seq::<(Seq<char>, u32)>::empty());
    while i < sp.len()
        invariant
            i <= sp@.len(),
            t == total_weight(sp@.take(i as int)),
        decreases sp@.len() - i,
    {
        assert(sp@.take(i + 1).drop_last() =~= sp@.take(i as int));
        let w = *sp.value_at(i);
        match t.checked_add(w) {
            Some(s) => {
                t = s;
            },
            None => {
                proof {
                    lemma_total_weight_prefix(sp@, i + 1);
                }
                return None;
            },
        }
        i += 1;
    }
    assert(sp@.take(sp@.len() as int) =~= sp@);
    Some(t)
}

/// Totals grow with the prefix.
pub proof fn lemma_total_weight_prefix(sp: Weights, m: int)
    requires
        0 <= m <= sp.len(),
    ensures
        total_weight(sp.take(m)) <= total_weight(sp),
    decreases sp.len() - m,
{
    if m < sp.len() {
        lemma_total_weight_prefix(sp, m + 1);
        assert(sp.take(m + 1).drop_last() =~= sp.take(m));
    } else {
        assert(sp.take(m) =~= sp);
    }
}

/// How far a position is from the four edges of the wave: above, to the left,
/// below and to the right.
pub open spec fn needed_reach(pos: (i32, i32), size: (i32, i32)) -> (i32, i32, i32, i32) {
    (pos.1, pos.0, (size.1 - pos.1 - 1) as i32, (size.0 - pos.0 - 1) as i32)
}

/// `keep` is an outcome the reach test may give for each key, in order.
pub open spec fn reach_outcome<R: Fn(&String, i32, i32, i32, i32) -> bool>(
    can_reach: R,
    keys: Seq<String>,
    need: (i32, i32, i32, i32),
    keep: Seq<bool>,
) -> bool {
    &&& keep.len() == keys.len()
    &&& forall|i: int|
        0 <= i < keys.len() ==> call_ensures(can_reach, (&keys[i], need.0, need.1, need.2, need.3), #[trigger] keep[i])
}

/// The entries whose `keep` flag is set, in order.
pub open spec fn kept(sp: Weights, keep: Seq<bool>) -> Weights
    decreases sp.len(),
{
    if sp.len() == 0 {
        Seq::empty()
    } else {
        let p = kept(sp.drop_last(), keep.take(sp.len() - 1));
        if keep[sp.len() - 1] {
            p.push(sp.last())
        } else {
            p
        }
    }
}

/// Kept entries are entries.
pub proof fn lemma_kept_sub(sp: Weights, keep: Seq<bool>)
    ensures
        forall|j: int| 0 <= j < kept(sp, keep).len() ==> #[trigger] sp.contains(kept(sp, keep)[j]),
    decreases sp.len(),
{
    if sp.len() > 0 {
        let p = kept(sp.drop_last(), keep.take(sp.len() - 1));
        lemma_kept_sub(sp.drop_last(), keep.take(sp.len() - 1));
        assert forall|j: int| 0 <= j < kept(sp, keep).len() implies #[trigger] sp.contains(kept(sp, keep)[j]) by {
            if j < p.len() {
                assert(kept(sp, keep)[j] == p[j]);
                assert(sp.drop_last().contains(p[j]));
                let q = choose|q: int| 0 <= q < sp.drop_last().len() && sp.drop_last()[q] == p[j];
                assert(sp[q] == p[j]);
            } else {
                assert(sp[sp.len() - 1] == kept(sp, keep)[j]);
            }
        }
    }
}

/// The tiles allowed in direction `d` next to a region: the lists of direction
/// `d` of the rules of its tiles, joined in order, each tile once as it first
/// appears (a list's own repeats stay).
pub open spec fn gathered(sp: Weights, rules: Rules, d: int) -> Names
    decreases sp.len(),
{
    if sp.len() == 0 {
        Seq::empty()
    } else {
        let p = gathered(sp.drop_last(), rules, d);
        p + alist_get(rules, sp.last().0).dir(d).filter(unseen(p))
    }
}

/// The entries whose key is in `names`, in order.
pub open spec fn restricted(sp: Weights, names: Names) -> Weights {
    sp.filter(listed(names))
}

/// The test "the key is in `names`".
pub open spec fn listed(names: Names) -> spec_fn((Seq<char>, u32)) -> bool {
    |e: (Seq<char>, u32)| names.contains(e.0)
}

/// The test "not in `seen`".
pub open spec fn unseen(seen: Names) -> spec_fn(Seq<char>) -> bool {
    |t: Seq<char>| !seen.contains(t)
}

impl Region {
    /// Keys unique.
    pub open spec fn wf(&self) -> bool {
        self.superposition.wf()
    }

    /// A fresh region: every tile of the set may still be chosen, weighted by
    /// its probability (100 where none is given); its entropy is the number of
    /// tiles, as a float.
    pub fn new(tile_set: &TileSet, probabilities: &StrMap<u32>) -> (res: Region)
        requires
            tile_set.size <= tile_set.tiles@.len(),
            probabilities.wf(),
        ensures
            res.wf(),
            res@.superposition == initial_weights(tile_set@.tiles.take(tile_set.size as int), probabilities@),
            res@.entropy == f32_bits_of_count(tile_set.size),
            forall|t: Seq<char>|
                #[trigger] tile_set@.tiles.take(tile_set.size as int).contains(t) ==> alist_has(res@.superposition, t)
                    && alist_get(res@.superposition, t) == if alist_has(probabilities@, t) {
                    alist_get(probabilities@, t)
                } else {
                    100u32
                },
            forall|j: int|
                0 <= j < res@.superposition.len() ==> tile_set@.tiles.take(tile_set.size as int).contains(
                    #[trigger] res@.superposition[j].0,
                ),
    {
        let mut superposition: StrMap<u32> = StrMap::new();
        let entropy = tile_set.size;
        let mut i: u32 = 0;
        assert(tile_set@.tiles.take(0) =~= Seq::<Seq<char>>::empty());
        while i < entropy
            invariant
                entropy == tile_set.size,
                entropy <= tile_set.tiles@.len(),
                i <= entropy,
                probabilities.wf(),
                superposition.wf(),
                superposition@ == initial_weights(tile_set@.tiles.take(i as int), probabilities@),
            decreases entropy - i,
        {
            let k = &tile_set.tiles[i as usize];
            proof {
                assert(tile_set@.tiles.take(i + 1).drop_last() =~= tile_set@.tiles.take(i as int));
                assert(tile_set@.tiles.take(i + 1).last() == k@);
            }
            let w: u32 = match probabilities.get(k) {
                Some(p) => *p,
                None => 100,
            };
            superposition.insert(k.clone(), w);
            i += 1;
        }
        proof {
            law_initial_weights(tile_set@.tiles.take(tile_set.size as int), probabilities@);
        }
        Region { superposition, entropy: count_as_f32(entropy) }
    }

    /// A copy of the region.
    pub fn duplicate(&self) -> (res: Region)
        requires
            self.wf(),
        ensures
            res.wf(),
            res@ == self@,
    {
        Region { superposition: copy_weights(&self.superposition), entropy: self.entropy }
    }

    /// The first possible tile: the tile of a collapsed region.
    pub fn get_tile(&self) -> (res: String)
        requires
            self@.superposition.len() > 0,
        ensures
            res@ == self@.superposition[0].0,
    {
        self.superposition.key_at(0).clone()
    }

    /// Collapse the region to the given tile, keeping its weight; its entropy
    /// becomes 0.
    pub fn set_tile(&mut self, tile: String)
        requires
            old(self).wf(),
            alist_has(old(self)@.superposition, tile@),
        ensures
            final(self).wf(),
            final(self)@.superposition == collapsed_to(old(self)@.superposition, tile@),
            final(self)@.entropy == 0,
    {
        let w = match self.superposition.get(&tile) {
            Some(v) => *v,
            None => 0,
        };
        let mut newsp: StrMap<u32> = StrMap::new();
        newsp.insert(tile, w);
        assert(newsp@ =~= collapsed_to(old(self)@.superposition, tile@));
        self.superposition = newsp;
        self.entropy = 0;
    }

    /// The tile that a draw `n` selects (see `weighted_pick`).
    pub fn pick_weighted(superposition: &StrMap<u32>, n: u32) -> (res: String)
        ensures
            res@ == weighted_pick(superposition@, n as int),
    {
        let mut rest: u32 = n;
        let mut i: usize = 0;
        assert(superposition@.skip(0) =~= superposition@);
        while i < superposition.len()
            invariant
                i <= superposition@.len(),
                weighted_pick(superposition@, n as int) == weighted_pick(superposition@.skip(i as int), rest as int),
            decreases superposition@.len() - i,
        {
            let w = *superposition.value_at(i);
            assert(superposition@.skip(i as int)[0] == superposition@[i as int]);
            assert(superposition@.skip(i as int).drop_first() =~= superposition@.skip(i + 1));
            if rest < w {
                return superposition.key_at(i).clone();
            }
            rest = rest - w;
            i += 1;
        }
        let mut null: Vec<char> = Vec::new();
        null.push('N');
        null.push('u');
        null.push('l');
        null.push('l');
        assert(null@ =~= null_name());
        crate::text::string_from_chars(&null)
    }

    /// A tile drawn at random, each tile as likely as its share of the total
    /// weight: the tile of a random draw below the total (see `weighted_pick`).
    pub fn probability_func(superposition: &StrMap<u32>) -> (res: String)
        requires
            0 < total_weight(superposition@) <= u32::MAX,
        ensures
            exists|n: int| 0 <= n < total_weight(superposition@) && res@ == weighted_pick(superposition@, n),
            alist_has(superposition@, res@),
    {
        let max = match weight_sum(superposition) {
            Some(t) => t,
            None => 1,
        };
        let n = random_below(max);
        let res = Region::pick_weighted(superposition, n);
        proof {
            lemma_weighted_pick_in(superposition@, n as int);
            let i = choose|i: int| 0 <= i < superposition@.len() && superposition@[i].0 == weighted_pick(superposition@, n as int) && superposition@[i].1 > 0;
            assert(superposition@[i].0 == res@);
        }
        res
    }

    /// Collapse the region to a tile drawn at random by weight; its entropy
    /// becomes 0.
    pub fn collapse(&mut self)
        requires
            old(self).wf(),
            0 < total_weight(old(self)@.superposition) <= u32::MAX,
        ensures
            final(self).wf(),
            exists|n: int|
                0 <= n < total_weight(old(self)@.superposition) && final(self)@.superposition == collapsed_to(
                    old(self)@.superposition,
                    weighted_pick(old(self)@.superposition, n),
                ),
            final(self)@.entropy == 0,
    {
        let rk = Region::probability_func(&self.superposition);
        self.set_tile(rk);
    }
}


impl Region {
    /// The entries whose tile passes the reach test from `pos` in a wave of
    /// `size`: the tile can stretch that far towards each edge.
    pub fn filter_for_reach<R: Fn(&String, i32, i32, i32, i32) -> bool>(
        &self,
        can_reach: &R,
        pos: (i32, i32),
        size: (i32, i32),
    ) -> (res: StrMap<u32>)
        requires
            self.wf(),
            i32::MIN < size.0 - pos.0 <= i32::MAX,
            i32::MIN < size.1 - pos.1 <= i32::MAX,
            forall|s: &String, a: i32, b: i32, c: i32, d: i32| can_reach.requires((s, a, b, c, d)),
        ensures
            res.wf(),
            exists|keep: Seq<bool>|
                reach_outcome(*can_reach, self.superposition.key_strings(), needed_reach(pos, size), keep) && res@
                    == kept(self@.superposition, keep),
            exists|keep: Seq<bool>|
                reach_outcome(
                    *can_reach,
                    self.superposition.key_strings(),
                    (pos.1, pos.0, (size.1 - pos.1 - 1) as i32, (size.0 - pos.0 - 1) as i32),
                    keep,
                ) && res@ == kept(self@.superposition, keep),
    {
        let (xp, yp) = pos;
        let (xs, ys) = size;
        let need: (i32, i32, i32, i32) = (yp, xp, ys - yp - 1, xs - xp - 1);
        let ghost keys = self.superposition.key_strings();
        let ghost sp = self@.superposition;
        proof {
            self.superposition.lemma_key_strings();
        }
        let mut res: StrMap<u32> = StrMap::new();
        let ghost mut keep: Seq<bool> = Seq::empty();
        let mut i: usize = 0;
        assert(sp.take(0) =~= Seq::<(Seq<char>, u32)>::empty());
        while i < self.superposition.len()
            invariant
                self.wf(),
                i <= sp.len(),
                sp == self@.superposition,
                keys == self.superposition.key_strings(),
                keys.len() == sp.len(),
                need == needed_reach(pos, size),
                forall|s: &String, a: i32, b: i32, c: i32, d: i32| can_reach.requires((s, a, b, c, d)),
                res.wf(),
                reach_outcome(*can_reach, keys.take(i as int), need, keep),
                res@ == kept(sp.take(i as int), keep),
            decreases sp.len() - i,
        {
            let k = self.superposition.key_at(i);
            let b = can_reach(k, need.0, need.1, need.2, need.3);
            let ghost keep_before = keep;
            proof {
                keep = keep.push(b);
                assert(keys.take(i + 1)[i as int] == *k);
                assert forall|j: int| 0 <= j < keys.take(i + 1).len() implies call_ensures(
                    *can_reach,
                    (&keys.take(i + 1)[j], need.0, need.1, need.2, need.3),
                    #[trigger] keep[j],
                ) by {
                    if j < i {
                        assert(keys.take(i + 1)[j] == keys.take(i as int)[j]);
                        assert(keep[j] == keep_before[j]);
                    }
                }
                assert(sp.take(i + 1).drop_last() =~= sp.take(i as int));
                assert(keep.take(i as int) =~= keep_before);
            }
            if b {
                let w = *self.superposition.value_at(i);
                proof {
                    lemma_kept_sub(sp.take(i as int), keep_before);
                    if alist_has(res@, k@) {
                        let j = crate::strmap::alist_index(res@, k@);
                        assert(sp.take(i as int).contains(res@[j]));
                        let q = choose|q: int| 0 <= q < sp.take(i as int).len() && sp.take(i as int)[q] == res@[j];
                        assert(sp[q].0 == sp[i as int].0);
                    }
                }
                res.insert(k.clone(), w);
                assert(res@ =~= kept(sp.take(i + 1), keep));
            } else {
                assert(res@ =~= kept(sp.take(i + 1), keep));
            }
            i += 1;
        }
        assert(sp.take(sp.len() as int) =~= sp);
        assert(keys.take(sp.len() as int) =~= keys);
        res
    }

    /// Collapse the region to a tile drawn at random by weight among those that
    /// pass the reach test from `pos`, when their weights add up to between 1
    /// and `u32::MAX`; otherwise leave it as it is. Reports whether it
    /// collapsed.
    pub fn try_collapse_with_reach<R: Fn(&String, i32, i32, i32, i32) -> bool>(
        &mut self,
        can_reach: &R,
        pos: (i32, i32),
        size: (i32, i32),
    ) -> (res: bool)
        requires
            old(self).wf(),
            i32::MIN < size.0 - pos.0 <= i32::MAX,
            i32::MIN < size.1 - pos.1 <= i32::MAX,
            forall|s: &String, a: i32, b: i32, c: i32, d: i32| can_reach.requires((s, a, b, c, d)),
        ensures
            final(self).wf(),
            exists|keep: Seq<bool>|
                {
                    &&& reach_outcome(*can_reach, old(self).superposition.key_strings(), needed_reach(pos, size), keep)
                    &&& res == (0 < total_weight(kept(old(self)@.superposition, keep)) <= u32::MAX)
                    &&& res ==> exists|n: int|
                        0 <= n < total_weight(kept(old(self)@.superposition, keep)) && final(self)@.superposition
                            == collapsed_to(old(self)@.superposition, weighted_pick(kept(old(self)@.superposition, keep), n))
                },
            res ==> final(self)@.entropy == 0,
            res ==> final(self)@.superposition.len() == 1 && old(self)@.superposition.len() >= 1 && alist_has(
                old(self)@.superposition,
                final(self)@.superposition[0].0,
            ),
            !res ==> *final(self) == *old(self),
    {
        let filtered = self.filter_for_reach(can_reach, pos, size);
        let ghost keep = choose|keep: Seq<bool>|
            reach_outcome(*can_reach, self.superposition.key_strings(), needed_reach(pos, size), keep) && filtered@
                == kept(self@.superposition, keep);
        let t = match weight_sum(&filtered) {
            Some(t) => t,
            None => 0,
        };
        if t == 0 {
            return false;
        }
        let rk = Region::probability_func(&filtered);
        proof {
            let j = crate::strmap::alist_index(filtered@, rk@);
            lemma_kept_sub(self@.superposition, keep);
            assert(self@.superposition.contains(filtered@[j]));
            let q = choose|q: int| 0 <= q < self@.superposition.len() && self@.superposition[q] == filtered@[j];
            assert(self@.superposition[q].0 == rk@);
        }
        let ghost before = self@.superposition;
        self.set_tile(rk);
        proof {
            lemma_alist_index(before, crate::strmap::alist_index(before, rk@));
        }
        true
    }

    /// Collapse the region to a tile drawn at random by weight among those that
    /// pass the reach test from `pos`; its entropy becomes 0.
    pub fn collapse_with_reach<R: Fn(&String, i32, i32, i32, i32) -> bool>(
        &mut self,
        can_reach: &R,
        pos: (i32, i32),
        size: (i32, i32),
    )
        requires
            old(self).wf(),
            i32::MIN < size.0 - pos.0 <= i32::MAX,
            i32::MIN < size.1 - pos.1 <= i32::MAX,
            forall|s: &String, a: i32, b: i32, c: i32, d: i32| can_reach.requires((s, a, b, c, d)),
            forall|keep: Seq<bool>|
                reach_outcome(*can_reach, old(self).superposition.key_strings(), needed_reach(pos, size), keep)
                    ==> 0 < #[trigger] total_weight(kept(old(self)@.superposition, keep)) <= u32::MAX,
        ensures
            final(self).wf(),
            exists|keep: Seq<bool>, n: int|
                reach_outcome(*can_reach, old(self).superposition.key_strings(), needed_reach(pos, size), keep) && 0
                    <= n < total_weight(kept(old(self)@.superposition, keep)) && final(self)@.superposition
                    == collapsed_to(old(self)@.superposition, weighted_pick(kept(old(self)@.superposition, keep), n)),
            final(self)@.entropy == 0,
    {
        let ok = self.try_collapse_with_reach(can_reach, pos, size);
        proof {
            let keep = choose|keep: Seq<bool>|
                {
                    &&& reach_outcome(*can_reach, old(self).superposition.key_strings(), needed_reach(pos, size), keep)
                    &&& ok == (0 < total_weight(kept(old(self)@.superposition, keep)) <= u32::MAX)
                    &&& ok ==> exists|n: int|
                        0 <= n < total_weight(kept(old(self)@.superposition, keep)) && self@.superposition
                            == collapsed_to(old(self)@.superposition, weighted_pick(kept(old(self)@.superposition, keep), n))
                };
            assert(0 < total_weight(kept(old(self)@.superposition, keep)) <= u32::MAX);
            let n = choose|n: int|
                0 <= n < total_weight(kept(old(self)@.superposition, keep)) && self@.superposition
                    == collapsed_to(old(self)@.superposition, weighted_pick(kept(old(self)@.superposition, keep), n));
            assert(reach_outcome(*can_reach, old(self).superposition.key_strings(), needed_reach(pos, size), keep) && 0
                    <= n < total_weight(kept(old(self)@.superposition, keep)) && self@.superposition
                    == collapsed_to(old(self)@.superposition, weighted_pick(kept(old(self)@.superposition, keep), n)));
        }
    }

    /// The tiles allowed next to the region, by direction: left, up, right,
    /// down (see `gathered`).
    pub fn get_dir_vectors(&self, rule_set: &RuleSet) -> (res: Vec<Vec<String>>)
        requires
            self.wf(),
            rule_set.wf(),
            forall|i: int| 0 <= i < self@.superposition.len() ==> alist_has(rule_set@.rules, #[trigger] self@.superposition[i].0),
        ensures
            res@.len() == 4,
            res@[0].deep_view() == gathered(self@.superposition, rule_set@.rules, 3),
            res@[1].deep_view() == gathered(self@.superposition, rule_set@.rules, 0),
            res@[2].deep_view() == gathered(self@.superposition, rule_set@.rules, 1),
            res@[3].deep_view() == gathered(self@.superposition, rule_set@.rules, 2),
    {
        let ghost sp = self@.superposition;
        let ghost rules = rule_set@.rules;
        let mut left: Vec<String> = Vec::new();
        let mut up: Vec<String> = Vec::new();
        let mut right: Vec<String> = Vec::new();
        let mut down: Vec<String> = Vec::new();
        let mut i: usize = 0;
        assert(sp.take(0) =~= Seq::<(Seq<char>, u32)>::empty());
        assert(left.deep_view() =~= Seq::<Seq<char>>::empty());
        assert(up.deep_view() =~= Seq::<Seq<char>>::empty());
        assert(right.deep_view() =~= Seq::<Seq<char>>::empty());
        assert(down.deep_view() =~= Seq::<Seq<char>>::empty());
        while i < self.superposition.len()
            invariant
                i <= sp.len(),
                sp == self@.superposition,
                rules == rule_set@.rules,
                self.wf(),
                rule_set.wf(),
                forall|j: int| 0 <= j < sp.len() ==> alist_has(rules, #[trigger] sp[j].0),
                left.deep_view() == gathered(sp.take(i as int), rules, 3),
                up.deep_view() == gathered(sp.take(i as int), rules, 0),
                right.deep_view() == gathered(sp.take(i as int), rules, 1),
                down.deep_view() == gathered(sp.take(i as int), rules, 2),
            decreases sp.len() - i,
        {
            let k = self.superposition.key_at(i);
            assert(alist_has(rules, sp[i as int].0));
            let adj_rule = match rule_set.adjacency_rules.get(k) {
                Some(r) => r,
                None => {
                    return Vec::new();
                },
            };
            proof {
                assert(sp.take(i + 1).drop_last() =~= sp.take(i as int));
                assert(sp.take(i + 1).last() == sp[i as int]);
            }
            append_unseen(&mut left, &adj_rule.left_tiles);
            append_unseen(&mut up, &adj_rule.up_tiles);
            append_unseen(&mut right, &adj_rule.right_tiles);
            append_unseen(&mut down, &adj_rule.down_tiles);
            i += 1;
        }
        assert(sp.take(sp.len() as int) =~= sp);
        let mut res: Vec<Vec<String>> = Vec::new();
        res.push(left);
        res.push(up);
        res.push(right);
        res.push(down);
        res
    }

    /// Keep only the tiles listed in `updates`. Reports whether the number of
    /// tiles went down, comparing the counts as single-precision floats; if so
    /// the entropy is recomputed by `entropy_of`.
    pub fn update<F: Fn(&StrMap<u32>) -> u32>(&mut self, updates: &Vec<String>, entropy_of: &F) -> (res: bool)
        requires
            old(self).wf(),
            old(self)@.superposition.len() <= u32::MAX,
            forall|m: &StrMap<u32>| entropy_of.requires((m,)),
        ensures
            final(self).wf(),
            final(self)@.superposition == restricted(old(self)@.superposition, updates.deep_view()),
            res == f32_less(
                f32_bits_of_count(final(self)@.superposition.len() as u32),
                f32_bits_of_count(old(self)@.superposition.len() as u32),
            ),
            res ==> call_ensures(*entropy_of, (&final(self).superposition,), final(self).entropy),
            !res ==> final(self).entropy == old(self).entropy,
            final(self)@.superposition.len() == old(self)@.superposition.len() ==> *final(self) == *old(self),
    {
        let old_len = self.superposition.len();
        let newsp = restrict(&self.superposition, updates);
        let new_len = newsp.len();
        proof {
            lemma_restricted_len(self@.superposition, updates.deep_view());
        }
        if new_len == old_len {
            proof {
                lemma_restricted_full(self@.superposition, updates.deep_view());
            }
            return false;
        }
        self.superposition = newsp;
        let old_bits = count_as_f32(old_len as u32);
        let new_bits = count_as_f32(new_len as u32);
        let res = !is_nan(new_bits) && !is_nan(old_bits) && key_of(new_bits) < key_of(old_bits);
        if res {
            self.entropy = entropy_of(&self.superposition);
        }
        res
    }
}

/// `list` extended by the tiles of `add` it does not hold yet (as it was before).
fn append_unseen(list: &mut Vec<String>, add: &Vec<String>)
    ensures
        final(list).deep_view() == old(list).deep_view() + add.deep_view().filter(unseen(old(list).deep_view())),
{
    let ghost before = list.deep_view();
    let ghost pred = unseen(before);
    let mut batch: Vec<String> = Vec::new();
    let mut i: usize = 0;
    assert(add.deep_view().take(0) =~= Seq::<Seq<char>>::empty());
    assert(batch.deep_view() =~= Seq::<Seq<char>>::empty());
    while i < add.len()
        invariant
            i <= add.len(),
            list.deep_view() == before,
            pred == unseen(before),
            batch.deep_view() == add.deep_view().take(i as int).filter(pred),
        decreases add.len() - i,
    {
        proof {
            assert(add.deep_view().take(i + 1).drop_last() =~= add.deep_view().take(i as int));
            assert(add.deep_view().take(i + 1).last() == add@[i as int]@);
        }
        let ghost b = batch.deep_view();
        proof {
            add.deep_view().take(i as int).lemma_filter_push(add@[i as int]@, pred);
            assert(add.deep_view().take(i + 1) =~= add.deep_view().take(i as int).push(add@[i as int]@));
        }
        if !crate::text::strs_contain(list, &add[i]) {
            let x = add[i].clone();
            let ghost xv = x@;
            batch.push(x);
            assert(batch.deep_view() =~= b.push(xv));
        }
        i += 1;
    }
    assert(add.deep_view().take(add.len() as int) =~= add.deep_view());
    let mut j: usize = 0;
    while j < batch.len()
        invariant
            j <= batch.len(),
            list.deep_view() == before + batch.deep_view().take(j as int),
        decreases batch.len() - j,
    {
        let ghost l = list.deep_view();
        let x = batch[j].clone();
        let ghost xv = x@;
        list.push(x);
        assert(list.deep_view() =~= l.push(xv));
        assert(batch.deep_view().take(j + 1) =~= batch.deep_view().take(j as int).push(xv));
        j += 1;
    }
    assert(batch.deep_view().take(batch.len() as int) =~= batch.deep_view());
}

/// The entries of `sp` whose key is listed in `names`, in order.
fn restrict(sp: &StrMap<u32>, names: &Vec<String>) -> (res: StrMap<u32>)
    requires
        sp.wf(),
    ensures
        res.wf(),
        res@ == restricted(sp@, names.deep_view()),
{
    let ghost pred = listed(names.deep_view());
    let mut res: StrMap<u32> = StrMap::new();
    let mut i: usize = 0;
    assert(sp@.take(0) =~= Seq::<(Seq<char>, u32)>::empty());
    while i < sp.len()
        invariant
            sp.wf(),
            i <= sp@.len(),
            res.wf(),
            pred == listed(names.deep_view()),
            res@ == sp@.take(i as int).filter(pred),
            forall|j: int| 0 <= j < res@.len() ==> exists|q: int| 0 <= q < i && #[trigger] res@[j] == sp@[q],
        decreases sp@.len() - i,
    {
        proof {
            sp@.take(i as int).lemma_filter_push(sp@[i as int], pred);
            assert(sp@.take(i + 1) =~= sp@.take(i as int).push(sp@[i as int]));
        }
        let k = sp.key_at(i);
        if crate::text::strs_contain(names, k) {
            let w = *sp.value_at(i);
            proof {
                if alist_has(res@, k@) {
                    let j = crate::strmap::alist_index(res@, k@);
                    let q = choose|q: int| 0 <= q < i && res@[j] == sp@[q];
                    assert(sp@[q].0 == sp@[i as int].0);
                }
            }
            let ghost before = res@;
            res.insert(k.clone(), w);
            assert(res@ =~= before.push(sp@[i as int]));
            assert forall|j: int| 0 <= j < res@.len() implies exists|q: int| 0 <= q < i + 1 && #[trigger] res@[j] == sp@[q] by {
                if j < before.len() {
                    assert(res@[j] == before[j]);
                } else {
                    assert(res@[j] == sp@[i as int]);
                }
            }
        }
        i += 1;
    }
    assert(sp@.take(sp@.len() as int) =~= sp@);
    res
}

/// Restriction never adds entries.
pub proof fn lemma_restricted_len(sp: Weights, names: Names)
    ensures
        restricted(sp, names).len() <= sp.len(),
{
    broadcast use vstd::seq_lib::group_filter_ensures;
    assert(sp.filter(listed(names)).len() <= sp.len());
}


/// A restriction that keeps as many entries as there were keeps them all.
pub proof fn lemma_restricted_full(sp: Weights, names: Names)
    requires
        restricted(sp, names).len() == sp.len(),
    ensures
        restricted(sp, names) == sp,
    decreases sp.len(),
{
    reveal(Seq::filter);
    if sp.len() > 0 {
        lemma_restricted_len(sp.drop_last(), names);
        let pred = listed(names);
        if pred(sp.last()) {
            lemma_restricted_full(sp.drop_last(), names);
        }
        assert(sp =~= sp.drop_last().push(sp.last()));
    }
}

/// Every entry a restriction keeps is an entry of the superposition, and its
/// tile is listed.
pub proof fn lemma_restricted_sub(sp: Weights, names: Names)
    ensures
        forall|j: int|
            0 <= j < restricted(sp, names).len() ==> sp.contains(#[trigger] restricted(sp, names)[j])
                && names.contains(restricted(sp, names)[j].0),
    decreases sp.len(),
{
    reveal(Seq::filter);
    if sp.len() > 0 {
        lemma_restricted_sub(sp.drop_last(), names);
        let r = restricted(sp, names);
        let p = restricted(sp.drop_last(), names);
        assert forall|j: int| 0 <= j < r.len() implies sp.contains(#[trigger] r[j]) && names.contains(r[j].0) by {
            if j < p.len() {
                assert(r[j] == p[j]);
                assert(sp.drop_last().contains(p[j]));
                let q = choose|q: int| 0 <= q < sp.drop_last().len() && sp.drop_last()[q] == p[j];
                assert(sp[q] == p[j]);
            } else {
                assert(r[j] == sp.last());
                assert(sp[sp.len() - 1] == r[j]);
            }
        }
    }
}

/// A region set to a tile holds that tile alone: `get_tile` after
/// `set_tile(t)` gives `t` back, with the weight the tile had.
pub proof fn law_set_tile_then_get_tile(sp: Weights, t: Seq<char>)
    ensures
        collapsed_to(sp, t).len() == 1,
        collapsed_to(sp, t)[0].0 == t,
        collapsed_to(sp, t)[0].1 == alist_get(sp, t),
{
}

/// `update` reports a change exactly when the restriction removed a tile, as
/// long as the region has at most 2^24 tiles (beyond that, counts that differ
/// by little can round to the same float).
pub proof fn law_update_reports_change(sp: Weights, names: Names)
    requires
        sp.len() <= 0x100_0000,
    ensures
        f32_less(f32_bits_of_count(restricted(sp, names).len() as u32), f32_bits_of_count(sp.len() as u32))
            <==> restricted(sp, names) != sp,
{
    lemma_restricted_len(sp, names);
    let r = restricted(sp, names);
    if r.len() < sp.len() {
        crate::entropy::lemma_count_bits_mono(r.len() as u32, sp.len() as u32);
        assert(r.len() != sp.len());
    } else {
        lemma_restricted_full(sp, names);
    }
}

/// A fresh region weighs every tile of the set by its given probability,
/// whatever the value (0 included), and by 100 when it has none; it holds no
/// other tile, and each tile once.
pub proof fn law_initial_weights(tiles: Names, probabilities: Weights)
    ensures
        alist_wf(initial_weights(tiles, probabilities)),
        forall|t: Seq<char>|
            #[trigger] tiles.contains(t) ==> alist_has(initial_weights(tiles, probabilities), t) && alist_get(
                initial_weights(tiles, probabilities),
                t,
            ) == if alist_has(probabilities, t) {
                alist_get(probabilities, t)
            } else {
                100u32
            },
        forall|j: int|
            0 <= j < initial_weights(tiles, probabilities).len() ==> tiles.contains(
                #[trigger] initial_weights(tiles, probabilities)[j].0,
            ),
    decreases tiles.len(),
{
    let w = initial_weights(tiles, probabilities);
    if tiles.len() == 0 {
        assert(w.len() == 0);
    } else {
        let front = tiles.drop_last();
        let prev = initial_weights(front, probabilities);
        let t0 = tiles.last();
        let v0 = if alist_has(probabilities, t0) {
            alist_get(probabilities, t0)
        } else {
            100u32
        };
        law_initial_weights(front, probabilities);
        lemma_alist_insert(prev, t0, v0);
        assert(w == alist_insert(prev, t0, v0));
        assert forall|t: Seq<char>| #[trigger] tiles.contains(t) implies alist_has(w, t) && alist_get(w, t) == if alist_has(
            probabilities,
            t,
        ) {
            alist_get(probabilities, t)
        } else {
            100u32
        } by {
            if t != t0 {
                let q = choose|q: int| 0 <= q < tiles.len() && tiles[q] == t;
                assert(q != tiles.len() - 1);
                assert(front[q] == t);
                assert(front.contains(t));
            }
        }
        assert forall|j: int| 0 <= j < w.len() implies tiles.contains(#[trigger] w[j].0) by {
            if w[j].0 == t0 {
                assert(tiles[tiles.len() - 1] == t0);
            } else {
                assert(alist_has(w, w[j].0));
                assert(alist_has(prev, w[j].0));
                let q = crate::strmap::alist_index(prev, w[j].0);
                assert(front.contains(prev[q].0));
                let r = choose|r: int| 0 <= r < front.len() && front[r] == prev[q].0;
                assert(tiles[r] == front[r]);
            }
        }
    }
}

/// The reach test is asked, in order, how many rows lie above the region (row
/// 0 at the top), how many columns to its left, how many rows below it and how
/// many columns to its right: together with the region's own row and column
/// they make up the height and the width of the wave.
pub proof fn law_needed_reach(pos: (i32, i32), size: (i32, i32))
    requires
        0 <= pos.0 < size.0,
        0 <= pos.1 < size.1,
    ensures
        needed_reach(pos, size).0 == pos.1,
        needed_reach(pos, size).1 == pos.0,
        needed_reach(pos, size).0 + 1 + needed_reach(pos, size).2 == size.1,
        needed_reach(pos, size).1 + 1 + needed_reach(pos, size).3 == size.0,
{
}

} // verus!

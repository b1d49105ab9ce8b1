//! Expansion of a rule set by the transformations of its tiles: every tile whose
//! class admits turning contributes, for each of the seven transformations, the
//! rule of its transformed variant, built from the transformed neighbours.

use vstd::prelude::*;
use crate::strmap::{StrMap, alist_has, alist_get, alist_insert, alist_wf, lemma_alist_index, lemma_alist_insert};
use crate::tile_set::{
    AdjacencyRule, RuleSet, RuleView, Rules, Names, empty_rule, copy_rules, rules_grow, rule_grows, has_link,
    lemma_rules_grow_trans, lemma_rules_grow_refl, lemma_rules_grow_link, lemma_rule_grows_refl, lemma_prefix_trans,
    lemma_prefix_refl, lemma_prefix_push,
};
use crate::symmetry::lemma_push_contains;
use crate::symmetry::{Symmetry, Dictionary};
use crate::names::{new_tile_name_defined, spec_new_tile_name};
use crate::text::{is_single, strs_contain};

verus! {

/// The direction that transformation `k` (1..7) turns direction `d` into:
/// rotations by 90, 180, 270 degrees, the horizontal flip, and the flip followed
/// by each rotation.
pub open spec fn turned_dir(k: int, d: int) -> int {
    let t = if k == 1 {
        seq![1int, 2, 3, 0]
    } else if k == 2 {
        seq![2int, 3, 0, 1]
    } else if k == 3 {
        seq![3int, 0, 1, 2]
    } else if k == 4 {
        seq![0int, 3, 2, 1]
    } else if k == 5 {
        seq![1int, 0, 3, 2]
    } else if k == 6 {
        seq![2int, 1, 0, 3]
    } else {
        seq![3int, 2, 1, 0]
    };
    t[d]
}

/// The class name of tiles that have no variants.
pub open spec fn fixed_class() -> Seq<char> {
    seq!['@']
}

/// The variant that transformation `k` makes of neighbour `t`, looked up in the
/// current rules and the dictionary: nothing for a tile of the fixed class; no
/// answer at all (the expansion fails) when a lookup or the naming fails.
pub open spec fn neighbour_image(dict: Dictionary, cur: Rules, t: Seq<char>, k: int) -> Option<Option<Seq<char>>> {
    if !alist_has(cur, t) {
        None
    } else {
        let s = alist_get(cur, t).symmetry;
        if !alist_has(dict, s) || alist_get(dict, s).eq.len() <= k {
            None
        } else if s == fixed_class() {
            Some(None)
        } else {
            let nt = alist_get(dict, s).eq[k];
            if new_tile_name_defined(t, nt, s) {
                Some(Some(spec_new_tile_name(t, nt, s)))
            } else {
                None
            }
        }
    }
}

/// The variants of a list of neighbours, in order, skipping fixed-class tiles.
pub open spec fn neighbour_images(dict: Dictionary, cur: Rules, ts: Names, k: int) -> Option<Names>
    decreases ts.len(),
{
    if ts.len() == 0 {
        Some(Seq::empty())
    } else {
        match (neighbour_images(dict, cur, ts.drop_last(), k), neighbour_image(dict, cur, ts.last(), k)) {
            (Some(p), Some(Some(x))) => Some(p.push(x)),
            (Some(p), Some(None)) => Some(p),
            _ => None,
        }
    }
}

/// The dictionary knows the class of rule `r` and describes transformation `k`.
pub open spec fn turn_defined(dict: Dictionary, r: RuleView, k: int) -> bool {
    &&& alist_has(dict, r.symmetry)
    &&& alist_get(dict, r.symmetry).eq.len() > k
    &&& alist_get(dict, r.symmetry).sym.len() > k
}

/// The name transformation `k` gives tile `tile` of rule `r`.
pub open spec fn turned_name(dict: Dictionary, tile: Seq<char>, r: RuleView, k: int) -> Seq<char> {
    let sd = alist_get(dict, r.symmetry);
    spec_new_tile_name(tile, sd.eq[k], sd.sym[k])
}

/// That name can be formed.
pub open spec fn turned_name_defined(dict: Dictionary, tile: Seq<char>, r: RuleView, k: int) -> bool {
    let sd = alist_get(dict, r.symmetry);
    new_tile_name_defined(tile, sd.eq[k], sd.sym[k])
}

/// The rule of the variant made by transformation `k`: its class from the
/// dictionary, and each direction's neighbours transformed and moved to the
/// direction the transformation turns it into.
pub open spec fn turned_rule(dict: Dictionary, cur: Rules, r: RuleView, k: int) -> Option<RuleView> {
    let sd = alist_get(dict, r.symmetry);
    match (
        neighbour_images(dict, cur, r.up, k),
        neighbour_images(dict, cur, r.right, k),
        neighbour_images(dict, cur, r.down, k),
        neighbour_images(dict, cur, r.left, k),
    ) {
        (Some(a), Some(b), Some(c), Some(d)) => Some(
            empty_rule(sd.sym[k]).with_dir(turned_dir(k, 0), a).with_dir(turned_dir(k, 1), b).with_dir(
                turned_dir(k, 2),
                c,
            ).with_dir(turned_dir(k, 3), d),
        ),
        _ => None,
    }
}

/// `b` appended to `a`, leaving out what is there already.
pub open spec fn names_merged(a: Names, b: Names) -> Names
    decreases b.len(),
{
    if b.len() == 0 {
        a
    } else {
        let m = names_merged(a, b.drop_last());
        if m.contains(b.last()) {
            m
        } else {
            m.push(b.last())
        }
    }
}

/// A rule brought into the rules: a new tile is inserted as it is; an existing
/// tile keeps its class and has each list extended by the new neighbours.
pub open spec fn rule_merged(cur: Rules, name: Seq<char>, nr: RuleView) -> Rules {
    if alist_has(cur, name) {
        let r = alist_get(cur, name);
        alist_insert(
            cur,
            name,
            RuleView {
                symmetry: r.symmetry,
                up: names_merged(r.up, nr.up),
                right: names_merged(r.right, nr.right),
                down: names_merged(r.down, nr.down),
                left: names_merged(r.left, nr.left),
            },
        )
    } else {
        alist_insert(cur, name, nr)
    }
}

/// Transformations `k` to 7 of tile `tile` with rule `r` brought into `cur`,
/// in order; nothing when a lookup or a name fails.
pub open spec fn turns_from(dict: Dictionary, cur: Rules, tile: Seq<char>, r: RuleView, k: int) -> Option<Rules>
    decreases 8 - k,
{
    if k < 1 || k > 7 {
        Some(cur)
    } else if !turn_defined(dict, r, k) || !turned_name_defined(dict, tile, r, k) {
        None
    } else {
        match turned_rule(dict, cur, r, k) {
            None => None,
            Some(nr) => turns_from(dict, rule_merged(cur, turned_name(dict, tile, r, k), nr), tile, r, k + 1),
        }
    }
}

/// One tile's expansion: nothing changes when its quarter-turned class is the
/// fixed class; otherwise all seven transformations are brought in.
pub open spec fn entry_expanded(dict: Dictionary, cur: Rules, tile: Seq<char>, r: RuleView) -> Option<Rules> {
    if !turn_defined(dict, r, 1) || !turned_name_defined(dict, tile, r, 1) {
        None
    } else if alist_get(dict, r.symmetry).sym[1] == fixed_class() {
        Some(cur)
    } else {
        turns_from(dict, cur, tile, r, 1)
    }
}

/// The expansion of each entry in order, starting from `cur`.
pub open spec fn entries_expanded(dict: Dictionary, cur: Rules, entries: Rules) -> Option<Rules>
    decreases entries.len(),
{
    if entries.len() == 0 {
        Some(cur)
    } else {
        match entries_expanded(dict, cur, entries.drop_last()) {
            None => None,
            Some(c) => entry_expanded(dict, c, entries.last().0, entries.last().1),
        }
    }
}

/// `new` inserted into `cur` in order, replacing rules of the same name.
pub open spec fn rules_inserted(cur: Rules, new: Rules) -> Rules
    decreases new.len(),
{
    if new.len() == 0 {
        cur
    } else {
        alist_insert(rules_inserted(cur, new.drop_last()), new.last().0, new.last().1)
    }
}

/// The expansion of `rules` given the symmetry dictionary and the rules of new
/// tiles: the new rules are inserted first, then every rule the set started
/// with is expanded in order. Nothing when a lookup or a name fails.
pub open spec fn spec_expand(rules: Rules, dict: Dictionary, new_rules: Rules) -> Option<Rules> {
    entries_expanded(dict, rules_inserted(rules, new_rules), rules)
}

/// `turned_dir` computed.
fn turned_dir_of(k: usize, d: u32) -> (res: u32)
    requires
        1 <= k <= 7,
        d < 4,
    ensures
        res == turned_dir(k as int, d as int),
        res < 4,
{
    let t: [u32; 4] = if k == 1 {
        [1, 2, 3, 0]
    } else if k == 2 {
        [2, 3, 0, 1]
    } else if k == 3 {
        [3, 0, 1, 2]
    } else if k == 4 {
        [0, 3, 2, 1]
    } else if k == 5 {
        [1, 0, 3, 2]
    } else if k == 6 {
        [2, 1, 0, 3]
    } else {
        [3, 2, 1, 0]
    };
    t[d as usize]
}

fn neighbour_image_of(cur: &StrMap<AdjacencyRule>, dict: &StrMap<Symmetry>, t: &String, k: usize) -> (res: Option<Option<String>>)
    requires
        cur.wf(),
        dict.wf(),
    ensures
        match res {
            None => neighbour_image(dict@, cur@, t@, k as int) is None,
            Some(None) => neighbour_image(dict@, cur@, t@, k as int) == Some(None::<Seq<char>>),
            Some(Some(n)) => neighbour_image(dict@, cur@, t@, k as int) == Some(Some(n@)),
        },
{
    let rule = match cur.get(t) {
        None => {
            return None;
        },
        Some(r) => r,
    };
    let s = &rule.symmetry;
    let sd = match dict.get(s) {
        None => {
            return None;
        },
        Some(d) => d,
    };
    if sd.eq.len() <= k {
        return None;
    }
    if is_single(s.as_str(), '@') {
        return Some(None);
    }
    let nt = sd.eq[k];
    match RuleSet::try_new_tile_name(t, nt, s.as_str()) {
        None => None,
        Some(n) => Some(Some(n)),
    }
}

fn neighbour_images_of(cur: &StrMap<AdjacencyRule>, dict: &StrMap<Symmetry>, ts: &Vec<String>, k: usize) -> (res: Option<Vec<String>>)
    requires
        cur.wf(),
        dict.wf(),
    ensures
        match res {
            None => neighbour_images(dict@, cur@, ts.deep_view(), k as int) is None,
            Some(v) => neighbour_images(dict@, cur@, ts.deep_view(), k as int) == Some(v.deep_view()),
        },
{
    let mut out: Vec<String> = Vec::new();
    let mut i: usize = 0;
    assert(ts.deep_view().take(0) =~= Seq::<Seq<char>>::empty());
    assert(out.deep_view() =~= Seq::<Seq<char>>::empty());
    while i < ts.len()
        invariant
            i <= ts.len(),
            cur.wf(),
            dict.wf(),
            neighbour_images(dict@, cur@, ts.deep_view().take(i as int), k as int) == Some(out.deep_view()),
        decreases ts.len() - i,
    {
        proof {
            assert(ts.deep_view().take(i + 1).drop_last() =~= ts.deep_view().take(i as int));
            assert(ts.deep_view().take(i + 1).last() == ts@[i as int]@);
        }
        match neighbour_image_of(cur, dict, &ts[i], k) {
            None => {
                proof {
                    lemma_images_none(dict@, cur@, ts.deep_view(), k as int, i as int + 1);
                }
                return None;
            },
            Some(None) => {},
            Some(Some(n)) => {
                let ghost before = out.deep_view();
                out.push(n);
                assert(out.deep_view() =~= before.push(n@));
            },
        }
        i += 1;
    }
    assert(ts.deep_view().take(ts.len() as int) =~= ts.deep_view());
    Some(out)
}

fn turned_rule_of(cur: &StrMap<AdjacencyRule>, dict: &StrMap<Symmetry>, sd: &Symmetry, r: &AdjacencyRule, k: usize) -> (res: Option<AdjacencyRule>)
    requires
        cur.wf(),
        dict.wf(),
        1 <= k <= 7,
        turn_defined(dict@, r@, k as int),
        sd@ == alist_get(dict@, r@.symmetry),
    ensures
        match res {
            None => turned_rule(dict@, cur@, r@, k as int) is None,
            Some(nr) => turned_rule(dict@, cur@, r@, k as int) == Some(nr@),
        },
{
    let up = match neighbour_images_of(cur, dict, &r.up_tiles, k) {
        None => {
            return None;
        },
        Some(v) => v,
    };
    let right = match neighbour_images_of(cur, dict, &r.right_tiles, k) {
        None => {
            return None;
        },
        Some(v) => v,
    };
    let down = match neighbour_images_of(cur, dict, &r.down_tiles, k) {
        None => {
            return None;
        },
        Some(v) => v,
    };
    let left = match neighbour_images_of(cur, dict, &r.left_tiles, k) {
        None => {
            return None;
        },
        Some(v) => v,
    };
    let mut nr = AdjacencyRule::new_empty(sd.sym[k].clone());
    nr.set_dir(turned_dir_of(k, 0), up);
    nr.set_dir(turned_dir_of(k, 1), right);
    nr.set_dir(turned_dir_of(k, 2), down);
    nr.set_dir(turned_dir_of(k, 3), left);
    Some(nr)
}

fn merge_names(a: &mut Vec<String>, b: &Vec<String>)
    ensures
        final(a).deep_view() == names_merged(old(a).deep_view(), b.deep_view()),
{
    let mut i: usize = 0;
    assert(b.deep_view().take(0) =~= Seq::<Seq<char>>::empty());
    while i < b.len()
        invariant
            i <= b.len(),
            a.deep_view() == names_merged(old(a).deep_view(), b.deep_view().take(i as int)),
        decreases b.len() - i,
    {
        proof {
            assert(b.deep_view().take(i + 1).drop_last() =~= b.deep_view().take(i as int));
            assert(b.deep_view().take(i + 1).last() == b@[i as int]@);
        }
        if !strs_contain(a, &b[i]) {
            let ghost before = a.deep_view();
            let x = b[i].clone();
            let ghost xv = x@;
            a.push(x);
            assert(a.deep_view() =~= before.push(xv));
        }
        i += 1;
    }
    assert(b.deep_view().take(b.len() as int) =~= b.deep_view());
}

fn merge_rule(cur: &mut StrMap<AdjacencyRule>, name: String, nr: AdjacencyRule)
    requires
        old(cur).wf(),
    ensures
        final(cur).wf(),
        final(cur)@ == rule_merged(old(cur)@, name@, nr@),
{
    match cur.index_of(&name) {
        Some(i) => {
            proof {
                lemma_alist_index(cur@, i as int);
            }
            let mut r = cur.value_at(i).duplicate();
            merge_names(&mut r.down_tiles, &nr.down_tiles);
            merge_names(&mut r.left_tiles, &nr.left_tiles);
            merge_names(&mut r.up_tiles, &nr.up_tiles);
            merge_names(&mut r.right_tiles, &nr.right_tiles);
            cur.set_value(i, r);
        },
        None => {
            cur.insert(name, nr);
        },
    }
}

fn expand_entry(cur: &mut StrMap<AdjacencyRule>, dict: &StrMap<Symmetry>, tile: &String, r: &AdjacencyRule) -> (ok: bool)
    requires
        old(cur).wf(),
        dict.wf(),
    ensures
        final(cur).wf(),
        ok == entry_expanded(dict@, old(cur)@, tile@, r@) is Some,
        ok ==> entry_expanded(dict@, old(cur)@, tile@, r@) == Some(final(cur)@),
{
    let sd = match dict.get(&r.symmetry) {
        None => {
            return false;
        },
        Some(d) => d,
    };
    if sd.eq.len() < 2 || sd.sym.len() < 2 {
        return false;
    }
    if RuleSet::try_new_tile_name(tile, sd.eq[1], sd.sym[1].as_str()).is_none() {
        return false;
    }
    if is_single(sd.sym[1].as_str(), '@') {
        return true;
    }
    let ghost start = cur@;
    assert(turn_defined(dict@, r@, 1));
    assert(turned_name_defined(dict@, tile@, r@, 1));
    assert(alist_get(dict@, r@.symmetry).sym[1] != fixed_class());
    assert(entry_expanded(dict@, start, tile@, r@) == turns_from(dict@, start, tile@, r@, 1));
    let mut k: usize = 1;
    while k < 8
        invariant
            1 <= k <= 8,
            cur.wf(),
            dict.wf(),
            alist_has(dict@, r@.symmetry),
            sd@ == alist_get(dict@, r@.symmetry),
            turns_from(dict@, start, tile@, r@, 1) == turns_from(dict@, cur@, tile@, r@, k as int),
            start == old(cur)@,
            entry_expanded(dict@, start, tile@, r@) == turns_from(dict@, start, tile@, r@, 1),
        decreases 8 - k,
    {
        if sd.eq.len() <= k || sd.sym.len() <= k {
            assert(!turn_defined(dict@, r@, k as int));
            assert(turns_from(dict@, cur@, tile@, r@, k as int) is None);
            return false;
        }
        let name = match RuleSet::try_new_tile_name(tile, sd.eq[k], sd.sym[k].as_str()) {
            None => {
                assert(!turned_name_defined(dict@, tile@, r@, k as int));
                assert(turns_from(dict@, cur@, tile@, r@, k as int) is None);
                return false;
            },
            Some(n) => n,
        };
        let nr = match turned_rule_of(cur, dict, sd, r, k) {
            None => {
                return false;
            },
            Some(nr) => nr,
        };
        merge_rule(cur, name, nr);
        k += 1;
    }
    true
}

impl RuleSet {
    /// The expansion of this rule set (see `spec_expand`), or nothing where the
    /// dictionary or the rules lack a class, a tile or a transformation, or a
    /// name cannot be formed.
    pub fn try_expand(&self, symmetry_dictionary: &StrMap<Symmetry>, new_rules: &StrMap<AdjacencyRule>) -> (res: Option<RuleSet>)
        requires
            self.wf(),
            symmetry_dictionary.wf(),
            new_rules.wf(),
        ensures
            match res {
                Some(rs) => rs.wf() && rs@.tiles_path == self@.tiles_path && spec_expand(
                    self@.rules,
                    symmetry_dictionary@,
                    new_rules@,
                ) == Some(rs@.rules),
                None => spec_expand(self@.rules, symmetry_dictionary@, new_rules@) is None,
            },
    {
        let mut cur = copy_rules(&self.adjacency_rules);
        let mut i: usize = 0;
        assert(new_rules@.take(0) =~= Seq::<(Seq<char>, RuleView)>::empty());
        while i < new_rules.len()
            invariant
                i <= new_rules@.len(),
                cur.wf(),
                new_rules.wf(),
                cur@ == rules_inserted(self@.rules, new_rules@.take(i as int)),
            decreases new_rules@.len() - i,
        {
            proof {
                assert(new_rules@.take(i + 1).drop_last() =~= new_rules@.take(i as int));
                assert(new_rules@.take(i + 1).last() == new_rules@[i as int]);
            }
            cur.insert(new_rules.key_at(i).clone(), new_rules.value_at(i).duplicate());
            i += 1;
        }
        assert(new_rules@.take(new_rules@.len() as int) =~= new_rules@);
        let ghost inserted = cur@;
        assert(inserted == rules_inserted(self@.rules, new_rules@));
        let n = self.adjacency_rules.len();
        let mut j: usize = 0;
        assert(self@.rules.take(0) =~= Seq::<(Seq<char>, RuleView)>::empty());
        while j < n
            invariant
                n == self@.rules.len(),
                j <= n,
                cur.wf(),
                symmetry_dictionary.wf(),
                entries_expanded(symmetry_dictionary@, inserted, self@.rules.take(j as int)) == Some(cur@),
                inserted == rules_inserted(self@.rules, new_rules@),
            decreases n - j,
        {
            proof {
                assert(self@.rules.take(j + 1).drop_last() =~= self@.rules.take(j as int));
                assert(self@.rules.take(j + 1).last() == self@.rules[j as int]);
            }
            let ghost before = cur@;
            let ok = expand_entry(&mut cur, symmetry_dictionary, self.adjacency_rules.key_at(j), self.adjacency_rules.value_at(j));
            if !ok {
                assert(entries_expanded(symmetry_dictionary@, inserted, self@.rules.take(j + 1)) == entry_expanded(
                    symmetry_dictionary@, before, self@.rules[j as int].0, self@.rules[j as int].1));
                proof {
                    lemma_entries_expanded_none(symmetry_dictionary@, inserted, self@.rules, j as int + 1);
                }
                return None;
            }
            j += 1;
        }
        assert(self@.rules.take(n as int) =~= self@.rules);
        Some(RuleSet { tiles_path: self.tiles_path.clone(), adjacency_rules: cur })
    }

    /// Expand the rule set: insert the rules of new tiles, then for every tile
    /// whose class admits turning bring in the rules of its seven transformed
    /// variants. Returns a copy of the result.
    pub fn expand(&mut self, symmetry_dictionary: &StrMap<Symmetry>, new_rules: &StrMap<AdjacencyRule>) -> (res: RuleSet)
        requires
            old(self).wf(),
            symmetry_dictionary.wf(),
            new_rules.wf(),
            spec_expand(old(self)@.rules, symmetry_dictionary@, new_rules@) is Some,
        ensures
            final(self).wf(),
            final(self)@.tiles_path == old(self)@.tiles_path,
            Some(final(self)@.rules) == spec_expand(old(self)@.rules, symmetry_dictionary@, new_rules@),
            res.wf(),
            res@ == final(self)@,
    {
        match self.try_expand(symmetry_dictionary, new_rules) {
            Some(rs) => {
                *self = rs;
            },
            None => {},
        }
        self.duplicate()
    }
}

/// Once a neighbour's image fails, the images of the whole list fail.
pub proof fn lemma_images_none(dict: Dictionary, cur: Rules, ts: Names, k: int, m: int)
    requires
        0 < m <= ts.len(),
        neighbour_images(dict, cur, ts.take(m), k) is None,
    ensures
        neighbour_images(dict, cur, ts, k) is None,
    decreases ts.len() - m,
{
    if m < ts.len() {
        assert(ts.take(m + 1).drop_last() =~= ts.take(m));
        lemma_images_none(dict, cur, ts, k, m + 1);
    } else {
        assert(ts.take(m) =~= ts);
    }
}

/// Once an entry's expansion fails, the whole expansion fails.
pub proof fn lemma_entries_expanded_none(dict: Dictionary, cur: Rules, entries: Rules, m: int)
    requires
        0 < m <= entries.len(),
        entries_expanded(dict, cur, entries.take(m)) is None,
    ensures
        entries_expanded(dict, cur, entries) is None,
    decreases entries.len() - m,
{
    if m < entries.len() {
        assert(entries.take(m + 1).drop_last() =~= entries.take(m));
        lemma_entries_expanded_none(dict, cur, entries, m + 1);
    } else {
        assert(entries.take(m) =~= entries);
    }
}


/// Merging keeps the first list as a prefix and takes in everything of the second.
pub proof fn lemma_names_merged(a: Names, b: Names)
    ensures
        a.is_prefix_of(names_merged(a, b)),
        forall|x: Seq<char>| b.contains(x) ==> #[trigger] names_merged(a, b).contains(x),
    decreases b.len(),
{
    if b.len() == 0 {
        lemma_prefix_refl(a);
    } else {
        let m = names_merged(a, b.drop_last());
        lemma_names_merged(a, b.drop_last());
        if !m.contains(b.last()) {
            lemma_prefix_push(m, b.last());
            lemma_prefix_trans(a, m, m.push(b.last()));
        }
        assert forall|x: Seq<char>| b.contains(x) implies #[trigger] names_merged(a, b).contains(x) by {
            let q = choose|q: int| 0 <= q < b.len() && b[q] == x;
            if q < b.len() - 1 {
                assert(b.drop_last()[q] == x);
                assert(m.contains(x));
            }
            lemma_push_contains(m, b.last(), x);
        }
    }
}

/// Bringing a rule in keeps keys unique, keeps everything there was, and makes
/// the brought-in rule's neighbours appear under its name.
pub proof fn lemma_rule_merged(cur: Rules, name: Seq<char>, nr: RuleView)
    requires
        alist_wf(cur),
    ensures
        alist_wf(rule_merged(cur, name, nr)),
        rules_grow(cur, rule_merged(cur, name, nr)),
        alist_has(rule_merged(cur, name, nr), name),
        forall|d: int, x: Seq<char>|
            0 <= d < 4 && nr.dir(d).contains(x) ==> #[trigger] alist_get(rule_merged(cur, name, nr), name).dir(d).contains(x),
{
    let res = rule_merged(cur, name, nr);
    if alist_has(cur, name) {
        let r = alist_get(cur, name);
        let m = RuleView {
            symmetry: r.symmetry,
            up: names_merged(r.up, nr.up),
            right: names_merged(r.right, nr.right),
            down: names_merged(r.down, nr.down),
            left: names_merged(r.left, nr.left),
        };
        lemma_alist_insert(cur, name, m);
        lemma_names_merged(r.up, nr.up);
        lemma_names_merged(r.right, nr.right);
        lemma_names_merged(r.down, nr.down);
        lemma_names_merged(r.left, nr.left);
        assert forall|k: Seq<char>| #[trigger] alist_has(cur, k) implies alist_has(res, k) && rule_grows(
            alist_get(cur, k),
            alist_get(res, k),
        ) by {
            if k != name {
                lemma_rule_grows_refl(alist_get(cur, k));
            }
        }
        assert forall|d: int, x: Seq<char>| 0 <= d < 4 && nr.dir(d).contains(x) implies #[trigger] alist_get(res, name).dir(d).contains(x) by {
            assert(alist_get(res, name) == m);
        }
    } else {
        lemma_alist_insert(cur, name, nr);
        assert forall|k: Seq<char>| #[trigger] alist_has(cur, k) implies alist_has(res, k) && rule_grows(
            alist_get(cur, k),
            alist_get(res, k),
        ) by {
            lemma_rule_grows_refl(alist_get(cur, k));
        }
    }
}

/// A neighbour in a list whose images exist is a known tile of a known class,
/// and unless its class is fixed, its image is among the images.
pub proof fn lemma_images_contains(dict: Dictionary, cur: Rules, ts: Names, k: int, t: Seq<char>)
    requires
        neighbour_images(dict, cur, ts, k) is Some,
        ts.contains(t),
    ensures
        alist_has(cur, t),
        alist_has(dict, alist_get(cur, t).symmetry),
        alist_get(dict, alist_get(cur, t).symmetry).eq.len() > k,
        alist_get(cur, t).symmetry != fixed_class() ==> ({
            let s = alist_get(cur, t).symmetry;
            &&& new_tile_name_defined(t, alist_get(dict, s).eq[k], s)
            &&& neighbour_images(dict, cur, ts, k).unwrap().contains(
                spec_new_tile_name(t, alist_get(dict, s).eq[k], s),
            )
        }),
    decreases ts.len(),
{
    let prev = neighbour_images(dict, cur, ts.drop_last(), k);
    let q = choose|q: int| 0 <= q < ts.len() && ts[q] == t;
    if q < ts.len() - 1 {
        assert(ts.drop_last()[q] == t);
        lemma_images_contains(dict, cur, ts.drop_last(), k, t);
        if alist_get(cur, t).symmetry != fixed_class() {
            let s = alist_get(cur, t).symmetry;
            lemma_push_contains(prev.unwrap(), spec_new_tile_name(ts.last(), alist_get(dict, alist_get(cur, ts.last()).symmetry).eq[k], alist_get(cur, ts.last()).symmetry), spec_new_tile_name(t, alist_get(dict, s).eq[k], s));
        }
    } else {
        if alist_get(cur, t).symmetry != fixed_class() {
            let s = alist_get(cur, t).symmetry;
            lemma_push_contains(prev.unwrap(), spec_new_tile_name(t, alist_get(dict, s).eq[k], s), spec_new_tile_name(t, alist_get(dict, s).eq[k], s));
        }
    }
}

/// The turned rule puts the images of direction `d` in direction
/// `turned_dir(k, d)`.
pub proof fn lemma_turned_dirs(s: Seq<char>, k: int, a: Names, b: Names, c: Names, e: Names, d: int)
    requires
        1 <= k <= 7,
        0 <= d < 4,
    ensures
        ({
            let nr = empty_rule(s).with_dir(turned_dir(k, 0), a).with_dir(turned_dir(k, 1), b).with_dir(
                turned_dir(k, 2),
                c,
            ).with_dir(turned_dir(k, 3), e);
            nr.dir(turned_dir(k, d)) == (if d == 0 {
                a
            } else if d == 1 {
                b
            } else if d == 2 {
                c
            } else {
                e
            })
        }),
{
    assert(seq![1int, 2, 3, 0][0] == 1 && seq![1int, 2, 3, 0][1] == 2 && seq![1int, 2, 3, 0][2] == 3 && seq![1int, 2, 3, 0][3] == 0);
    assert(seq![2int, 3, 0, 1][0] == 2 && seq![2int, 3, 0, 1][1] == 3 && seq![2int, 3, 0, 1][2] == 0 && seq![2int, 3, 0, 1][3] == 1);
    assert(seq![3int, 0, 1, 2][0] == 3 && seq![3int, 0, 1, 2][1] == 0 && seq![3int, 0, 1, 2][2] == 1 && seq![3int, 0, 1, 2][3] == 2);
    assert(seq![0int, 3, 2, 1][0] == 0 && seq![0int, 3, 2, 1][1] == 3 && seq![0int, 3, 2, 1][2] == 2 && seq![0int, 3, 2, 1][3] == 1);
    assert(seq![1int, 0, 3, 2][0] == 1 && seq![1int, 0, 3, 2][1] == 0 && seq![1int, 0, 3, 2][2] == 3 && seq![1int, 0, 3, 2][3] == 2);
    assert(seq![2int, 1, 0, 3][0] == 2 && seq![2int, 1, 0, 3][1] == 1 && seq![2int, 1, 0, 3][2] == 0 && seq![2int, 1, 0, 3][3] == 3);
    assert(seq![3int, 2, 1, 0][0] == 3 && seq![3int, 2, 1, 0][1] == 2 && seq![3int, 2, 1, 0][2] == 1 && seq![3int, 2, 1, 0][3] == 0);
}

/// What transformation `k` of an entry contributes to a final rule set `f`:
/// the variant's name is a tile of `f`, every neighbour of the entry is a tile
/// of `f`, and every neighbour not of the fixed class has its variant listed
/// beside the entry's variant in the turned direction.
pub open spec fn turn_in(dict: Dictionary, f: Rules, tile: Seq<char>, r: RuleView, k: int) -> bool {
    let name = turned_name(dict, tile, r, k);
    &&& alist_has(f, name)
    &&& forall|d: int, t: Seq<char>|
        0 <= d < 4 && #[trigger] r.dir(d).contains(t) ==> {
            &&& alist_has(f, t)
            &&& alist_get(f, t).symmetry != fixed_class() ==> has_link(
                f,
                name,
                turned_dir(k, d),
                spec_new_tile_name(t, alist_get(dict, alist_get(f, t).symmetry).eq[k], alist_get(f, t).symmetry),
            )
        }
}

/// `turn_in` survives growth of the rule set.
pub proof fn lemma_turn_in_grows(dict: Dictionary, f: Rules, g: Rules, tile: Seq<char>, r: RuleView, k: int)
    requires
        turn_in(dict, f, tile, r, k),
        rules_grow(f, g),
    ensures
        turn_in(dict, g, tile, r, k),
{
    let name = turned_name(dict, tile, r, k);
    assert(alist_has(g, name));
    assert forall|d: int, t: Seq<char>| 0 <= d < 4 && #[trigger] r.dir(d).contains(t) implies {
        &&& alist_has(g, t)
        &&& alist_get(g, t).symmetry != fixed_class() ==> has_link(
            g,
            name,
            turned_dir(k, d),
            spec_new_tile_name(t, alist_get(dict, alist_get(g, t).symmetry).eq[k], alist_get(g, t).symmetry),
        )
    } by {
        assert(alist_has(f, t));
        assert(alist_has(g, t));
        assert(alist_get(g, t).symmetry == alist_get(f, t).symmetry);
        if alist_get(g, t).symmetry != fixed_class() {
            lemma_turn_dir_range(k, d);
            lemma_rules_grow_link(
                f,
                g,
                name,
                turned_dir(k, d),
                spec_new_tile_name(t, alist_get(dict, alist_get(f, t).symmetry).eq[k], alist_get(f, t).symmetry),
            );
        }
    }
}

/// Turned directions are directions.
pub proof fn lemma_turn_dir_range(k: int, d: int)
    requires
        0 <= d < 4,
    ensures
        0 <= turned_dir(k, d) < 4,
{
    assert(seq![1int, 2, 3, 0][0] == 1 && seq![1int, 2, 3, 0][1] == 2 && seq![1int, 2, 3, 0][2] == 3 && seq![1int, 2, 3, 0][3] == 0);
    assert(seq![2int, 3, 0, 1][0] == 2 && seq![2int, 3, 0, 1][1] == 3 && seq![2int, 3, 0, 1][2] == 0 && seq![2int, 3, 0, 1][3] == 1);
    assert(seq![3int, 0, 1, 2][0] == 3 && seq![3int, 0, 1, 2][1] == 0 && seq![3int, 0, 1, 2][2] == 1 && seq![3int, 0, 1, 2][3] == 2);
    assert(seq![0int, 3, 2, 1][0] == 0 && seq![0int, 3, 2, 1][1] == 3 && seq![0int, 3, 2, 1][2] == 2 && seq![0int, 3, 2, 1][3] == 1);
    assert(seq![1int, 0, 3, 2][0] == 1 && seq![1int, 0, 3, 2][1] == 0 && seq![1int, 0, 3, 2][2] == 3 && seq![1int, 0, 3, 2][3] == 2);
    assert(seq![2int, 1, 0, 3][0] == 2 && seq![2int, 1, 0, 3][1] == 1 && seq![2int, 1, 0, 3][2] == 0 && seq![2int, 1, 0, 3][3] == 3);
    assert(seq![3int, 2, 1, 0][0] == 3 && seq![3int, 2, 1, 0][1] == 2 && seq![3int, 2, 1, 0][2] == 1 && seq![3int, 2, 1, 0][3] == 0);
}


/// Transformations `k0` to 7 keep what was there and each contribute their
/// variant (see `turn_in`).
pub proof fn lemma_turns_from(dict: Dictionary, cur: Rules, tile: Seq<char>, r: RuleView, k0: int, f: Rules)
    requires
        alist_wf(cur),
        1 <= k0 <= 8,
        turns_from(dict, cur, tile, r, k0) == Some(f),
    ensures
        alist_wf(f),
        rules_grow(cur, f),
        forall|k: int| k0 <= k <= 7 ==> #[trigger] turn_in(dict, f, tile, r, k),
    decreases 8 - k0,
{
    if k0 == 8 {
        lemma_rules_grow_refl(cur);
    } else {
        let nr = turned_rule(dict, cur, r, k0).unwrap();
        let name = turned_name(dict, tile, r, k0);
        let m = rule_merged(cur, name, nr);
        lemma_rule_merged(cur, name, nr);
        lemma_turns_from(dict, m, tile, r, k0 + 1, f);
        lemma_rules_grow_trans(cur, m, f);
        assert forall|d: int, t: Seq<char>| 0 <= d < 4 && #[trigger] r.dir(d).contains(t) implies {
            &&& alist_has(m, t)
            &&& alist_get(m, t).symmetry != fixed_class() ==> has_link(
                m,
                name,
                turned_dir(k0, d),
                spec_new_tile_name(t, alist_get(dict, alist_get(m, t).symmetry).eq[k0], alist_get(m, t).symmetry),
            )
        } by {
            lemma_images_contains(dict, cur, r.dir(d), k0, t);
            assert(alist_has(m, t));
            assert(alist_get(m, t).symmetry == alist_get(cur, t).symmetry);
            let sd = alist_get(dict, r.symmetry);
            lemma_turned_dirs(
                sd.sym[k0],
                k0,
                neighbour_images(dict, cur, r.up, k0).unwrap(),
                neighbour_images(dict, cur, r.right, k0).unwrap(),
                neighbour_images(dict, cur, r.down, k0).unwrap(),
                neighbour_images(dict, cur, r.left, k0).unwrap(),
                d,
            );
            lemma_turn_dir_range(k0, d);
        }
        assert(turn_in(dict, m, tile, r, k0));
        lemma_turn_in_grows(dict, m, f, tile, r, k0);
    }
}

/// One entry's expansion keeps what was there, and unless its quarter-turned
/// class is fixed it contributes all seven variants.
pub proof fn lemma_entry_expanded(dict: Dictionary, cur: Rules, tile: Seq<char>, r: RuleView, f: Rules)
    requires
        alist_wf(cur),
        entry_expanded(dict, cur, tile, r) == Some(f),
    ensures
        alist_wf(f),
        rules_grow(cur, f),
        turn_defined(dict, r, 1),
        alist_get(dict, r.symmetry).sym[1] != fixed_class() ==> forall|k: int|
            1 <= k <= 7 ==> #[trigger] turn_in(dict, f, tile, r, k),
{
    if alist_get(dict, r.symmetry).sym[1] == fixed_class() {
        lemma_rules_grow_refl(cur);
    } else {
        lemma_turns_from(dict, cur, tile, r, 1, f);
    }
}

/// Expanding entries in order keeps what was there, and every entry whose
/// quarter-turned class is not fixed contributes all seven variants.
pub proof fn lemma_entries_expanded(dict: Dictionary, cur: Rules, entries: Rules, f: Rules)
    requires
        alist_wf(cur),
        entries_expanded(dict, cur, entries) == Some(f),
    ensures
        alist_wf(f),
        rules_grow(cur, f),
        forall|i: int|
            0 <= i < entries.len() ==> turn_defined(dict, #[trigger] entries[i].1, 1),
        forall|i: int, k: int|
            0 <= i < entries.len() && 1 <= k <= 7 && alist_get(dict, entries[i].1.symmetry).sym[1]
                != fixed_class() ==> #[trigger] turn_in(dict, f, entries[i].0, entries[i].1, k),
    decreases entries.len(),
{
    if entries.len() == 0 {
        lemma_rules_grow_refl(cur);
    } else {
        let c = entries_expanded(dict, cur, entries.drop_last()).unwrap();
        lemma_entries_expanded(dict, cur, entries.drop_last(), c);
        lemma_entry_expanded(dict, c, entries.last().0, entries.last().1, f);
        lemma_rules_grow_trans(cur, c, f);
        assert forall|i: int| 0 <= i < entries.len() implies turn_defined(dict, #[trigger] entries[i].1, 1) by {
            if i < entries.len() - 1 {
                assert(entries.drop_last()[i] == entries[i]);
            }
        }
        assert forall|i: int, k: int|
            0 <= i < entries.len() && 1 <= k <= 7 && alist_get(dict, entries[i].1.symmetry).sym[1]
                != fixed_class() implies #[trigger] turn_in(dict, f, entries[i].0, entries[i].1, k) by {
            if i < entries.len() - 1 {
                assert(entries.drop_last()[i] == entries[i]);
                assert(turn_in(dict, c, entries.drop_last()[i].0, entries.drop_last()[i].1, k));
                lemma_turn_in_grows(dict, c, f, entries[i].0, entries[i].1, k);
            }
        }
    }
}

/// Inserting rules keeps keys unique.
pub proof fn lemma_rules_inserted_wf(cur: Rules, new: Rules)
    requires
        alist_wf(cur),
    ensures
        alist_wf(rules_inserted(cur, new)),
    decreases new.len(),
{
    if new.len() > 0 {
        lemma_rules_inserted_wf(cur, new.drop_last());
        lemma_alist_insert(rules_inserted(cur, new.drop_last()), new.last().0, new.last().1);
    }
}

/// Expansion keeps every rule it started from (the given rules with the new
/// tiles' rules inserted): no tile is lost, no class changes, no list shrinks.
/// And for every tile whose quarter-turned class is not the fixed class, each of
/// the seven transformations brings in the transformed variant, with the
/// variant of each neighbour (not of the fixed class) listed beside it in the
/// turned direction.
pub proof fn law_expand_brings_in_turned_variants(rules: Rules, dict: Dictionary, new_rules: Rules, i: int, k: int)
    requires
        alist_wf(rules),
        spec_expand(rules, dict, new_rules) is Some,
        0 <= i < rules.len(),
        1 <= k <= 7,
        alist_get(dict, rules[i].1.symmetry).sym[1] != fixed_class(),
    ensures
        rules_grow(rules_inserted(rules, new_rules), spec_expand(rules, dict, new_rules).unwrap()),
        turn_in(dict, spec_expand(rules, dict, new_rules).unwrap(), rules[i].0, rules[i].1, k),
{
    lemma_rules_inserted_wf(rules, new_rules);
    lemma_entries_expanded(dict, rules_inserted(rules, new_rules), rules, spec_expand(rules, dict, new_rules).unwrap());
}

/// The unit step of direction `d` on the grid, row 0 at the top: up is
/// (0, -1), right (1, 0), down (0, 1), left (-1, 0).
pub open spec fn step_of(d: int) -> (int, int) {
    if d == 0 {
        (0, -1)
    } else if d == 1 {
        (1, 0)
    } else if d == 2 {
        (0, 1)
    } else {
        (-1, 0)
    }
}

/// A step turned a quarter turn clockwise (as the picture turns by 90
/// degrees): (x, y) becomes (-y, x).
pub open spec fn quarter_turned(v: (int, int)) -> (int, int) {
    (-v.1, v.0)
}

/// A step mirrored left to right: (x, y) becomes (-x, y).
pub open spec fn mirrored(v: (int, int)) -> (int, int) {
    (-v.0, v.1)
}

/// A step moved by transformation `k`: `k` quarter turns for 1 to 3 (90, 180,
/// 270 degrees); for 4 to 7, the mirror followed by `k - 4` quarter turns.
pub open spec fn transformed_step(k: int, v: (int, int)) -> (int, int) {
    let w = if k >= 4 {
        mirrored(v)
    } else {
        v
    };
    let n = if k >= 4 {
        k - 4
    } else {
        k
    };
    if n == 0 {
        w
    } else if n == 1 {
        quarter_turned(w)
    } else if n == 2 {
        quarter_turned(quarter_turned(w))
    } else {
        quarter_turned(quarter_turned(quarter_turned(w)))
    }
}

/// Each transformation moves the four directions as the picture itself turns
/// and flips.
pub proof fn lemma_turned_dir_geometric(k: int, d: int)
    requires
        1 <= k <= 7,
        0 <= d < 4,
    ensures
        0 <= turned_dir(k, d) < 4,
        step_of(turned_dir(k, d)) == transformed_step(k, step_of(d)),
{
    if k == 1 {
        assert(seq![1int, 2, 3, 0][0] == 1 && seq![1int, 2, 3, 0][1] == 2 && seq![1int, 2, 3, 0][2] == 3 && seq![1int, 2, 3, 0][3] == 0);
    }
    if k == 2 {
        assert(seq![2int, 3, 0, 1][0] == 2 && seq![2int, 3, 0, 1][1] == 3 && seq![2int, 3, 0, 1][2] == 0 && seq![2int, 3, 0, 1][3] == 1);
    }
    if k == 3 {
        assert(seq![3int, 0, 1, 2][0] == 3 && seq![3int, 0, 1, 2][1] == 0 && seq![3int, 0, 1, 2][2] == 1 && seq![3int, 0, 1, 2][3] == 2);
    }
    if k == 4 {
        assert(seq![0int, 3, 2, 1][0] == 0 && seq![0int, 3, 2, 1][1] == 3 && seq![0int, 3, 2, 1][2] == 2 && seq![0int, 3, 2, 1][3] == 1);
    }
    if k == 5 {
        assert(seq![1int, 0, 3, 2][0] == 1 && seq![1int, 0, 3, 2][1] == 0 && seq![1int, 0, 3, 2][2] == 3 && seq![1int, 0, 3, 2][3] == 2);
    }
    if k == 6 {
        assert(seq![2int, 1, 0, 3][0] == 2 && seq![2int, 1, 0, 3][1] == 1 && seq![2int, 1, 0, 3][2] == 0 && seq![2int, 1, 0, 3][3] == 3);
    }
    if k == 7 {
        assert(seq![3int, 2, 1, 0][0] == 3 && seq![3int, 2, 1, 0][1] == 2 && seq![3int, 2, 1, 0][2] == 1 && seq![3int, 2, 1, 0][3] == 0);
    }
}

/// Expansion places the variants as the picture turns: whenever a tile (of a
/// class whose quarter turn is not the fixed class) lists neighbour `t` in
/// direction `d`, its variant made by transformation `k` lists the variant of
/// `t` (unless `t` is of the fixed class) in the direction whose step is the
/// step of `d` turned by `k`: for a quarter turn, up goes right, right goes
/// down, down goes left and left goes up; for the mirror, left and right swap.
pub proof fn law_expand_turns_geometrically(
    rules: Rules,
    dict: Dictionary,
    new_rules: Rules,
    i: int,
    k: int,
    d: int,
    t: Seq<char>,
    e: int,
)
    requires
        alist_wf(rules),
        spec_expand(rules, dict, new_rules) is Some,
        0 <= i < rules.len(),
        1 <= k <= 7,
        alist_get(dict, rules[i].1.symmetry).sym[1] != fixed_class(),
        0 <= d < 4,
        rules[i].1.dir(d).contains(t),
        0 <= e < 4,
        step_of(e) == transformed_step(k, step_of(d)),
    ensures
        ({
            let f = spec_expand(rules, dict, new_rules).unwrap();
            let s = alist_get(f, t).symmetry;
            &&& alist_has(f, t)
            &&& s != fixed_class() ==> has_link(
                f,
                turned_name(dict, rules[i].0, rules[i].1, k),
                e,
                spec_new_tile_name(t, alist_get(dict, s).eq[k], s),
            )
        }),
{
    law_expand_brings_in_turned_variants(rules, dict, new_rules, i, k);
    lemma_turned_dir_geometric(k, d);
    let td = turned_dir(k, d);
    assert(step_of(e) == step_of(td));
    assert(e == td);
}

} // verus!

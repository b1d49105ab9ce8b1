//! Adjacency rules, rule sets and tile sets.

use vstd::prelude::*;
use crate::strmap::{StrMap, alist_has, alist_get, alist_insert, alist_wf, alist_index, lemma_alist_index, lemma_alist_insert};
use crate::text::{strs_contain, copy_strs, lemma_names_push, lemma_deep_view_names, single};

verus! {

/// A list of tile names in its model form.
pub type Names = Seq<Seq<char>>;

/// The model of an adjacency rule: a symmetry class and, for each of the four
/// directions (0 up, 1 right, 2 down, 3 left), the tiles allowed there.
#[verifier::ext_equal]
pub ghost struct RuleView {
    pub symmetry: Seq<char>,
    pub up: Names,
    pub right: Names,
    pub down: Names,
    pub left: Names,
}

impl RuleView {
    /// The list of the given direction; no list past direction 3.
    pub open spec fn dir(self, d: int) -> Names {
        if d == 0 {
            self.up
        } else if d == 1 {
            self.right
        } else if d == 2 {
            self.down
        } else if d == 3 {
            self.left
        } else {
            Seq::empty()
        }
    }

    /// The rule with the list of direction `d < 4` replaced.
    pub open spec fn with_dir(self, d: int, s: Names) -> RuleView {
        if d == 0 {
            RuleView { up: s, ..self }
        } else if d == 1 {
            RuleView { right: s, ..self }
        } else if d == 2 {
            RuleView { down: s, ..self }
        } else if d == 3 {
            RuleView { left: s, ..self }
        } else {
            self
        }
    }
}

/// A rule with no allowed neighbour.
pub open spec fn empty_rule(symmetry: Seq<char>) -> RuleView {
    RuleView {
        symmetry,
        up: Seq::empty(),
        right: Seq::empty(),
        down: Seq::empty(),
        left: Seq::empty(),
    }
}

/// A rule with the single neighbour `tile` in direction `d`; a direction past 3
/// gives no neighbour at all.
pub open spec fn single_rule(symmetry: Seq<char>, d: int, tile: Seq<char>) -> RuleView {
    empty_rule(symmetry).with_dir(d, seq![tile])
}

/// The tiles allowed next to a tile, by direction, and the tile's symmetry class.
#[derive(Clone, Debug)]
pub struct AdjacencyRule {
    pub symmetry: String,
    pub up_tiles: Vec<String>,
    pub right_tiles: Vec<String>,
    pub down_tiles: Vec<String>,
    pub left_tiles: Vec<String>,
}

impl View for AdjacencyRule {
    type V = RuleView;

    open spec fn view(&self) -> RuleView {
        RuleView {
            symmetry: self.symmetry@,
            up: self.up_tiles.deep_view(),
            right: self.right_tiles.deep_view(),
            down: self.down_tiles.deep_view(),
            left: self.left_tiles.deep_view(),
        }
    }
}

impl AdjacencyRule {
    /// A rule made of all its parts.
    pub fn new(
        symmetry: String,
        up_tiles: Vec<String>,
        right_tiles: Vec<String>,
        down_tiles: Vec<String>,
        left_tiles: Vec<String>,
    ) -> (res: AdjacencyRule)
        ensures
            res@ == (RuleView {
                symmetry: symmetry@,
                up: up_tiles.deep_view(),
                right: right_tiles.deep_view(),
                down: down_tiles.deep_view(),
                left: left_tiles.deep_view(),
            }),
    {
        AdjacencyRule { symmetry, up_tiles, right_tiles, down_tiles, left_tiles }
    }

    /// A rule with no neighbours.
    pub fn new_empty(symmetry: String) -> (res: AdjacencyRule)
        ensures
            res@ == empty_rule(symmetry@),
    {
        let res = AdjacencyRule {
            symmetry,
            up_tiles: Vec::new(),
            right_tiles: Vec::new(),
            down_tiles: Vec::new(),
            left_tiles: Vec::new(),
        };
        assert(res@ =~= empty_rule(symmetry@));
        res
    }

    /// A rule with one neighbour in direction `dir`; directions past 3 give an
    /// empty rule.
    pub fn new_rule(symmetry: String, dir: u32, tile: String) -> (res: AdjacencyRule)
        ensures
            res@ == single_rule(symmetry@, dir as int, tile@),
    {
        let mut res = AdjacencyRule::new_empty(symmetry);
        if dir < 4 {
            res.push_dir(dir, tile);
        }
        assert(res@ =~= single_rule(symmetry@, dir as int, tile@));
        res
    }

    /// Append a tile to the list of direction `d`.
    pub fn push_dir(&mut self, d: u32, tile: String)
        requires
            d < 4,
        ensures
            final(self)@ == old(self)@.with_dir(d as int, old(self)@.dir(d as int).push(tile@)),
    {
        let ghost t = tile@;
        let ghost tv = tile;
        proof {
            lemma_deep_view_names(&self.up_tiles);
            lemma_deep_view_names(&self.right_tiles);
            lemma_deep_view_names(&self.down_tiles);
            lemma_deep_view_names(&self.left_tiles);
        }
        let ghost ou = self.up_tiles@;
        let ghost or = self.right_tiles@;
        let ghost od = self.down_tiles@;
        let ghost ol = self.left_tiles@;
        if d == 0 {
            self.up_tiles.push(tile);
        } else if d == 1 {
            self.right_tiles.push(tile);
        } else if d == 2 {
            self.down_tiles.push(tile);
        } else {
            self.left_tiles.push(tile);
        }
        proof {
            lemma_deep_view_names(&self.up_tiles);
            lemma_deep_view_names(&self.right_tiles);
            lemma_deep_view_names(&self.down_tiles);
            lemma_deep_view_names(&self.left_tiles);
            if d == 0 { lemma_names_push(ou, self.up_tiles@, tv); }
            if d == 1 { lemma_names_push(or, self.right_tiles@, tv); }
            if d == 2 { lemma_names_push(od, self.down_tiles@, tv); }
            if d == 3 { lemma_names_push(ol, self.left_tiles@, tv); }
        }
        assert(self@ =~= old(self)@.with_dir(d as int, old(self)@.dir(d as int).push(t)));
    }

    /// Replace the list of direction `d`.
    pub fn set_dir(&mut self, d: u32, tiles: Vec<String>)
        requires
            d < 4,
        ensures
            final(self)@ == old(self)@.with_dir(d as int, tiles.deep_view()),
    {
        let ghost tv = tiles.deep_view();
        if d == 0 {
            self.up_tiles = tiles;
        } else if d == 1 {
            self.right_tiles = tiles;
        } else if d == 2 {
            self.down_tiles = tiles;
        } else {
            self.left_tiles = tiles;
        }
        assert(self@ =~= old(self)@.with_dir(d as int, tv));
    }

    /// Whether the list of direction `d` holds a tile.
    pub fn dir_contains(&self, d: u32, tile: &String) -> (res: bool)
        requires
            d < 4,
        ensures
            res == self@.dir(d as int).contains(tile@),
    {
        if d == 0 {
            strs_contain(&self.up_tiles, tile)
        } else if d == 1 {
            strs_contain(&self.right_tiles, tile)
        } else if d == 2 {
            strs_contain(&self.down_tiles, tile)
        } else {
            strs_contain(&self.left_tiles, tile)
        }
    }

    /// A copy of the rule.
    pub fn duplicate(&self) -> (res: AdjacencyRule)
        ensures
            res@ == self@,
    {
        AdjacencyRule {
            symmetry: self.symmetry.clone(),
            up_tiles: copy_strs(&self.up_tiles),
            right_tiles: copy_strs(&self.right_tiles),
            down_tiles: copy_strs(&self.down_tiles),
            left_tiles: copy_strs(&self.left_tiles),
        }
    }
}


/// The rules of a rule set in model form: tile names with their rules, in the
/// order the tiles arrived.
pub type Rules = Seq<(Seq<char>, RuleView)>;

/// A link from one tile to another: (tile, direction, neighbour).
pub type Link = (Seq<char>, int, Seq<char>);

/// The model of a rule set.
#[verifier::ext_equal]
pub ghost struct RuleSetView {
    pub tiles_path: Seq<char>,
    pub rules: Rules,
}

/// The tiles of a directory and the adjacency rule of each tile.
#[derive(Clone, Debug)]
pub struct RuleSet {
    pub tiles_path: String,
    pub adjacency_rules: StrMap<AdjacencyRule>,
}

impl View for RuleSet {
    type V = RuleSetView;

    open spec fn view(&self) -> RuleSetView {
        RuleSetView { tiles_path: self.tiles_path@, rules: self.adjacency_rules@ }
    }
}

/// The rules name a tile that lists `neighbour` in direction `d`.
pub open spec fn has_link(rules: Rules, tile: Seq<char>, d: int, neighbour: Seq<char>) -> bool {
    alist_has(rules, tile) && alist_get(rules, tile).dir(d).contains(neighbour)
}

/// Rule `b` extends rule `a`: same symmetry, and each list of `a` is a prefix
/// of the list of `b`.
pub open spec fn rule_grows(a: RuleView, b: RuleView) -> bool {
    &&& a.symmetry == b.symmetry
    &&& a.up.is_prefix_of(b.up)
    &&& a.right.is_prefix_of(b.right)
    &&& a.down.is_prefix_of(b.down)
    &&& a.left.is_prefix_of(b.left)
}

/// `b` holds everything `a` holds: every tile of `a`, with a rule extending
/// the rule in `a`.
pub open spec fn rules_grow(a: Rules, b: Rules) -> bool {
    forall|k: Seq<char>|
        #[trigger] alist_has(a, k) ==> alist_has(b, k) && rule_grows(alist_get(a, k), alist_get(b, k))
}

/// Adding one link: an existing tile gets the neighbour appended in direction
/// `d` unless it is there already; a new tile arrives with that single neighbour
/// and the given symmetry.
pub open spec fn link_added(rules: Rules, symmetry: Seq<char>, tile1: Seq<char>, d: int, tile2: Seq<char>) -> Rules {
    if alist_has(rules, tile1) {
        let r = alist_get(rules, tile1);
        if 0 <= d < 4 && !r.dir(d).contains(tile2) {
            alist_insert(rules, tile1, r.with_dir(d, r.dir(d).push(tile2)))
        } else {
            rules
        }
    } else {
        alist_insert(rules, tile1, single_rule(symmetry, d, tile2))
    }
}

/// Adding a sequence of links in order; new tiles get the given symmetry.
pub open spec fn links_added(rules: Rules, symmetry: Seq<char>, links: Seq<Link>) -> Rules
    decreases links.len(),
{
    if links.len() == 0 {
        rules
    } else {
        let l = links.last();
        link_added(links_added(rules, symmetry, links.drop_last()), symmetry, l.0, l.1, l.2)
    }
}

/// The links that mirror the rule of `tile1`: a neighbour above gets `tile1`
/// below it, and so on round the four directions.
pub open spec fn counterpart_links(tile1: Seq<char>, r: RuleView) -> Seq<Link> {
    r.up.map_values(|t: Seq<char>| (t, 2int, tile1)) + r.right.map_values(
        |t: Seq<char>| (t, 3int, tile1),
    ) + r.down.map_values(|t: Seq<char>| (t, 0int, tile1)) + r.left.map_values(
        |t: Seq<char>| (t, 1int, tile1),
    )
}

/// The mirroring links of every rule, in the order of the rules.
pub open spec fn all_counterparts(rules: Rules) -> Seq<Link>
    decreases rules.len(),
{
    if rules.len() == 0 {
        Seq::empty()
    } else {
        all_counterparts(rules.drop_last()) + counterpart_links(rules.last().0, rules.last().1)
    }
}

/// The symmetry given to tiles that first appear as someone's neighbour.
pub open spec fn unknown_symmetry() -> Seq<char> {
    seq!['N']
}

/// The direction facing `d`.
pub open spec fn opposite(d: int) -> int {
    (d + 2) % 4
}

/// Prefixes compose.
pub proof fn lemma_prefix_trans(x: Names, y: Names, z: Names)
    requires
        x.is_prefix_of(y),
        y.is_prefix_of(z),
    ensures
        x.is_prefix_of(z),
{
    assert forall|i: int| 0 <= i < x.len() implies x[i] == z.subrange(0, x.len() as int)[i] by {
        assert(x[i] == y.subrange(0, x.len() as int)[i]);
        assert(y[i] == z.subrange(0, y.len() as int)[i]);
    }
    assert(x =~= z.subrange(0, x.len() as int));
}

/// A sequence is a prefix of itself.
pub proof fn lemma_prefix_refl(x: Names)
    ensures
        x.is_prefix_of(x),
{
    assert(x =~= x.subrange(0, x.len() as int));
}

/// A sequence is a prefix of itself extended by one.
pub proof fn lemma_prefix_push(x: Names, e: Seq<char>)
    ensures
        x.is_prefix_of(x.push(e)),
{
    assert(x =~= x.push(e).subrange(0, x.len() as int));
}

/// `rule_grows` is a preorder.
pub proof fn lemma_rule_grows_trans(a: RuleView, b: RuleView, c: RuleView)
    requires
        rule_grows(a, b),
        rule_grows(b, c),
    ensures
        rule_grows(a, c),
{
    lemma_prefix_trans(a.up, b.up, c.up);
    lemma_prefix_trans(a.right, b.right, c.right);
    lemma_prefix_trans(a.down, b.down, c.down);
    lemma_prefix_trans(a.left, b.left, c.left);
}

/// `rule_grows` holds of a rule and itself.
pub proof fn lemma_rule_grows_refl(a: RuleView)
    ensures
        rule_grows(a, a),
{
    lemma_prefix_refl(a.up);
    lemma_prefix_refl(a.right);
    lemma_prefix_refl(a.down);
    lemma_prefix_refl(a.left);
}

/// `rules_grow` is a preorder.
pub proof fn lemma_rules_grow_trans(a: Rules, b: Rules, c: Rules)
    requires
        rules_grow(a, b),
        rules_grow(b, c),
    ensures
        rules_grow(a, c),
{
    assert forall|k: Seq<char>| #[trigger] alist_has(a, k) implies alist_has(c, k) && rule_grows(
        alist_get(a, k),
        alist_get(c, k),
    ) by {
        assert(alist_has(b, k));
        lemma_rule_grows_trans(alist_get(a, k), alist_get(b, k), alist_get(c, k));
    }
}

/// `rules_grow` holds of equal rules.
pub proof fn lemma_rules_grow_refl(a: Rules)
    ensures
        rules_grow(a, a),
{
    assert forall|k: Seq<char>| #[trigger] alist_has(a, k) implies alist_has(a, k) && rule_grows(
        alist_get(a, k),
        alist_get(a, k),
    ) by {
        lemma_rule_grows_refl(alist_get(a, k));
    }
}

/// A growing rule keeps what each list holds.
pub proof fn lemma_rule_grows_contains(a: RuleView, b: RuleView, d: int, n: Seq<char>)
    requires
        rule_grows(a, b),
        0 <= d < 4,
        a.dir(d).contains(n),
    ensures
        b.dir(d).contains(n),
{
    let la = a.dir(d);
    let lb = b.dir(d);
    assert(la.is_prefix_of(lb));
    let i = choose|i: int| 0 <= i < la.len() && la[i] == n;
    assert(la[i] == lb.subrange(0, la.len() as int)[i]);
    assert(lb[i] == n);
}

/// Growth keeps every link.
pub proof fn lemma_rules_grow_link(a: Rules, b: Rules, t: Seq<char>, d: int, n: Seq<char>)
    requires
        rules_grow(a, b),
        has_link(a, t, d, n),
        0 <= d < 4,
    ensures
        has_link(b, t, d, n),
{
    assert(alist_has(b, t));
    lemma_rule_grows_contains(alist_get(a, t), alist_get(b, t), d, n);
}

/// Adding one link keeps keys unique, keeps everything there was, and makes the
/// link hold when its direction is one of the four.
pub proof fn lemma_link_added(rules: Rules, symmetry: Seq<char>, tile1: Seq<char>, d: int, tile2: Seq<char>)
    requires
        alist_wf(rules),
    ensures
        alist_wf(link_added(rules, symmetry, tile1, d, tile2)),
        rules_grow(rules, link_added(rules, symmetry, tile1, d, tile2)),
        0 <= d < 4 ==> has_link(link_added(rules, symmetry, tile1, d, tile2), tile1, d, tile2),
{
    let res = link_added(rules, symmetry, tile1, d, tile2);
    if alist_has(rules, tile1) {
        let r = alist_get(rules, tile1);
        if 0 <= d < 4 && !r.dir(d).contains(tile2) {
            let nr = r.with_dir(d, r.dir(d).push(tile2));
            lemma_alist_insert(rules, tile1, nr);
            assert(rule_grows(r, nr)) by {
                lemma_rule_grows_refl(r);
                lemma_prefix_push(r.dir(d), tile2);
            }
            assert forall|k: Seq<char>| #[trigger] alist_has(rules, k) implies alist_has(res, k) && rule_grows(
                alist_get(rules, k),
                alist_get(res, k),
            ) by {
                if k != tile1 {
                    lemma_rule_grows_refl(alist_get(rules, k));
                }
            }
            assert(nr.dir(d)[r.dir(d).len() as int] == tile2);
        } else {
            lemma_rules_grow_refl(rules);
        }
    } else {
        lemma_alist_insert(rules, tile1, single_rule(symmetry, d, tile2));
        assert forall|k: Seq<char>| #[trigger] alist_has(rules, k) implies alist_has(res, k) && rule_grows(
            alist_get(rules, k),
            alist_get(res, k),
        ) by {
            lemma_rule_grows_refl(alist_get(rules, k));
        }
        if 0 <= d < 4 {
            assert(alist_get(res, tile1).dir(d)[0] == tile2);
        }
    }
}

/// Adding links keeps keys unique, keeps everything there was, and makes every
/// link with one of the four directions hold.
pub proof fn lemma_links_added(rules: Rules, symmetry: Seq<char>, links: Seq<Link>)
    requires
        alist_wf(rules),
    ensures
        alist_wf(links_added(rules, symmetry, links)),
        rules_grow(rules, links_added(rules, symmetry, links)),
        forall|j: int|
            0 <= j < links.len() && 0 <= #[trigger] links[j].1 < 4 ==> has_link(
                links_added(rules, symmetry, links),
                links[j].0,
                links[j].1,
                links[j].2,
            ),
    decreases links.len(),
{
    if links.len() == 0 {
        lemma_rules_grow_refl(rules);
    } else {
        let prev = links_added(rules, symmetry, links.drop_last());
        lemma_links_added(rules, symmetry, links.drop_last());
        let l = links.last();
        lemma_link_added(prev, symmetry, l.0, l.1, l.2);
        let res = links_added(rules, symmetry, links);
        lemma_rules_grow_trans(rules, prev, res);
        assert forall|j: int| 0 <= j < links.len() && 0 <= #[trigger] links[j].1 < 4 implies has_link(
            res, links[j].0, links[j].1, links[j].2,
        ) by {
            if j < links.len() - 1 {
                assert(links.drop_last()[j] == links[j]);
                lemma_rules_grow_link(prev, res, links[j].0, links[j].1, links[j].2);
            }
        }
    }
}

/// Adding `a` then `b` is adding `a + b`.
pub proof fn lemma_links_added_concat(rules: Rules, symmetry: Seq<char>, a: Seq<Link>, b: Seq<Link>)
    ensures
        links_added(links_added(rules, symmetry, a), symmetry, b) == links_added(rules, symmetry, a + b),
    decreases b.len(),
{
    if b.len() == 0 {
        assert(a + b =~= a);
    } else {
        lemma_links_added_concat(rules, symmetry, a, b.drop_last());
        assert((a + b).drop_last() =~= a + b.drop_last());
        assert((a + b).last() == b.last());
    }
}

/// Each neighbour of each rule has its mirroring link among `all_counterparts`.
pub proof fn lemma_all_counterparts(rules: Rules, i: int, d: int, t: Seq<char>)
    requires
        0 <= i < rules.len(),
        0 <= d < 4,
        rules[i].1.dir(d).contains(t),
    ensures
        all_counterparts(rules).contains((t, opposite(d), rules[i].0)),
    decreases rules.len(),
{
    let prev = all_counterparts(rules.drop_last());
    let cl = counterpart_links(rules.last().0, rules.last().1);
    if i < rules.len() - 1 {
        assert(rules.drop_last()[i] == rules[i]);
        lemma_all_counterparts(rules.drop_last(), i, d, t);
        let j = choose|j: int| 0 <= j < prev.len() && prev[j] == (t, opposite(d), rules[i].0);
        assert((prev + cl)[j] == prev[j]);
    } else {
        let r = rules[i].1;
        let tile1 = rules[i].0;
        let k = choose|k: int| 0 <= k < r.dir(d).len() && r.dir(d)[k] == t;
        let up = r.up.map_values(|x: Seq<char>| (x, 2int, tile1));
        let right = r.right.map_values(|x: Seq<char>| (x, 3int, tile1));
        let down = r.down.map_values(|x: Seq<char>| (x, 0int, tile1));
        let left = r.left.map_values(|x: Seq<char>| (x, 1int, tile1));
        assert(cl == up + right + down + left);
        let pos = if d == 0 {
            k
        } else if d == 1 {
            up.len() + k
        } else if d == 2 {
            up.len() + right.len() + k
        } else {
            up.len() + right.len() + down.len() + k
        };
        assert(cl[pos] == (t, opposite(d), tile1));
        assert((prev + cl)[prev.len() + pos] == cl[pos]);
    }
}

/// Adding a rule links both ways: after `add_rule(_, tile1, d, _, tile2)` with
/// `d` one of the four directions, `tile1` lists `tile2` in direction `d`,
/// `tile2` lists `tile1` in the opposite direction, and nothing was lost.
pub proof fn law_add_rule_links_both_ways(
    rules: Rules,
    sym1: Seq<char>,
    tile1: Seq<char>,
    d: int,
    sym2: Seq<char>,
    tile2: Seq<char>,
)
    requires
        alist_wf(rules),
        0 <= d < 4,
    ensures
        ({
            let res = link_added(link_added(rules, sym1, tile1, d, tile2), sym2, tile2, opposite(d), tile1);
            &&& has_link(res, tile1, d, tile2)
            &&& has_link(res, tile2, opposite(d), tile1)
            &&& rules_grow(rules, res)
        }),
{
    let mid = link_added(rules, sym1, tile1, d, tile2);
    lemma_link_added(rules, sym1, tile1, d, tile2);
    lemma_link_added(mid, sym2, tile2, opposite(d), tile1);
    let res = link_added(mid, sym2, tile2, opposite(d), tile1);
    lemma_rules_grow_link(mid, res, tile1, d, tile2);
    lemma_rules_grow_trans(rules, mid, res);
}

/// Mirroring the rules makes them symmetric in what they listed: whenever a
/// rule lists a neighbour in some direction, the neighbour afterwards lists the
/// tile in the opposite direction; and nothing that was there is lost.
pub proof fn law_ini_expand_mirrors(rules: Rules, i: int, d: int, t: Seq<char>)
    requires
        alist_wf(rules),
        0 <= i < rules.len(),
        0 <= d < 4,
        rules[i].1.dir(d).contains(t),
    ensures
        has_link(
            links_added(rules, unknown_symmetry(), all_counterparts(rules)),
            t,
            opposite(d),
            rules[i].0,
        ),
        rules_grow(rules, links_added(rules, unknown_symmetry(), all_counterparts(rules))),
{
    let links = all_counterparts(rules);
    lemma_all_counterparts(rules, i, d, t);
    lemma_links_added(rules, unknown_symmetry(), links);
    let j = choose|j: int| 0 <= j < links.len() && links[j] == (t, opposite(d), rules[i].0);
    assert(0 <= links[j].1 < 4);
}

/// A link of the rules after adding one link was there before or is the one
/// added.
pub proof fn lemma_link_added_rev(
    rules: Rules,
    symmetry: Seq<char>,
    tile1: Seq<char>,
    d1: int,
    tile2: Seq<char>,
    a: Seq<char>,
    d: int,
    b: Seq<char>,
)
    requires
        alist_wf(rules),
        has_link(link_added(rules, symmetry, tile1, d1, tile2), a, d, b),
    ensures
        has_link(rules, a, d, b) || (a == tile1 && d == d1 && b == tile2),
{
    if alist_has(rules, tile1) {
        let r = alist_get(rules, tile1);
        if 0 <= d1 < 4 && !r.dir(d1).contains(tile2) {
            let nr = r.with_dir(d1, r.dir(d1).push(tile2));
            lemma_alist_insert(rules, tile1, nr);
            if a == tile1 && !(d == d1 && b == tile2) {
                let l = nr.dir(d);
                let k = choose|k: int| 0 <= k < l.len() && l[k] == b;
                if d == d1 {
                    assert(l[k] == r.dir(d)[k]);
                } else {
                    assert(l == r.dir(d));
                }
            }
        }
    } else {
        lemma_alist_insert(rules, tile1, single_rule(symmetry, d1, tile2));
        if a == tile1 {
            let l = single_rule(symmetry, d1, tile2).dir(d);
            let k = choose|k: int| 0 <= k < l.len() && l[k] == b;
            if d != d1 {
                assert(l.len() == 0);
            }
        }
    }
}

/// A link of the rules after adding links was there before or is one of them.
pub proof fn lemma_links_added_rev(rules: Rules, symmetry: Seq<char>, links: Seq<Link>, a: Seq<char>, d: int, b: Seq<char>)
    requires
        alist_wf(rules),
        has_link(links_added(rules, symmetry, links), a, d, b),
    ensures
        has_link(rules, a, d, b) || links.contains((a, d, b)),
    decreases links.len(),
{
    if links.len() > 0 {
        let prev = links_added(rules, symmetry, links.drop_last());
        let l = links.last();
        lemma_links_added(rules, symmetry, links.drop_last());
        lemma_link_added_rev(prev, symmetry, l.0, l.1, l.2, a, d, b);
        if has_link(prev, a, d, b) {
            lemma_links_added_rev(rules, symmetry, links.drop_last(), a, d, b);
            if links.drop_last().contains((a, d, b)) {
                let j = choose|j: int| 0 <= j < links.drop_last().len() && links.drop_last()[j] == (a, d, b);
                assert(links[j] == (a, d, b));
            }
        } else {
            assert(links[links.len() - 1] == (a, d, b));
        }
    }
}

/// Every mirroring link comes from a neighbour listed by some rule.
pub proof fn lemma_all_counterparts_rev(rules: Rules, l: Link)
    requires
        all_counterparts(rules).contains(l),
    ensures
        exists|i: int, d: int|
            0 <= i < rules.len() && 0 <= d < 4 && #[trigger] rules[i].1.dir(d).contains(l.0) && l.1 == opposite(d)
                && l.2 == rules[i].0,
    decreases rules.len(),
{
    let prev = all_counterparts(rules.drop_last());
    let tile1 = rules.last().0;
    let r = rules.last().1;
    let cl = counterpart_links(tile1, r);
    let k = choose|k: int| 0 <= k < (prev + cl).len() && (prev + cl)[k] == l;
    if k < prev.len() {
        assert(prev[k] == l);
        lemma_all_counterparts_rev(rules.drop_last(), l);
        let (i, d) = choose|i: int, d: int|
            0 <= i < rules.drop_last().len() && 0 <= d < 4 && #[trigger] rules.drop_last()[i].1.dir(d).contains(l.0)
                && l.1 == opposite(d) && l.2 == rules.drop_last()[i].0;
        assert(rules[i] == rules.drop_last()[i]);
    } else {
        let n = rules.len() - 1;
        assert(rules[n] == rules.last());
        let up = r.up.map_values(|x: Seq<char>| (x, 2int, tile1));
        let right = r.right.map_values(|x: Seq<char>| (x, 3int, tile1));
        let down = r.down.map_values(|x: Seq<char>| (x, 0int, tile1));
        let left = r.left.map_values(|x: Seq<char>| (x, 1int, tile1));
        assert(cl == up + right + down + left);
        let q = k - prev.len();
        assert(cl[q] == l);
        if q < up.len() {
            assert(r.up[q] == l.0);
            assert(rules[n].1.dir(0).contains(l.0));
        } else if q < up.len() + right.len() {
            assert(r.right[q - up.len()] == l.0);
            assert(rules[n].1.dir(1).contains(l.0));
        } else if q < up.len() + right.len() + down.len() {
            assert(r.down[q - up.len() - right.len()] == l.0);
            assert(rules[n].1.dir(2).contains(l.0));
        } else {
            assert(r.left[q - up.len() - right.len() - down.len()] == l.0);
            assert(rules[n].1.dir(3).contains(l.0));
        }
    }
}

/// Adding links that all hold already changes nothing.
pub proof fn lemma_links_present(rules: Rules, symmetry: Seq<char>, links: Seq<Link>)
    requires
        forall|j: int|
            0 <= j < links.len() ==> 0 <= #[trigger] links[j].1 < 4 && has_link(rules, links[j].0, links[j].1, links[j].2),
    ensures
        links_added(rules, symmetry, links) == rules,
    decreases links.len(),
{
    if links.len() > 0 {
        assert forall|j: int| 0 <= j < links.drop_last().len() implies 0 <= #[trigger] links.drop_last()[j].1 < 4 && has_link(
            rules,
            links.drop_last()[j].0,
            links.drop_last()[j].1,
            links.drop_last()[j].2,
        ) by {
            assert(links.drop_last()[j] == links[j]);
        }
        lemma_links_present(rules, symmetry, links.drop_last());
        assert(links.last() == links[links.len() - 1]);
    }
}

/// Mirroring twice is mirroring once: after `ini_expand` every link has its
/// mirror, so a second `ini_expand` changes nothing.
pub proof fn law_ini_expand_idempotent(rules: Rules)
    requires
        alist_wf(rules),
    ensures
        ({
            let once = links_added(rules, unknown_symmetry(), all_counterparts(rules));
            links_added(once, unknown_symmetry(), all_counterparts(once)) == once
        }),
{
    let sym = unknown_symmetry();
    let cr = all_counterparts(rules);
    let once = links_added(rules, sym, cr);
    lemma_links_added(rules, sym, cr);
    let co = all_counterparts(once);
    assert forall|j: int| 0 <= j < co.len() implies 0 <= #[trigger] co[j].1 < 4 && has_link(
        once,
        co[j].0,
        co[j].1,
        co[j].2,
    ) by {
        let l = co[j];
        assert(co.contains(l));
        lemma_all_counterparts_rev(once, l);
        let (i, d) = choose|i: int, d: int|
            0 <= i < once.len() && 0 <= d < 4 && #[trigger] once[i].1.dir(d).contains(l.0) && l.1 == opposite(d)
                && l.2 == once[i].0;
        // `once` links tile1 = once[i].0 to l.0 in direction d; its mirror is l.
        let tile1 = once[i].0;
        lemma_alist_index(once, i);
        assert(has_link(once, tile1, d, l.0));
        lemma_links_added_rev(rules, sym, cr, tile1, d, l.0);
        if has_link(rules, tile1, d, l.0) {
            let p = alist_index(rules, tile1);
            lemma_alist_index(rules, p);
            lemma_all_counterparts(rules, p, d, l.0);
            let q = choose|q: int| 0 <= q < cr.len() && cr[q] == (l.0, opposite(d), rules[p].0);
            assert(0 <= cr[q].1 < 4);
        } else {
            assert(cr.contains((tile1, d, l.0)));
            lemma_all_counterparts_rev(rules, (tile1, d, l.0));
            let (i2, d2) = choose|i2: int, d2: int|
                0 <= i2 < rules.len() && 0 <= d2 < 4 && #[trigger] rules[i2].1.dir(d2).contains(tile1) && d
                    == opposite(d2) && l.0 == rules[i2].0;
            assert(opposite(d) == d2);
            lemma_alist_index(rules, i2);
            assert(has_link(rules, l.0, d2, tile1));
            lemma_rules_grow_link(rules, once, l.0, d2, tile1);
        }
    }
    lemma_links_present(once, sym, co);
}

impl RuleSet {
    /// Keys unique.
    pub open spec fn wf(&self) -> bool {
        self.adjacency_rules.wf()
    }

    /// A copy of the rule set.
    pub fn duplicate(&self) -> (res: RuleSet)
        requires
            self.wf(),
        ensures
            res.wf(),
            res@ == self@,
    {
        RuleSet { tiles_path: self.tiles_path.clone(), adjacency_rules: copy_rules(&self.adjacency_rules) }
    }

    /// Add one link to the rules: an existing `tile1` gets `tile2` in direction
    /// `direction` unless it has it; a new `tile1` arrives with that one
    /// neighbour and the given symmetry.
    pub fn add_rule_aux(&mut self, symmetry: String, tile1: String, direction: u32, tile2: String)
        requires
            old(self).wf(),
        ensures
            final(self).wf(),
            final(self)@.tiles_path == old(self)@.tiles_path,
            final(self)@.rules == link_added(old(self)@.rules, symmetry@, tile1@, direction as int, tile2@),
    {
        proof {
            lemma_link_added(self@.rules, symmetry@, tile1@, direction as int, tile2@);
        }
        match self.adjacency_rules.index_of(&tile1) {
            Some(i) => {
                proof {
                    lemma_alist_index(self@.rules, i as int);
                }
                if direction < 4 && !self.adjacency_rules.value_at(i).dir_contains(direction, &tile2) {
                    let mut nr = self.adjacency_rules.value_at(i).duplicate();
                    nr.push_dir(direction, tile2);
                    self.adjacency_rules.set_value(i, nr);
                }
            },
            None => {
                self.adjacency_rules.insert(tile1, AdjacencyRule::new_rule(symmetry, direction, tile2));
            },
        }
    }

    /// Add a link and its mirror: `tile2` next to `tile1` in `direction`, and
    /// `tile1` next to `tile2` in the opposite direction.
    pub fn add_rule(&mut self, sym1: String, tile1: String, direction: u32, sym2: String, tile2: String)
        requires
            old(self).wf(),
            direction <= u32::MAX - 2,
        ensures
            final(self).wf(),
            final(self)@.tiles_path == old(self)@.tiles_path,
            final(self)@.rules == link_added(
                link_added(old(self)@.rules, sym1@, tile1@, direction as int, tile2@),
                sym2@,
                tile2@,
                opposite(direction as int),
                tile1@,
            ),
    {
        self.add_rule_aux(sym1, tile1.clone(), direction, tile2.clone());
        self.add_rule_aux(sym2, tile2, (direction + 2) % 4, tile1);
    }

    /// Add, for every neighbour listed in the rules, the mirroring link back.
    pub fn ini_expand(&mut self)
        requires
            old(self).wf(),
        ensures
            final(self).wf(),
            final(self)@.tiles_path == old(self)@.tiles_path,
            final(self)@.rules == links_added(
                old(self)@.rules,
                unknown_symmetry(),
                all_counterparts(old(self)@.rules),
            ),
    {
        let snapshot = copy_rules(&self.adjacency_rules);
        let ghost start = self@.rules;
        let n = snapshot.len();
        let mut i: usize = 0;
        while i < n
            invariant
                n == snapshot@.len(),
                snapshot@ == start,
                alist_wf(start),
                i <= n,
                self.wf(),
                self@.tiles_path == old(self)@.tiles_path,
                self@.rules == links_added(start, unknown_symmetry(), all_counterparts(start.take(i as int))),
            decreases n - i,
        {
            let tile1 = snapshot.key_at(i);
            let r = snapshot.value_at(i);
            let ghost before = self@.rules;
            self.add_counterparts(&r.up_tiles, 2, tile1);
            self.add_counterparts(&r.right_tiles, 3, tile1);
            self.add_counterparts(&r.down_tiles, 0, tile1);
            self.add_counterparts(&r.left_tiles, 1, tile1);
            proof {
                let ups = r@.up.map_values(|t: Seq<char>| (t, 2int, tile1@));
                let rights = r@.right.map_values(|t: Seq<char>| (t, 3int, tile1@));
                let downs = r@.down.map_values(|t: Seq<char>| (t, 0int, tile1@));
                let lefts = r@.left.map_values(|t: Seq<char>| (t, 1int, tile1@));
                let prevl = all_counterparts(start.take(i as int));
                lemma_links_added_concat(start, unknown_symmetry(), prevl, ups);
                lemma_links_added_concat(start, unknown_symmetry(), prevl + ups, rights);
                lemma_links_added_concat(start, unknown_symmetry(), prevl + ups + rights, downs);
                lemma_links_added_concat(start, unknown_symmetry(), prevl + ups + rights + downs, lefts);
                assert(start.take(i + 1).drop_last() =~= start.take(i as int));
                assert(start.take(i + 1).last() == start[i as int]);
                assert(all_counterparts(start.take(i + 1)) =~= prevl + ups + rights + downs + lefts);
            }
            i += 1;
        }
        assert(start.take(n as int) =~= start);
    }

    /// Add the links (tile, dir, tile1) for each tile of the list, in order.
    fn add_counterparts(&mut self, tiles: &Vec<String>, dir: u32, tile1: &String)
        requires
            old(self).wf(),
            dir < 4,
        ensures
            final(self).wf(),
            final(self)@.tiles_path == old(self)@.tiles_path,
            final(self)@.rules == links_added(
                old(self)@.rules,
                unknown_symmetry(),
                tiles.deep_view().map_values(|t: Seq<char>| (t, dir as int, tile1@)),
            ),
    {
        let ghost links = tiles.deep_view().map_values(|t: Seq<char>| (t, dir as int, tile1@));
        let mut j: usize = 0;
        while j < tiles.len()
            invariant
                j <= tiles.len(),
                links.len() == tiles.len(),
                links == tiles.deep_view().map_values(|t: Seq<char>| (t, dir as int, tile1@)),
                self.wf(),
                self@.tiles_path == old(self)@.tiles_path,
                self@.rules == links_added(old(self)@.rules, unknown_symmetry(), links.take(j as int)),
            decreases tiles.len() - j,
        {
            self.add_rule_aux(single('N'), tiles[j].clone(), dir, tile1.clone());
            proof {
                assert(links.take(j + 1).drop_last() =~= links.take(j as int));
                assert(links.take(j + 1).last() == links[j as int]);
                assert(links[j as int] == (tiles.deep_view()[j as int], dir as int, tile1@));
            }
            j += 1;
        }
        assert(links.take(tiles.len() as int) =~= links);
    }
}

/// A copy of a rule map.
pub fn copy_rules(m: &StrMap<AdjacencyRule>) -> (res: StrMap<AdjacencyRule>)
    requires
        m.wf(),
    ensures
        res.wf(),
        res@ == m@,
{
    let mut out: StrMap<AdjacencyRule> = StrMap::new();
    let mut i: usize = 0;
    while i < m.len()
        invariant
            m.wf(),
            i <= m@.len(),
            out.wf(),
            out@ == m@.take(i as int),
        decreases m@.len() - i,
    {
        let k = m.key_at(i).clone();
        let v = m.value_at(i).duplicate();
        proof {
            assert forall|j: int| 0 <= j < out@.len() implies #[trigger] out@[j].0 != k@ by {
                assert(m@[j].0 == out@[j].0);
            }
        }
        out.insert(k, v);
        proof {
            if alist_has(m@.take(i as int), k@) {
                let j = alist_index(m@.take(i as int), k@);
                assert(m@[j].0 == k@);
            }
            assert(out@ =~= m@.take(i + 1));
        }
        i += 1;
    }
    assert(m@.take(m@.len() as int) =~= m@);
    out
}


/// The model of a tile set.
#[verifier::ext_equal]
pub ghost struct TileSetView {
    pub tiles: Names,
    pub tiles_path: Seq<char>,
    pub size: u32,
}

/// The tiles in play, the directory that holds them, and their number.
#[derive(Debug)]
pub struct TileSet {
    pub tiles: Vec<String>,
    pub tiles_path: String,
    pub size: u32,
}

impl View for TileSet {
    type V = TileSetView;

    open spec fn view(&self) -> TileSetView {
        TileSetView { tiles: self.tiles.deep_view(), tiles_path: self.tiles_path@, size: self.size }
    }
}

/// A file name ending in `.jpg` or `.png`.
pub open spec fn is_image_name(s: Seq<char>) -> bool {
    s.len() >= 4 && (s.skip(s.len() - 4) == seq!['.', 'j', 'p', 'g'] || s.skip(s.len() - 4) == seq![
        '.',
        'p',
        'n',
        'g',
    ])
}

fn image_name(s: &String) -> (res: bool)
    ensures
        res == is_image_name(s@),
{
    let cs = crate::text::chars_of(s.as_str());
    let n = cs.len();
    if n < 4 {
        return false;
    }
    let jpg = cs[n - 4] == '.' && cs[n - 3] == 'j' && cs[n - 2] == 'p' && cs[n - 1] == 'g';
    let png = cs[n - 4] == '.' && cs[n - 3] == 'p' && cs[n - 2] == 'n' && cs[n - 1] == 'g';
    proof {
        let tail = cs@.skip(n - 4);
        assert(tail == seq![cs@[n - 4], cs@[n - 3], cs@[n - 2], cs@[n - 1]]);
        assert(jpg == (tail == seq!['.', 'j', 'p', 'g'])) by {
            if tail == seq!['.', 'j', 'p', 'g'] {
                assert(tail[0] == '.' && tail[1] == 'j' && tail[2] == 'p' && tail[3] == 'g');
            }
        }
        assert(png == (tail == seq!['.', 'p', 'n', 'g'])) by {
            if tail == seq!['.', 'p', 'n', 'g'] {
                assert(tail[0] == '.' && tail[1] == 'p' && tail[2] == 'n' && tail[3] == 'g');
            }
        }
    }
    jpg || png
}

impl TileSet {
    /// The tile set of a directory: of the given file names (those of the
    /// directory, in the order it lists them), the `.jpg` and `.png` ones.
    pub fn new(tiles_path: &str, file_names: &Vec<String>) -> (res: TileSet)
        ensures
            res@.tiles == file_names.deep_view().filter(|s: Seq<char>| is_image_name(s)),
            res@.tiles_path == tiles_path@,
            res@.size == res@.tiles.len() as u32,
    {
        let mut tiles: Vec<String> = Vec::new();
        let mut i: usize = 0;
        while i < file_names.len()
            invariant
                i <= file_names.len(),
                tiles.deep_view() == file_names.deep_view().take(i as int).filter(
                    |s: Seq<char>| is_image_name(s),
                ),
            decreases file_names.len() - i,
        {
            let ghost before = tiles@;
            proof {
                reveal_with_fuel(Seq::<_>::filter, 1);
                lemma_deep_view_names(&tiles);
                assert(file_names.deep_view().take(i + 1).drop_last() =~= file_names.deep_view().take(i as int));
                assert(file_names.deep_view().take(i + 1).last() == file_names@[i as int]@);
            }
            if image_name(&file_names[i]) {
                let t = file_names[i].clone();
                let ghost tv = t;
                tiles.push(t);
                proof {
                    lemma_names_push(before, tiles@, tv);
                    lemma_deep_view_names(&tiles);
                }
            }
            i += 1;
        }
        assert(file_names.deep_view().take(file_names.len() as int) =~= file_names.deep_view());
        let size = tiles.len() as u32;
        TileSet { tiles, tiles_path: tiles_path.to_owned(), size }
    }

    /// The tile set of a rule set: the tiles it has rules for, in order.
    pub fn new_r(rule_set: &RuleSet) -> (res: TileSet)
        ensures
            res@.tiles == crate::strmap::alist_keys(rule_set@.rules),
            res@.tiles_path == rule_set@.tiles_path,
            res@.size == res@.tiles.len() as u32,
    {
        let mut tiles: Vec<String> = Vec::new();
        let mut i: usize = 0;
        let n = rule_set.adjacency_rules.len();
        while i < n
            invariant
                n == rule_set@.rules.len(),
                i <= n,
                tiles.deep_view() =~= crate::strmap::alist_keys(rule_set@.rules).take(i as int),
            decreases n - i,
        {
            let t = rule_set.adjacency_rules.key_at(i).clone();
            let ghost before = tiles@;
            let ghost tv = t;
            proof {
                lemma_deep_view_names(&tiles);
            }
            tiles.push(t);
            proof {
                lemma_names_push(before, tiles@, tv);
                lemma_deep_view_names(&tiles);
                assert(crate::strmap::alist_keys(rule_set@.rules).take(i + 1) =~= crate::strmap::alist_keys(rule_set@.rules).take(i as int).push(tv@));
            }
            i += 1;
        }
        let size = tiles.len() as u32;
        TileSet { tiles, tiles_path: rule_set.tiles_path.clone(), size }
    }
}


/// The name of variant `k` of a tile outside any turning class: `name-k.ext`.
pub open spec fn variant_name(tile: Seq<char>, k: nat) -> Seq<char> {
    crate::names::suffixed_name(tile, k)
}

/// The rule of a tile after its symmetry class has been applied: which of the
/// tile itself and its variant may stand next to it, by class.
pub open spec fn symmetry_grown_rule(tile: Seq<char>, r: RuleView) -> RuleView {
    let s = r.symmetry;
    if s == seq!['B'] {
        let v = variant_name(tile, 2);
        RuleView { up: r.up.push(tile), right: r.right.push(v), left: r.left.push(v), ..r }
    } else if s == seq!['T'] {
        let v = variant_name(tile, 2);
        RuleView { up: r.up.push(v), down: r.down.push(v), left: r.left.push(tile), ..r }
    } else if s == seq!['Q'] {
        let v = variant_name(tile, 3);
        RuleView { up: r.up.push(v), down: r.down.push(v), ..r }
    } else if s == seq!['L'] {
        let v = variant_name(tile, 1);
        RuleView { up: r.up.push(v), down: r.down.push(v), ..r }
    } else if s == seq!['I'] {
        RuleView { up: r.up.push(tile), left: r.left.push(tile), ..r }
    } else if s == seq!['Z'] {
        let v = variant_name(tile, 1);
        RuleView { up: r.up.push(v), ..r }
    } else if s == seq!['S'] {
        let v = variant_name(tile, 4);
        RuleView { up: r.up.push(v), left: r.left.push(v), ..r }
    } else if s == seq!['X'] {
        RuleView { up: r.up.push(tile), ..r }
    } else {
        r
    }
}

/// The variant tile a symmetry class calls for, with its (empty) rule.
pub open spec fn symmetry_variant(tile: Seq<char>, r: RuleView) -> Option<(Seq<char>, RuleView)> {
    let s = r.symmetry;
    if s == seq!['B'] {
        Some((variant_name(tile, 2), empty_rule(seq!['B'])))
    } else if s == seq!['T'] {
        Some((variant_name(tile, 2), empty_rule(seq!['T'])))
    } else if s == seq!['Q'] {
        Some((variant_name(tile, 3), empty_rule(seq!['L'])))
    } else if s == seq!['L'] {
        Some((variant_name(tile, 1), empty_rule(seq!['Q'])))
    } else if s == seq!['Z'] {
        Some((variant_name(tile, 1), empty_rule(seq!['Z'])))
    } else if s == seq!['S'] {
        Some((variant_name(tile, 4), empty_rule(seq!['S'])))
    } else {
        None
    }
}

/// The variants of all rules, gathered in order; a later variant of the same
/// name replaces an earlier one.
pub open spec fn symmetry_variants(rules: Rules) -> Rules
    decreases rules.len(),
{
    if rules.len() == 0 {
        Seq::empty()
    } else {
        let prev = symmetry_variants(rules.drop_last());
        match symmetry_variant(rules.last().0, rules.last().1) {
            Some(e) => alist_insert(prev, e.0, e.1),
            None => prev,
        }
    }
}

/// Every rule with its symmetry class applied.
pub open spec fn symmetry_grown(rules: Rules) -> Rules {
    rules.map_values(|e: (Seq<char>, RuleView)| (e.0, symmetry_grown_rule(e.0, e.1)))
}

/// The variant collection never repeats a key.
pub proof fn lemma_symmetry_variants_wf(rules: Rules)
    ensures
        alist_wf(symmetry_variants(rules)),
    decreases rules.len(),
{
    if rules.len() > 0 {
        lemma_symmetry_variants_wf(rules.drop_last());
        match symmetry_variant(rules.last().0, rules.last().1) {
            Some(e) => {
                lemma_alist_insert(symmetry_variants(rules.drop_last()), e.0, e.1);
            },
            None => {},
        }
    }
}

/// What `TileSet::expand` does to each tile's own rule, by class, in literal
/// directions: B lists itself above and its variant `-2` to the right and the
/// left; T its variant `-2` above and below and itself to the left; Q its
/// variant `-3` above and below; L its variant `-1` above and below; I itself
/// above and to the left; Z its variant `-1` above; S its variant `-4` above
/// and to the left; X itself above. Every other list, the class and the name
/// stay, and a tile of any other class keeps its rule.
pub proof fn law_symmetry_grown_by_class(rules: Rules, i: int)
    requires
        0 <= i < rules.len(),
    ensures
        ({
            let t = rules[i].0;
            let r = rules[i].1;
            let g = symmetry_grown(rules)[i].1;
            &&& symmetry_grown(rules).len() == rules.len()
            &&& symmetry_grown(rules)[i].0 == t
            &&& g.symmetry == r.symmetry
            &&& (r.symmetry == seq!['B'] ==> g.up == r.up.push(t) && g.right == r.right.push(crate::names::suffixed_name(t, 2)) && g.down == r.down && g.left == r.left.push(crate::names::suffixed_name(t, 2)))
            &&& (r.symmetry == seq!['T'] ==> g.up == r.up.push(crate::names::suffixed_name(t, 2)) && g.right == r.right && g.down == r.down.push(crate::names::suffixed_name(t, 2)) && g.left == r.left.push(t))
            &&& (r.symmetry == seq!['Q'] ==> g.up == r.up.push(crate::names::suffixed_name(t, 3)) && g.right == r.right && g.down == r.down.push(crate::names::suffixed_name(t, 3)) && g.left == r.left)
            &&& (r.symmetry == seq!['L'] ==> g.up == r.up.push(crate::names::suffixed_name(t, 1)) && g.right == r.right && g.down == r.down.push(crate::names::suffixed_name(t, 1)) && g.left == r.left)
            &&& (r.symmetry == seq!['I'] ==> g.up == r.up.push(t) && g.right == r.right && g.down == r.down && g.left == r.left.push(t))
            &&& (r.symmetry == seq!['Z'] ==> g.up == r.up.push(crate::names::suffixed_name(t, 1)) && g.right == r.right && g.down == r.down && g.left == r.left)
            &&& (r.symmetry == seq!['S'] ==> g.up == r.up.push(crate::names::suffixed_name(t, 4)) && g.right == r.right && g.down == r.down && g.left == r.left.push(crate::names::suffixed_name(t, 4)))
            &&& (r.symmetry == seq!['X'] ==> g.up == r.up.push(t) && g.right == r.right && g.down == r.down && g.left == r.left)
            &&& (r.symmetry != seq!['B'] && r.symmetry != seq!['T'] && r.symmetry != seq!['Q'] && r.symmetry != seq!['L'] && r.symmetry
            != seq!['I'] && r.symmetry != seq!['Z'] && r.symmetry != seq!['S'] && r.symmetry != seq!['X'] ==> g == r)
        }),
{
    let r = rules[i].1;
    let names = seq![seq!['B'], seq!['T'], seq!['Q'], seq!['L'], seq!['I'], seq!['Z'], seq!['S'], seq!['X']];
    assert forall|a: int, b: int| 0 <= a < 8 && 0 <= b < 8 && a != b implies #[trigger] names[a] != #[trigger] names[b] by {
        assert(names[a][0] != names[b][0]);
    }
    assert(names[0] == seq!['B'] && names[1] == seq!['T'] && names[2] == seq!['Q'] && names[3] == seq!['L']);
    assert(names[4] == seq!['I'] && names[5] == seq!['Z'] && names[6] == seq!['S'] && names[7] == seq!['X']);
}

impl TileSet {
    /// Apply every tile's symmetry class to its own rule, and gather the rules
    /// of the variant tiles the classes call for.
    pub fn expand(rule_set: &mut RuleSet) -> (res: StrMap<AdjacencyRule>)
        requires
            old(rule_set).wf(),
        ensures
            final(rule_set).wf(),
            res.wf(),
            final(rule_set)@.tiles_path == old(rule_set)@.tiles_path,
            final(rule_set)@.rules == symmetry_grown(old(rule_set)@.rules),
            res@ == symmetry_variants(old(rule_set)@.rules),
    {
        let ghost start = rule_set@.rules;
        let n = rule_set.adjacency_rules.len();
        let mut new_rules: StrMap<AdjacencyRule> = StrMap::new();
        let mut i: usize = 0;
        while i < n
            invariant
                n == start.len(),
                i <= n,
                rule_set.wf(),
                new_rules.wf(),
                rule_set@.tiles_path == old(rule_set)@.tiles_path,
                rule_set@.rules == Seq::new(
                    n as nat,
                    |j: int|
                        if j < i {
                            (start[j].0, symmetry_grown_rule(start[j].0, start[j].1))
                        } else {
                            start[j]
                        },
                ),
                new_rules@ == symmetry_variants(start.take(i as int)),
            decreases n - i,
        {
            let tile = rule_set.adjacency_rules.key_at(i).clone();
            let mut r = rule_set.adjacency_rules.value_at(i).duplicate();
            let ghost r0 = r@;
            let ghost t = tile@;
            assert(r0 == start[i as int].1 && t == start[i as int].0);
            let sym = crate::text::chars_of(r.symmetry.as_str());
            let one = sym.len() == 1;
            proof {
                if one {
                    assert(seq![sym@[0]] =~= sym@);
                }
            }
            if one && sym[0] == 'B' {
                let v = RuleSet::nnew_tile_name(&tile, 2);
                r.left_tiles.push(v.clone());
                r.right_tiles.push(v.clone());
                new_rules.insert(v, AdjacencyRule::new_empty(crate::text::single('B')));
                r.up_tiles.push(tile);
            } else if one && sym[0] == 'T' {
                let v = RuleSet::nnew_tile_name(&tile, 2);
                r.up_tiles.push(v.clone());
                r.down_tiles.push(v.clone());
                new_rules.insert(v, AdjacencyRule::new_empty(crate::text::single('T')));
                r.left_tiles.push(tile);
            } else if one && sym[0] == 'Q' {
                let v = RuleSet::nnew_tile_name(&tile, 3);
                r.up_tiles.push(v.clone());
                r.down_tiles.push(v.clone());
                new_rules.insert(v, AdjacencyRule::new_empty(crate::text::single('L')));
            } else if one && sym[0] == 'L' {
                let v = RuleSet::nnew_tile_name(&tile, 1);
                r.up_tiles.push(v.clone());
                r.down_tiles.push(v.clone());
                new_rules.insert(v, AdjacencyRule::new_empty(crate::text::single('Q')));
            } else if one && sym[0] == 'I' {
                r.up_tiles.push(tile.clone());
                r.left_tiles.push(tile);
            } else if one && sym[0] == 'Z' {
                let v = RuleSet::nnew_tile_name(&tile, 1);
                r.up_tiles.push(v.clone());
                new_rules.insert(v, AdjacencyRule::new_empty(crate::text::single('Z')));
            } else if one && sym[0] == 'S' {
                let v = RuleSet::nnew_tile_name(&tile, 4);
                r.up_tiles.push(v.clone());
                r.left_tiles.push(v.clone());
                new_rules.insert(v, AdjacencyRule::new_empty(crate::text::single('S')));
            } else if one && sym[0] == 'X' {
                r.up_tiles.push(tile);
            }
            proof {
                assert(r@ =~= symmetry_grown_rule(t, r0));
                assert(start.take(i + 1).drop_last() =~= start.take(i as int));
                assert(start.take(i + 1).last() == start[i as int]);
            }
            rule_set.adjacency_rules.set_value(i, r);
            proof {
                assert(rule_set@.rules =~= Seq::new(
                    n as nat,
                    |j: int|
                        if j < i + 1 {
                            (start[j].0, symmetry_grown_rule(start[j].0, start[j].1))
                        } else {
                            start[j]
                        },
                ));
            }
            i += 1;
        }
        assert(start.take(n as int) =~= start);
        assert(rule_set@.rules =~= symmetry_grown(start));
        new_rules
    }
}

} // verus!

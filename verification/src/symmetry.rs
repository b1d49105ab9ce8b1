//! Symmetry classes: for each of the eight transformations of a tile (0 none,
//! 1..3 rotations by 90, 180, 270 degrees, 4 horizontal flip, 5..7 the flip
//! followed by those rotations), which variant it yields and in which class.

use vstd::prelude::*;
use crate::tile_set::Names;
use crate::text::{last_index_of, rfind_char, decimal_chars, extend_chars, string_from_chars, chars_of};
use crate::names::suffixed_name;

verus! {

/// The model of a symmetry class.
#[verifier::ext_equal]
pub ghost struct SymmetryView {
    pub eq: Seq<u32>,
    pub sym: Names,
}

/// A symmetry class: `eq[i]` numbers the variant transformation `i` yields (two
/// transformations with the same number give the same tile), and `sym[i]` is
/// the class of that variant.
#[derive(Debug)]
pub struct Symmetry {
    pub eq: Vec<u32>,
    pub sym: Vec<String>,
}

impl View for Symmetry {
    type V = SymmetryView;

    open spec fn view(&self) -> SymmetryView {
        SymmetryView { eq: self.eq@, sym: self.sym.deep_view() }
    }
}

/// The model of a symmetry dictionary: class names with their classes.
pub type Dictionary = Seq<(Seq<char>, SymmetryView)>;

/// Transformation `i` yields a variant not seen before: not the untransformed
/// tile (number 0) and not the variant of any earlier transformation.
pub open spec fn first_of_its_variant(eq: Seq<u32>, i: int) -> bool {
    &&& eq[i] != 0
    &&& forall|j: int| 1 <= j < i ==> eq[j] != eq[i]
}

/// The transformations among 1..7 that each yield a new variant, in order.
pub open spec fn new_variant_transforms(eq: Seq<u32>) -> Seq<u32> {
    Seq::new(7, |j: int| (j + 1) as u32).filter(|i: u32| first_of_its_variant(eq, i as int))
}

/// What a push adds to `contains`.
pub proof fn lemma_push_contains<T>(s: Seq<T>, x: T, v: T)
    ensures
        s.push(x).contains(v) <==> (s.contains(v) || v == x),
{
    if s.contains(v) {
        let q = choose|q: int| 0 <= q < s.len() && s[q] == v;
        assert(s.push(x)[q] == v);
    }
    if v == x {
        assert(s.push(x)[s.len() as int] == v);
    }
    if s.push(x).contains(v) {
        let q = choose|q: int| 0 <= q < s.len() + 1 && s.push(x)[q] == v;
        if q < s.len() {
            assert(s[q] == v);
        }
    }
}

impl Symmetry {
    /// The transformations (among 1..7) to apply to a tile of this class to
    /// obtain each of its distinct variants once, in increasing order.
    pub fn transformations_to_apply(&self) -> (res: Vec<u32>)
        requires
            self.eq@.len() >= 8,
        ensures
            res@ == new_variant_transforms(self.eq@),
    {
        let mut seen: Vec<u32> = Vec::new();
        seen.push(0);
        let mut res: Vec<u32> = Vec::new();
        let ghost all = Seq::new(7, |j: int| (j + 1) as u32);
        let mut i: usize = 1;
        proof {
            reveal_with_fuel(Seq::<_>::filter, 1);
            assert(all.take(0) =~= Seq::<u32>::empty());
            assert(res@ =~= all.take(0).filter(|t: u32| first_of_its_variant(self.eq@, t as int)));
            assert forall|v: u32| seen@.contains(v) <==> (v == 0 || exists|j: int| 1 <= j < 1 && self.eq@[j] == v) by {
                lemma_push_contains(Seq::<u32>::empty(), 0u32, v);
                assert(seen@ =~= Seq::<u32>::empty().push(0u32));
            }
        }
        while i < 8
            invariant
                1 <= i <= 8,
                self.eq@.len() >= 8,
                all == Seq::new(7, |j: int| (j + 1) as u32),
                res@ == all.take(i - 1).filter(|t: u32| first_of_its_variant(self.eq@, t as int)),
                forall|v: u32| seen@.contains(v) <==> (v == 0 || exists|j: int| 1 <= j < i && self.eq@[j] == v),
            decreases 8 - i,
        {
            let t = self.eq[i];
            let mut found = false;
            let mut m: usize = 0;
            assert(seen@.take(0) =~= Seq::<u32>::empty());
            while m < seen.len()
                invariant
                    m <= seen.len(),
                    found == seen@.take(m as int).contains(t),
                decreases seen.len() - m,
            {
                assert(seen@.take(m + 1) =~= seen@.take(m as int).push(seen@[m as int]));
                proof {
                    lemma_push_contains(seen@.take(m as int), seen@[m as int], t);
                }
                if seen[m] == t {
                    found = true;
                }
                m += 1;
            }
            assert(seen@.take(seen.len() as int) =~= seen@);
            proof {
                reveal_with_fuel(Seq::<_>::filter, 1);
                assert(all.take(i as int).drop_last() =~= all.take(i - 1));
                assert(all.take(i as int).last() == i as u32);
                assert(found == !first_of_its_variant(self.eq@, i as int)) by {
                    if found {
                        assert(seen@.contains(t));
                    } else {
                        if t == 0 {
                            assert(seen@.contains(0));
                        }
                        assert forall|j: int| 1 <= j < i implies self.eq@[j] != t by {
                            if self.eq@[j] == t {
                                assert(seen@.contains(t));
                            }
                        }
                    }
                }
            }
            let ghost old_seen = seen@;
            if !found {
                res.push(i as u32);
                seen.push(t);
            }
            proof {
                assert forall|v: u32| seen@.contains(v) <==> (v == 0 || exists|j: int| 1 <= j < i + 1 && self.eq@[j] == v) by {
                    lemma_push_contains(old_seen, t, v);
                    if exists|j: int| 1 <= j < i + 1 && self.eq@[j] == v {
                        let j = choose|j: int| 1 <= j < i + 1 && self.eq@[j] == v;
                        if j < i {
                            assert(old_seen.contains(v));
                        }
                    }
                    if old_seen.contains(v) && v != 0 {
                        let j = choose|j: int| 1 <= j < i && self.eq@[j] == v;
                        assert(1 <= j < i + 1 && self.eq@[j] == v);
                    }
                }
            }
            i += 1;
        }
        assert(all.take(7) =~= all);
        res
    }

    /// The path of the file holding transformation `t` of the tile at
    /// `tile_path`: the number goes before the extension; no path when the name
    /// has no dot.
    pub fn transformed_path(tile_path: &String, transformation: u32) -> (res: Option<String>)
        ensures
            match res {
                Some(p) => last_index_of(tile_path@, '.') >= 0 && p@ == suffixed_name(
                    tile_path@,
                    transformation as nat,
                ),
                None => last_index_of(tile_path@, '.') < 0,
            },
    {
        let cs = chars_of(tile_path.as_str());
        match rfind_char(&cs, '.') {
            None => None,
            Some(j) => {
                let mut out: Vec<char> = Vec::new();
                extend_chars(&mut out, &cs, 0, j);
                out.push('-');
                let d = decimal_chars(transformation);
                extend_chars(&mut out, &d, 0, d.len());
                extend_chars(&mut out, &cs, j, cs.len());
                assert(cs@.subrange(0, j as int) =~= cs@.take(j as int));
                assert(cs@.subrange(j as int, cs@.len() as int) =~= cs@.skip(j as int));
                assert(d@.subrange(0, d@.len() as int) =~= d@);
                assert(out@ =~= suffixed_name(cs@, transformation as nat));
                Some(string_from_chars(&out))
            },
        }
    }
}

} // verus!

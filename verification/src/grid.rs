//! The wave: a grid of regions, stored column by column, with its collapse and
//! the propagation of each collapse to the neighbouring regions.

use vstd::prelude::*;
use crate::strmap::StrMap;
use crate::tile_set::TileSet;
use crate::wave::{Region, RegionView, initial_weights};
use crate::entropy::{f32_nan, f32_positive, f32_less, f32_key, is_nan, key_of};
use crate::random::choose_position;

verus! {

/// The model of a wave.
#[verifier::ext_equal]
pub ghost struct WaveView {
    pub size: (i32, i32),
    pub regions: Seq<RegionView>,
}

/// A grid of `size.0` columns and `size.1` rows of regions. The region at
/// `(x, y)` is `regions[x * size.1 + y]`: columns one after the other.
#[derive(Debug)]
pub struct Wave {
    pub size: (i32, i32),
    pub regions: Vec<Region>,
}

impl Clone for Wave {
    /// A copy of the wave.
    fn clone(&self) -> (res: Wave)
        ensures
            res.size == self.size,
            res.regions@.len() == self.regions@.len(),
    {
        Wave { size: (self.size.0, self.size.1), regions: self.regions.clone() }
    }
}

impl View for Wave {
    type V = WaveView;

    open spec fn view(&self) -> WaveView {
        WaveView { size: self.size, regions: self.regions@.map_values(|r: Region| r@) }
    }
}

/// The number of positions of a grid of the given size.
pub open spec fn cell_count(size: (i32, i32)) -> int {
    if size.0 > 0 && size.1 > 0 {
        size.0 * size.1
    } else {
        0
    }
}

/// `(x, y)` lies on the grid.
pub open spec fn in_grid(size: (i32, i32), x: int, y: int) -> bool {
    0 <= x < size.0 && 0 <= y < size.1
}

/// Where the region of `(x, y)` is stored.
pub open spec fn cell_index(size: (i32, i32), x: int, y: int) -> int {
    x * size.1 + y
}

/// The region at `(x, y)`.
pub open spec fn region_at(w: WaveView, x: int, y: int) -> RegionView {
    w.regions[cell_index(w.size, x, y)]
}

/// Positions on the grid are stored at distinct places within it.
pub proof fn lemma_cell_index(size: (i32, i32), x: int, y: int)
    requires
        in_grid(size, x, y),
    ensures
        0 <= cell_index(size, x, y) < cell_count(size),
        0 <= x * size.1 <= cell_index(size, x, y),
{
    let w = size.0 as int;
    let h = size.1 as int;
    assert(0 <= x * h && x * h + y < w * h) by (nonlinear_arith)
        requires
            0 <= x < w,
            0 <= y < h,
    {
        assert((x + 1) * h <= w * h);
    }
}

/// Two positions of the grid share a place only if they are the same.
pub proof fn lemma_cell_index_inj(size: (i32, i32), x1: int, y1: int, x2: int, y2: int)
    requires
        in_grid(size, x1, y1),
        in_grid(size, x2, y2),
        cell_index(size, x1, y1) == cell_index(size, x2, y2),
    ensures
        x1 == x2 && y1 == y2,
{
    assert(x1 == x2 && y1 == y2) by (nonlinear_arith)
        requires
            0 <= y1 < size.1,
            0 <= y2 < size.1,
            x1 * size.1 + y1 == x2 * size.1 + y2,
    {
        if x1 < x2 {
            assert((x1 + 1) * size.1 <= x2 * size.1);
        } else if x2 < x1 {
            assert((x2 + 1) * size.1 <= x1 * size.1);
        }
    }
}

impl Wave {
    /// One region per position, each well formed.
    pub open spec fn wf(&self) -> bool {
        &&& self.regions@.len() == cell_count(self.size)
        &&& forall|i: int| 0 <= i < self.regions@.len() ==> (#[trigger] self.regions@[i]).wf()
    }
}

/// A first tile of each region, each followed by a space: row by row from the
/// top, each row from the left.
pub open spec fn wave_listing(w: WaveView, rows: int) -> Seq<char>
    decreases rows,
{
    if rows <= 0 {
        Seq::empty()
    } else {
        wave_listing(w, rows - 1) + row_listing(w, rows - 1, w.size.0 as int)
    }
}

/// The first `n` entries of row `y` of the listing.
pub open spec fn row_listing(w: WaveView, y: int, n: int) -> Seq<char>
    decreases n,
{
    if n <= 0 {
        Seq::empty()
    } else {
        row_listing(w, y, n - 1) + region_at(w, n - 1, y).superposition[0].0 + seq![' ']
    }
}

/// Some region has a NaN entropy.
pub open spec fn has_nan(w: WaveView) -> bool {
    exists|i: int| 0 <= i < w.regions.len() && f32_nan(#[trigger] w.regions[i].entropy)
}

/// The region stored at `i` has a positive entropy, and no region has a
/// smaller positive one.
pub open spec fn least_positive(w: WaveView, i: int) -> bool {
    &&& 0 <= i < w.regions.len()
    &&& f32_positive(w.regions[i].entropy)
    &&& forall|j: int|
        0 <= j < w.regions.len() && f32_positive(#[trigger] w.regions[j].entropy) ==> !f32_less(
            w.regions[j].entropy,
            w.regions[i].entropy,
        )
}

/// The positions `(x, y)` with `y < n` of column `x` whose region has the least
/// positive entropy, top to bottom.
pub open spec fn column_candidates(w: WaveView, x: int, n: int) -> Seq<(i32, i32)>
    decreases n,
{
    if n <= 0 {
        Seq::empty()
    } else {
        let p = column_candidates(w, x, n - 1);
        if least_positive(w, cell_index(w.size, x, n - 1)) {
            p.push((x as i32, (n - 1) as i32))
        } else {
            p
        }
    }
}

/// The positions of the first `m` columns whose region has the least positive
/// entropy, column by column.
pub open spec fn candidates(w: WaveView, m: int) -> Seq<(i32, i32)>
    decreases m,
{
    if m <= 0 {
        Seq::empty()
    } else {
        candidates(w, m - 1) + column_candidates(w, m - 1, w.size.1 as int)
    }
}

/// The regions the wave may collapse next: those of least positive entropy.
pub open spec fn lowest_candidates(w: WaveView) -> Seq<(i32, i32)> {
    candidates(w, w.size.0 as int)
}

/// Each candidate lies on the grid and has the least positive entropy.
pub proof fn lemma_column_candidates(w: WaveView, x: int, n: int)
    requires
        0 <= x < w.size.0,
        n <= w.size.1,
    ensures
        forall|k: int|
            0 <= k < column_candidates(w, x, n).len() ==> {
                let p = #[trigger] column_candidates(w, x, n)[k];
                &&& p.0 == x
                &&& 0 <= p.1 < n
                &&& in_grid(w.size, p.0 as int, p.1 as int)
                &&& least_positive(w, cell_index(w.size, p.0 as int, p.1 as int))
            },
    decreases n,
{
    if n > 0 {
        lemma_column_candidates(w, x, n - 1);
        let q = column_candidates(w, x, n - 1);
        assert forall|k: int| 0 <= k < column_candidates(w, x, n).len() implies {
            let p = #[trigger] column_candidates(w, x, n)[k];
            &&& p.0 == x
            &&& 0 <= p.1 < n
            &&& in_grid(w.size, p.0 as int, p.1 as int)
            &&& least_positive(w, cell_index(w.size, p.0 as int, p.1 as int))
        } by {
            if k < q.len() {
                assert(column_candidates(w, x, n)[k] == q[k]);
            } else {
                assert((x as i32) as int == x);
                assert(((n - 1) as i32) as int == n - 1);
                assert(column_candidates(w, x, n)[k] == (x as i32, (n - 1) as i32));
            }
        }
    }
}

/// Each candidate lies on the grid and has the least positive entropy.
pub proof fn lemma_candidates(w: WaveView, m: int)
    requires
        m <= w.size.0,
    ensures
        forall|k: int|
            0 <= k < candidates(w, m).len() ==> {
                let p = #[trigger] candidates(w, m)[k];
                &&& p.0 < m
                &&& in_grid(w.size, p.0 as int, p.1 as int)
                &&& least_positive(w, cell_index(w.size, p.0 as int, p.1 as int))
            },
    decreases m,
{
    if m > 0 {
        lemma_candidates(w, m - 1);
        lemma_column_candidates(w, m - 1, w.size.1 as int);
        let a = candidates(w, m - 1);
        let b = column_candidates(w, m - 1, w.size.1 as int);
        assert forall|k: int| 0 <= k < candidates(w, m).len() implies {
            let p = #[trigger] candidates(w, m)[k];
            &&& p.0 < m
            &&& in_grid(w.size, p.0 as int, p.1 as int)
            &&& least_positive(w, cell_index(w.size, p.0 as int, p.1 as int))
        } by {
            if k < a.len() {
                assert(candidates(w, m)[k] == a[k]);
            } else {
                assert(candidates(w, m)[k] == b[k - a.len()]);
            }
        }
    }
}

/// A grid without rows has no candidates.
proof fn lemma_candidates_flat(w: WaveView, m: int)
    requires
        w.size.1 <= 0,
    ensures
        candidates(w, m) == Seq::<(i32, i32)>::empty(),
    decreases m,
{
    if m > 0 {
        lemma_candidates_flat(w, m - 1);
        assert(column_candidates(w, m - 1, w.size.1 as int) == Seq::<(i32, i32)>::empty());
        assert(candidates(w, m) =~= Seq::<(i32, i32)>::empty());
    }
}

impl Wave {
    /// A wave of the given size whose regions are all the fresh region of the
    /// tile set (see `Region::new`), its entropy computed once by
    /// `entropy_of`.
    pub fn new<F: Fn(&StrMap<u32>) -> u32>(
        tile_set: &TileSet,
        size: (i32, i32),
        probabilities: &StrMap<u32>,
        entropy_of: &F,
    ) -> (res: Wave)
        requires
            tile_set.size <= tile_set.tiles@.len(),
            probabilities.wf(),
            forall|m: &StrMap<u32>| entropy_of.requires((m,)),
            cell_count(size) <= usize::MAX,
        ensures
            res.wf(),
            res.size == size,
            forall|i: int|
                0 <= i < res@.regions.len() ==> (#[trigger] res@.regions[i]).superposition == initial_weights(
                    tile_set@.tiles.take(tile_set.size as int),
                    probabilities@,
                ),
            exists|m: StrMap<u32>, e: u32|
                m@ == initial_weights(tile_set@.tiles.take(tile_set.size as int), probabilities@) && call_ensures(
                    *entropy_of,
                    (&m,),
                    e,
                ) && forall|i: int| 0 <= i < res@.regions.len() ==> (#[trigger] res@.regions[i]).entropy == e,
    {
        let mut region = Region::new(tile_set, probabilities);
        let e = entropy_of(&region.superposition);
        region.entropy = e;
        let n: usize = if size.0 > 0 && size.1 > 0 {
            (size.0 as usize) * (size.1 as usize)
        } else {
            0
        };
        let mut regions: Vec<Region> = Vec::new();
        let mut k: usize = 0;
        while k < n
            invariant
                k <= n,
                regions@.len() == k,
                region.wf(),
                forall|i: int| 0 <= i < k ==> (#[trigger] regions@[i])@ == region@,
                forall|i: int| 0 <= i < k ==> (#[trigger] regions@[i]).wf(),
            decreases n - k,
        {
            regions.push(region.duplicate());
            k += 1;
        }
        let res = Wave { size, regions };
        assert forall|i: int| 0 <= i < res@.regions.len() implies (#[trigger] res@.regions[i]).entropy == e by {
            assert(res@.regions[i] == res.regions@[i]@);
        }
        res
    }

    /// Where the region of `(x, y)` is stored.
    pub(crate) fn index_at(&self, x: i32, y: i32) -> (res: usize)
        requires
            self.wf(),
            in_grid(self.size, x as int, y as int),
        ensures
            res as int == cell_index(self.size, x as int, y as int),
            res < self.regions@.len(),
    {
        proof {
            lemma_cell_index(self.size, x as int, y as int);
        }
        let nreg = self.regions.len();
        let xu = x as usize;
        let hu = self.size.1 as usize;
        let yu = y as usize;
        assert(xu as int == x && hu as int == self.size.1 && yu as int == y);
        xu * hu + yu
    }

    /// The first tile of each region, each followed by a space: row by row
    /// from the top, each row from the left.
    pub fn list_tiles(&self) -> (res: String)
        requires
            self.wf(),
            forall|i: int| 0 <= i < self@.regions.len() ==> (#[trigger] self@.regions[i]).superposition.len() > 0,
        ensures
            res@ == wave_listing(self@, self.size.1 as int),
    {
        let (w, h) = self.size;
        let nreg = self.regions.len();
        let mut out: Vec<char> = Vec::new();
        let mut y: i32 = 0;
        while y < h
            invariant
                self.wf(),
                (w, h) == self.size,
                nreg == self.regions@.len(),
                forall|i: int| 0 <= i < self@.regions.len() ==> (#[trigger] self@.regions[i]).superposition.len() > 0,
                0 <= y,
                y <= h || h <= 0,
                h <= 0 ==> y == 0,
                out@ == wave_listing(self@, y as int),
            decreases h - y,
        {
            let mut x: i32 = 0;
            while x < w
                invariant
                    self.wf(),
                    (w, h) == self.size,
                    nreg == self.regions@.len(),
                    forall|i: int| 0 <= i < self@.regions.len() ==> (#[trigger] self@.regions[i]).superposition.len() > 0,
                    0 <= y < h,
                    0 <= x,
                    x <= w || w <= 0,
                    w <= 0 ==> x == 0,
                    out@ == wave_listing(self@, y as int) + row_listing(self@, y as int, x as int),
                decreases w - x,
            {
                proof {
                    lemma_cell_index(self.size, x as int, y as int);
                }
                let xu = x as usize;
                let hu = h as usize;
                let yu = y as usize;
                assert(xu as int == x && hu as int == h && yu as int == y);
                let idx: usize = xu * hu + yu;
                assert(idx as int == cell_index(self.size, x as int, y as int));
                assert(self@.regions[idx as int] == self.regions@[idx as int]@);
                let tile = self.regions[idx].get_tile();
                let cs = crate::text::chars_of(tile.as_str());
                let ghost before = out@;
                crate::text::extend_chars(&mut out, &cs, 0, cs.len());
                out.push(' ');
                proof {
                    assert(cs@.subrange(0, cs@.len() as int) =~= cs@);
                    assert(self@.regions[idx as int] == self.regions@[idx as int]@);
                    assert(out@ =~= wave_listing(self@, y as int) + row_listing(self@, y as int, x + 1));
                }
                x += 1;
            }
            proof {
                if w <= 0 {
                    assert(row_listing(self@, y as int, w as int) == Seq::<char>::empty());
                    assert(row_listing(self@, y as int, x as int) == Seq::<char>::empty());
                } else {
                    assert(x == w);
                }
                assert(wave_listing(self@, y + 1) == wave_listing(self@, y as int) + row_listing(self@, y as int, w as int));
                assert(out@ =~= wave_listing(self@, y + 1));
            }
            y += 1;
        }
        crate::text::string_from_chars(&out)
    }

    /// The positions of least positive entropy, column by column (see
    /// `lowest_candidates`); nothing when some region's entropy is NaN.
    pub fn lowest_entropy_candidates(&self) -> (res: Option<Vec<(i32, i32)>>)
        requires
            self.wf(),
        ensures
            match res {
                None => has_nan(self@),
                Some(v) => !has_nan(self@) && v@ == lowest_candidates(self@),
            },
    {
        let ghost wv = self@;
        // The least positive entropy, if any.
        let mut best: Option<u32> = None;
        let mut i: usize = 0;
        while i < self.regions.len()
            invariant
                wv == self@,
                i <= wv.regions.len(),
                wv.regions.len() == self.regions@.len(),
                forall|j: int| 0 <= j < i ==> !f32_nan(#[trigger] wv.regions[j].entropy),
                match best {
                    None => forall|j: int| 0 <= j < i ==> !f32_positive(#[trigger] wv.regions[j].entropy),
                    Some(b) => {
                        &&& f32_positive(b)
                        &&& exists|j: int| 0 <= j < i && #[trigger] wv.regions[j].entropy == b
                        &&& forall|j: int|
                            0 <= j < i && f32_positive(#[trigger] wv.regions[j].entropy) ==> !f32_less(
                                wv.regions[j].entropy,
                                b,
                            )
                    },
                },
            decreases wv.regions.len() - i,
        {
            let e = self.regions[i].entropy;
            assert(wv.regions[i as int].entropy == e);
            if is_nan(e) {
                return None;
            }
            let positive = !is_nan(e) && key_of(0) < key_of(e);
            if positive {
                match best {
                    None => {
                        best = Some(e);
                    },
                    Some(b) => {
                        if key_of(e) < key_of(b) {
                            best = Some(e);
                        }
                    },
                }
            }
            i += 1;
        }
        let (w, h) = self.size;
        let nreg = self.regions.len();
        let mut out: Vec<(i32, i32)> = Vec::new();
        if w <= 0 || h <= 0 {
            proof {
                if h <= 0 {
                    lemma_candidates_flat(wv, w as int);
                } else {
                    assert(lowest_candidates(wv) == Seq::<(i32, i32)>::empty());
                }
            }
            return Some(out);
        }
        let b: u32 = match best {
            Some(b) => b,
            None => 0x7f80_0000,
        };
        proof {
            assert forall|j: int| 0 <= j < wv.regions.len() implies (least_positive(wv, j) <==> (f32_positive(
                #[trigger] wv.regions[j].entropy,
            ) && best is Some && f32_key(wv.regions[j].entropy) == f32_key(b))) by {
                if best is Some {
                    let jw = choose|jw: int| 0 <= jw < i && #[trigger] wv.regions[jw].entropy == b;
                    if least_positive(wv, j) {
                        assert(!f32_less(wv.regions[jw].entropy, wv.regions[j].entropy));
                    }
                }
            }
        }
        let mut x: i32 = 0;
        while x < w
            invariant
                wv == self@,
                self.wf(),
                (w, h) == self.size,
                nreg == self.regions@.len(),
                0 < w,
                0 < h,
                0 <= x <= w,
                forall|j: int| 0 <= j < wv.regions.len() ==> !f32_nan(#[trigger] wv.regions[j].entropy),
                forall|j: int|
                    0 <= j < wv.regions.len() ==> (least_positive(wv, j) <==> (f32_positive(
                        #[trigger] wv.regions[j].entropy,
                    ) && best is Some && f32_key(wv.regions[j].entropy) == f32_key(b))),
                out@ == candidates(wv, x as int),
            decreases w - x,
        {
            let mut y: i32 = 0;
            while y < h
                invariant
                    wv == self@,
                    self.wf(),
                    (w, h) == self.size,
                    nreg == self.regions@.len(),
                    0 < w,
                    0 < h,
                    0 <= x < w,
                    0 <= y <= h,
                    forall|j: int| 0 <= j < wv.regions.len() ==> !f32_nan(#[trigger] wv.regions[j].entropy),
                    forall|j: int|
                        0 <= j < wv.regions.len() ==> (least_positive(wv, j) <==> (f32_positive(
                            #[trigger] wv.regions[j].entropy,
                        ) && best is Some && f32_key(wv.regions[j].entropy) == f32_key(b))),
                    out@ == candidates(wv, x as int) + column_candidates(wv, x as int, y as int),
                decreases h - y,
            {
                proof {
                    lemma_cell_index(self.size, x as int, y as int);
                }
                let xu = x as usize;
                let hu = h as usize;
                let yu = y as usize;
                assert(xu as int == x && hu as int == h && yu as int == y);
                let idx: usize = xu * hu + yu;
                assert(idx as int == cell_index(self.size, x as int, y as int));
                let e = self.regions[idx].entropy;
                assert(wv.regions[idx as int].entropy == e);
                let chosen = match best {
                    Some(_) => key_of(0) < key_of(e) && key_of(e) == key_of(b),
                    None => false,
                };
                let ghost before = out@;
                if chosen {
                    out.push((x, y));
                }
                assert(out@ =~= candidates(wv, x as int) + column_candidates(wv, x as int, y + 1));
                y += 1;
            }
            assert(out@ =~= candidates(wv, x + 1));
            x += 1;
        }
        Some(out)
    }

    /// A random position of least positive entropy (see `lowest_candidates`);
    /// `(-2, -2)` when some region's entropy is NaN, `(-1, -1)` when no region
    /// has a positive entropy.
    pub fn lowest_entropy(&self, tile_set_size: u32) -> (res: (i32, i32))
        requires
            self.wf(),
        ensures
            has_nan(self@) ==> res == (-2i32, -2i32),
            !has_nan(self@) && lowest_candidates(self@).len() == 0 ==> res == (-1i32, -1i32),
            !has_nan(self@) && lowest_candidates(self@).len() > 0 ==> lowest_candidates(self@).contains(res),
    {
        match self.lowest_entropy_candidates() {
            None => (-2, -2),
            Some(all_pos) => {
                match choose_position(&all_pos) {
                    None => (-1, -1),
                    Some(p) => p,
                }
            },
        }
    }
}

} // verus!

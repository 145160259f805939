//! The grid of per-cell candidate sets and the collapse/propagation engine.

use vstd::prelude::*;

use crate::direction::Direction;
use crate::error::WfcError;
use crate::prototype::{closed_under_half_turn, spec_matches, Prototype};
use crate::rng::random_below;
use crate::rotation::Rotation;
use crate::sockets::{entries_complete, sockets_of};

verus! {

/// The prototypes a catalogue of socket listings expands to: each base
/// tile's distinct rotated variants, tiles in catalogue order, the variants
/// of tile `t` carrying `t` as their tile index.
pub open spec fn catalog_protos(cat: Seq<Vec<(Direction, bool)>>) -> Seq<Prototype>
    decreases cat.len(),
{
    if cat.len() == 0 {
        Seq::<Prototype>::empty()
    } else {
        catalog_protos(cat.drop_last()) + Prototype::generated(
            Prototype::base((cat.len() - 1) as usize, sockets_of(cat.last()@)),
        )
    }
}

/// Joining two lists that are each closed under the half turn yields a
/// closed list.
#[verifier::spinoff_prover]
proof fn lemma_closed_concat(a: Seq<Prototype>, b: Seq<Prototype>)
    requires
        closed_under_half_turn(a),
        closed_under_half_turn(b),
    ensures
        closed_under_half_turn(a + b),
{
    let ab = a + b;
    assert forall|i: int| 0 <= i < ab.len() implies exists|j: int|
        0 <= j < ab.len() && (#[trigger] ab[i]).sockets.spec_rotate(Rotation::Clockwise180)
            == ab[j].sockets by {
        if i < a.len() {
            let j = choose|j: int|
                0 <= j < a.len() && a[i].sockets.spec_rotate(Rotation::Clockwise180)
                    == a[j].sockets;
            assert(ab[j] == a[j]);
        } else {
            let j = choose|j: int|
                0 <= j < b.len() && b[i - a.len()].sockets.spec_rotate(Rotation::Clockwise180) == (
                #[trigger] b[j]).sockets;
            assert(ab[a.len() + j] == b[j]);
        }
    }
}

/// The whole expanded catalogue is closed under the half turn.
#[verifier::spinoff_prover]
proof fn lemma_catalog_closed(cat: Seq<Vec<(Direction, bool)>>)
    ensures
        closed_under_half_turn(catalog_protos(cat)),
    decreases cat.len(),
{
    if cat.len() == 0 {
        assert(closed_under_half_turn(Seq::<Prototype>::empty()));
    } else {
        lemma_catalog_closed(cat.drop_last());
        crate::prototype::lemma_generated_closed(
            Prototype::base((cat.len() - 1) as usize, sockets_of(cat.last()@)),
        );
        lemma_closed_concat(
            catalog_protos(cat.drop_last()),
            Prototype::generated(Prototype::base((cat.len() - 1) as usize, sockets_of(cat.last()@))),
        );
    }
}

/// Every index in `s` points at one of the `n` prototypes.
pub open spec fn cand_bounded(n: int, s: Seq<usize>) -> bool {
    forall|k: int| 0 <= k < s.len() ==> (#[trigger] s[k]) < n
}

/// Some candidate in `src` may stand next to prototype `cand` lying in
/// direction `d` from it.
pub open spec fn supported(
    protos: Seq<Prototype>,
    src: Seq<usize>,
    cand: usize,
    d: Direction,
) -> bool {
    exists|k: int|
        0 <= k < src.len() && #[trigger] spec_matches(
            protos[src[k] as int],
            protos[cand as int],
            d,
        )
}

/// Every candidate in `tgt` is supported by some candidate in `src`.
pub open spec fn all_supported(
    protos: Seq<Prototype>,
    src: Seq<usize>,
    tgt: Seq<usize>,
    d: Direction,
) -> bool {
    forall|k: int| 0 <= k < tgt.len() ==> supported(protos, src, #[trigger] tgt[k], d)
}

/// `newc` came out of `oldc` by discarding candidates: nothing new appears
/// and the set cannot grow.
pub open spec fn shrank_cell(oldc: Seq<usize>, newc: Seq<usize>) -> bool {
    &&& newc.len() <= oldc.len()
    &&& forall|k: int| 0 <= k < newc.len() ==> oldc.contains(#[trigger] newc[k])
}

/// How many of the candidate sets are already down to exactly one entry.
pub open spec fn count_collapsed(cells: Seq<Vec<usize>>) -> int
    decreases cells.len(),
{
    if cells.len() == 0 {
        0
    } else {
        count_collapsed(cells.drop_last()) + if cells.last()@.len() == 1 {
            1int
        } else {
            0int
        }
    }
}

/// The total number of candidates over all cells.
pub open spec fn total_candidates(cells: Seq<Vec<usize>>) -> nat
    decreases cells.len(),
{
    if cells.len() == 0 {
        0
    } else {
        total_candidates(cells.drop_last()) + cells.last()@.len()
    }
}

/// A flat coordinate lies inside the flat cell array.
pub proof fn lemma_flat_index(w: int, h: int, x: int, y: int)
    by (nonlinear_arith)
    requires
        0 <= x < w,
        0 <= y < h,
    ensures
        0 <= x * h + y < w * h,
{
}

/// Distinct coordinates have distinct flat indices.
pub proof fn lemma_flat_injective(h: int, x1: int, y1: int, x2: int, y2: int)
    by (nonlinear_arith)
    requires
        0 <= y1 < h,
        0 <= y2 < h,
        0 <= x1,
        0 <= x2,
        !(x1 == x2 && y1 == y2),
    ensures
        x1 * h + y1 != x2 * h + y2,
{
}

/// The wave-function-collapse grid: a `width` x `height` array of cells,
/// each holding the indices of the prototypes that may still occupy it.
/// Cells are stored flat in column-major order: cell `(x, y)` sits at
/// `x * height + y`.
pub struct Grid {
    pub width: usize,
    pub height: usize,
    pub prototypes: Vec<Prototype>,
    pub cells: Vec<Vec<usize>>,
}

impl Grid {
    /// The candidate set of cell `(x, y)`.
    pub open spec fn cell(self, x: int, y: int) -> Seq<usize> {
        self.cells@[x * self.height + y]@
    }

    /// `(x, y)` lies inside the grid.
    pub open spec fn valid_coord(self, x: int, y: int) -> bool {
        0 <= x < self.width && 0 <= y < self.height
    }

    /// Structural well-formedness: positive extent, a cell for every
    /// coordinate, and every candidate an index into `prototypes`.
    pub open spec fn wf(self) -> bool {
        &&& self.width >= 1
        &&& self.height >= 1
        &&& self.width * self.height <= usize::MAX
        &&& self.cells@.len() == self.width * self.height
        &&& forall|idx: int|
            0 <= idx < self.cells@.len() ==> cand_bounded(
                self.prototypes@.len() as int,
                (#[trigger] self.cells@[idx])@,
            )
    }

    /// Every cell is down to exactly one candidate.
    pub open spec fn is_collapsed_spec(self) -> bool {
        forall|x: int, y: int| self.valid_coord(x, y) ==> (#[trigger] self.cell(x, y)).len() == 1
    }

    /// Some cell still holds more than one candidate.
    pub open spec fn has_undetermined(self) -> bool {
        exists|x: int, y: int| self.valid_coord(x, y) && (#[trigger] self.cell(x, y)).len() > 1
    }

    /// No cell has run out of candidates.
    pub open spec fn all_nonempty(self) -> bool {
        forall|x: int, y: int| self.valid_coord(x, y) ==> (#[trigger] self.cell(x, y)).len() >= 1
    }

    /// The neighbors of `(x, y)` that exist in the grid, each with the
    /// direction pointing from `(x, y)` toward it, in the fixed order
    /// west, east, north, south.
    pub open spec fn spec_neighbors(self, x: int, y: int) -> Seq<(usize, usize, Direction)> {
        (if x > 0 {
            seq![(((x - 1) as usize), (y as usize), Direction::West)]
        } else {
            Seq::<(usize, usize, Direction)>::empty()
        }) + (if x < self.width - 1 {
            seq![(((x + 1) as usize), (y as usize), Direction::East)]
        } else {
            Seq::<(usize, usize, Direction)>::empty()
        }) + (if y > 0 {
            seq![((x as usize), ((y - 1) as usize), Direction::North)]
        } else {
            Seq::<(usize, usize, Direction)>::empty()
        }) + (if y < self.height - 1 {
            seq![((x as usize), ((y + 1) as usize), Direction::South)]
        } else {
            Seq::<(usize, usize, Direction)>::empty()
        })
    }

    /// Every arc leaving `(x, y)` is consistent: each neighbor that is not
    /// already collapsed holds only candidates supported by the candidate
    /// set of `(x, y)`.
    pub open spec fn arc_good(self, x: int, y: int) -> bool {
        forall|t: int|
            0 <= t < self.spec_neighbors(x, y).len() ==> {
                let nb = #[trigger] self.spec_neighbors(x, y)[t];
                self.cell(nb.0 as int, nb.1 as int).len() == 1 || all_supported(
                    self.prototypes@,
                    self.cell(x, y),
                    self.cell(nb.0 as int, nb.1 as int),
                    nb.2,
                )
            }
    }

    /// The whole grid is arc-consistent (up to collapsed neighbors, which
    /// the algorithm never re-opens).
    pub open spec fn consistent(self) -> bool {
        forall|x: int, y: int| self.valid_coord(x, y) ==> #[trigger] self.arc_good(x, y)
    }

    /// Arc-consistent everywhere except possibly on the arcs leaving
    /// `(ex, ey)`.
    pub open spec fn consistent_except(self, ex: int, ey: int) -> bool {
        forall|x: int, y: int|
            self.valid_coord(x, y) && !(x == ex && y == ey) ==> #[trigger] self.arc_good(x, y)
    }

    /// Cell by cell, every candidate that `h` holds is also held by `g`.
    pub open spec fn sub_cells(h: Grid, g: Grid) -> bool {
        forall|idx: int, k: int|
            0 <= idx < h.cells@.len() && 0 <= k < h.cells@[idx]@.len() ==> g.cells@[idx]@.contains(
                #[trigger] h.cells@[idx]@[k],
            )
    }

    /// `h` is a restriction of `g`: the same extent and catalogue, and each
    /// cell of `h` holds only candidates that the same cell of `g` holds.
    pub open spec fn sub_state(h: Grid, g: Grid) -> bool {
        &&& h.width == g.width
        &&& h.height == g.height
        &&& h.prototypes == g.prototypes
        &&& h.cells@.len() == g.cells@.len()
        &&& Grid::sub_cells(h, g)
    }

    /// On every existing arc, every candidate of the target cell has a
    /// matching candidate in the source cell — with no allowance for
    /// collapsed cells. Such a state is a fixpoint of arc filtering, so
    /// propagation never removes any part of it.
    pub open spec fn fully_supported(self) -> bool {
        forall|x: int, y: int, t: int|
            self.valid_coord(x, y) && 0 <= t < self.spec_neighbors(x, y).len() ==> {
                let nb = #[trigger] self.spec_neighbors(x, y)[t];
                all_supported(
                    self.prototypes@,
                    self.cell(x, y),
                    self.cell(nb.0 as int, nb.1 as int),
                    nb.2,
                )
            }
    }

    /// The second grid came out of the first by discarding candidates only:
    /// same extent and catalogue, no candidate set grows or gains entries,
    /// and cells that were already collapsed are untouched.
    pub open spec fn shrank(g0: Grid, g1: Grid) -> bool {
        &&& g1.width == g0.width
        &&& g1.height == g0.height
        &&& g1.prototypes == g0.prototypes
        &&& g1.cells@.len() == g0.cells@.len()
        &&& forall|idx: int|
            0 <= idx < g0.cells@.len() ==> shrank_cell(
                g0.cells@[idx]@,
                (#[trigger] g1.cells@[idx])@,
            )
        &&& forall|idx: int|
            0 <= idx < g0.cells@.len() && (#[trigger] g0.cells@[idx])@.len() == 1
                ==> g1.cells@[idx]@ == g0.cells@[idx]@
    }

    /// The flat index of cell `(x, y)`.
    fn flat_index(&self, x: usize, y: usize) -> (r: usize)
        requires
            self.wf(),
            x < self.width,
            y < self.height,
        ensures
            r == x * self.height + y,
            r < self.cells@.len(),
    {
        proof {
            lemma_flat_index(self.width as int, self.height as int, x as int, y as int);
        }
        x * self.height + y
    }

    /// The number of columns of the grid.
    pub fn get_width(&self) -> (r: usize)
        ensures
            r == self.width,
    {
        self.width
    }

    /// The number of rows of the grid.
    pub fn get_height(&self) -> (r: usize)
        ensures
            r == self.height,
    {
        self.height
    }

    /// The number of prototypes in the expanded catalogue.
    pub fn prototype_count(&self) -> (r: usize)
        ensures
            r == self.prototypes@.len(),
    {
        self.prototypes.len()
    }

    /// The prototype with index `p`.
    pub fn prototype_at(&self, p: usize) -> (r: &Prototype)
        requires
            p < self.prototypes@.len(),
        ensures
            *r == self.prototypes@[p as int],
    {
        &self.prototypes[p]
    }

    /// The candidate set of cell `(x, y)`: indices into `prototypes`.
    pub fn candidates_at(&self, x: usize, y: usize) -> (r: &Vec<usize>)
        requires
            self.wf(),
            x < self.width,
            y < self.height,
        ensures
            r@ == self.cell(x as int, y as int),
    {
        let idx = self.flat_index(x, y);
        &self.cells[idx]
    }

    /// Whether every cell of the grid is down to exactly one candidate.
    pub fn is_collapsed(&self) -> (r: bool)
        requires
            self.wf(),
        ensures
            r == self.is_collapsed_spec(),
    {
        let mut x: usize = 0;
        while x < self.width
            invariant
                self.wf(),
                0 <= x <= self.width,
                forall|i: int, j: int|
                    0 <= i < x && 0 <= j < self.height ==> (#[trigger] self.cell(i, j)).len() == 1,
            decreases self.width - x,
        {
            let mut y: usize = 0;
            while y < self.height
                invariant
                    self.wf(),
                    0 <= x < self.width,
                    0 <= y <= self.height,
                    forall|i: int, j: int|
                        0 <= i < x && 0 <= j < self.height ==> (#[trigger] self.cell(i, j)).len()
                            == 1,
                    forall|j: int|
                        0 <= j < y ==> (#[trigger] self.cell(x as int, j)).len() == 1,
                decreases self.height - y,
            {
                let idx = self.flat_index(x, y);
                if self.cells[idx].len() != 1 {
                    proof {
                        assert(self.cell(x as int, y as int).len() != 1);
                    }
                    return false;
                }
                y = y + 1;
            }
            x = x + 1;
        }
        true
    }
    /// The existing neighbors of `(x, y)`, each with the direction from
    /// `(x, y)` toward it, in the fixed order west, east, north, south.
    pub fn neighbors(&self, x: usize, y: usize) -> (r: Vec<(usize, usize, Direction)>)
        requires
            self.wf(),
            x < self.width,
            y < self.height,
        ensures
            r@ == self.spec_neighbors(x as int, y as int),
    {
        let mut out: Vec<(usize, usize, Direction)> = Vec::new();
        if x != 0 {
            out.push((x - 1, y, Direction::West));
        }
        if x != self.width - 1 {
            out.push((x + 1, y, Direction::East));
        }
        if y != 0 {
            out.push((x, y - 1, Direction::North));
        }
        if y != self.height - 1 {
            out.push((x, y + 1, Direction::South));
        }
        proof {
            assert(out@ =~= self.spec_neighbors(x as int, y as int));
        }
        out
    }
}

/// The coordinates scanned strictly before reaching `(x, y)` in a
/// column-by-column sweep of a grid with `h` rows.
pub open spec fn scanned_before(x: int, y: int, i: int, j: int, h: int) -> bool {
    (0 <= i < x && 0 <= j < h) || (i == x && 0 <= j < y)
}

/// Every neighbor coordinate lies in the grid and differs from the cell
/// it neighbors.
proof fn lemma_neighbors_valid(g: Grid, x: int, y: int)
    requires
        g.valid_coord(x, y),
    ensures
        forall|t: int|
            0 <= t < g.spec_neighbors(x, y).len() ==> {
                let nb = #[trigger] g.spec_neighbors(x, y)[t];
                g.valid_coord(nb.0 as int, nb.1 as int) && !(nb.0 == x && nb.1 == y)
            },
{
}

/// Support of every element survives shrinking the target: a sub-collection
/// of a fully supported candidate set is fully supported.
proof fn lemma_all_supported_shrink(
    protos: Seq<Prototype>,
    src: Seq<usize>,
    tgt0: Seq<usize>,
    tgt1: Seq<usize>,
    d: Direction,
)
    requires
        all_supported(protos, src, tgt0, d),
        forall|k: int| 0 <= k < tgt1.len() ==> tgt0.contains(#[trigger] tgt1[k]),
    ensures
        all_supported(protos, src, tgt1, d),
{
    assert forall|k: int| 0 <= k < tgt1.len() implies supported(protos, src, tgt1[k], d) by {
        let c = tgt1[k];
        let j = choose|j: int| 0 <= j < tgt0.len() && tgt0[j] == c;
        assert(supported(protos, src, tgt0[j], d));
    }
}

/// In a fully supported restriction `h` of a grid `g`, a candidate `c` that
/// `h` holds in the cell reached by the arc `t` out of `(cx, cy)` is
/// supported by `g`'s own cell at `(cx, cy)`: `h` supplies a matching
/// candidate, and every candidate of `h` is one of `g`'s.
proof fn lemma_sub_candidate_supported(h: Grid, g: Grid, cx: int, cy: int, t: int, c: usize)
    requires
        g.wf(),
        h.width == g.width,
        h.height == g.height,
        h.prototypes == g.prototypes,
        h.cells@.len() == g.cells@.len(),
        h.fully_supported(),
        Grid::sub_cells(h, g),
        g.valid_coord(cx, cy),
        0 <= t < g.spec_neighbors(cx, cy).len(),
        ({
            let nb = g.spec_neighbors(cx, cy)[t];
            h.cell(nb.0 as int, nb.1 as int).contains(c)
        }),
    ensures
        ({
            let nb = g.spec_neighbors(cx, cy)[t];
            supported(g.prototypes@, g.cell(cx, cy), c, nb.2)
        }),
{
    let nb = g.spec_neighbors(cx, cy)[t];
    let nx = nb.0 as int;
    let ny = nb.1 as int;
    let d = nb.2;
    assert(h.spec_neighbors(cx, cy) =~= g.spec_neighbors(cx, cy));
    assert(h.spec_neighbors(cx, cy)[t] == nb);
    assert(all_supported(h.prototypes@, h.cell(cx, cy), h.cell(nx, ny), d));
    let k = choose|k: int| 0 <= k < h.cell(nx, ny).len() && h.cell(nx, ny)[k] == c;
    assert(supported(h.prototypes@, h.cell(cx, cy), h.cell(nx, ny)[k], d));
    let m = choose|m: int|
        0 <= m < h.cell(cx, cy).len() && spec_matches(
            h.prototypes@[h.cell(cx, cy)[m] as int],
            h.prototypes@[c as int],
            d,
        );
    let p = h.cell(cx, cy)[m];
    lemma_flat_index(g.width as int, g.height as int, cx, cy);
    let cidx = cx * g.height + cy;
    assert(h.cells@[cidx]@[m] == p);
    assert(g.cells@[cidx]@.contains(p));
    let m2 = choose|m2: int| 0 <= m2 < g.cell(cx, cy).len() && g.cell(cx, cy)[m2] == p;
    assert(spec_matches(
        g.prototypes@[g.cell(cx, cy)[m2] as int],
        g.prototypes@[c as int],
        d,
    ));
}

/// Arcs out of a cell stay consistent when the cell itself is unchanged and
/// every other cell only shrank (with collapsed cells untouched).
proof fn lemma_arc_good_shrink(g0: Grid, g1: Grid, x: int, y: int)
    requires
        g1.width == g0.width,
        g1.height == g0.height,
        g1.prototypes == g0.prototypes,
        g0.valid_coord(x, y),
        g0.arc_good(x, y),
        g1.cell(x, y) == g0.cell(x, y),
        forall|a: int, b: int|
            g0.valid_coord(a, b) ==> shrank_cell(#[trigger] g0.cell(a, b), g1.cell(a, b)),
        forall|a: int, b: int|
            g0.valid_coord(a, b) && (#[trigger] g0.cell(a, b)).len() == 1 ==> g1.cell(a, b)
                == g0.cell(a, b),
    ensures
        g1.arc_good(x, y),
{
    lemma_neighbors_valid(g0, x, y);
    assert(g1.spec_neighbors(x, y) == g0.spec_neighbors(x, y));
    assert forall|t: int| 0 <= t < g1.spec_neighbors(x, y).len() implies {
        let nb = #[trigger] g1.spec_neighbors(x, y)[t];
        g1.cell(nb.0 as int, nb.1 as int).len() == 1 || all_supported(
            g1.prototypes@,
            g1.cell(x, y),
            g1.cell(nb.0 as int, nb.1 as int),
            nb.2,
        )
    } by {
        let nb = g1.spec_neighbors(x, y)[t];
        let nx = nb.0 as int;
        let ny = nb.1 as int;
        if g0.cell(nx, ny).len() == 1 {
            assert(g1.cell(nx, ny) == g0.cell(nx, ny));
        } else {
            assert(all_supported(g0.prototypes@, g0.cell(x, y), g0.cell(nx, ny), nb.2));
            lemma_all_supported_shrink(
                g0.prototypes@,
                g0.cell(x, y),
                g0.cell(nx, ny),
                g1.cell(nx, ny),
                nb.2,
            );
        }
    }
}

/// Distinct positions in a neighbor list name distinct cells.
proof fn lemma_neighbors_distinct(g: Grid, x: int, y: int)
    requires
        g.valid_coord(x, y),
    ensures
        forall|s: int, t: int|
            #![trigger g.spec_neighbors(x, y)[s], g.spec_neighbors(x, y)[t]]
            0 <= s < t < g.spec_neighbors(x, y).len() ==> !(g.spec_neighbors(x, y)[s].0
                == g.spec_neighbors(x, y)[t].0 && g.spec_neighbors(x, y)[s].1 == g.spec_neighbors(
                x,
                y,
            )[t].1),
{
}

/// Discarding candidates is transitive.
proof fn lemma_shrank_cell_trans(a: Seq<usize>, b: Seq<usize>, c: Seq<usize>)
    requires
        shrank_cell(a, b),
        shrank_cell(b, c),
    ensures
        shrank_cell(a, c),
{
    assert forall|k: int| 0 <= k < c.len() implies a.contains(#[trigger] c[k]) by {
        let j = choose|j: int| 0 <= j < b.len() && b[j] == c[k];
        assert(a.contains(b[j]));
    }
}

/// Replacing one cell by a smaller one cannot raise, and strictly lowers,
/// the total number of candidates.
proof fn lemma_total_update(cells: Seq<Vec<usize>>, idx: int, v: Vec<usize>)
    requires
        0 <= idx < cells.len(),
    ensures
        v@.len() <= cells[idx]@.len() ==> total_candidates(cells.update(idx, v))
            <= total_candidates(cells),
        v@.len() < cells[idx]@.len() ==> total_candidates(cells.update(idx, v))
            < total_candidates(cells),
    decreases cells.len(),
{
    let upd = cells.update(idx, v);
    if idx == cells.len() - 1 {
        assert(upd.drop_last() =~= cells.drop_last());
        assert(upd.last() == v);
    } else {
        assert(upd.drop_last() =~= cells.drop_last().update(idx, v));
        assert(upd.last() == cells.last());
        lemma_total_update(cells.drop_last(), idx, v);
    }
}

/// Collapsed-cell counts never drop when every collapsed cell stays
/// collapsed, and rise strictly when some cell becomes collapsed anew.
proof fn lemma_count_mono(c0: Seq<Vec<usize>>, c1: Seq<Vec<usize>>)
    requires
        c1.len() == c0.len(),
        forall|k: int|
            0 <= k < c0.len() && (#[trigger] c0[k])@.len() == 1 ==> c1[k]@.len() == 1,
    ensures
        count_collapsed(c1) >= count_collapsed(c0),
    decreases c0.len(),
{
    if c0.len() > 0 {
        lemma_count_mono(c0.drop_last(), c1.drop_last());
    }
}

/// When additionally the cell at `idx` is newly collapsed, the count grows.
proof fn lemma_count_strict(c0: Seq<Vec<usize>>, c1: Seq<Vec<usize>>, idx: int)
    requires
        c1.len() == c0.len(),
        forall|k: int|
            0 <= k < c0.len() && (#[trigger] c0[k])@.len() == 1 ==> c1[k]@.len() == 1,
        0 <= idx < c0.len(),
        c0[idx]@.len() != 1,
        c1[idx]@.len() == 1,
    ensures
        count_collapsed(c1) >= count_collapsed(c0) + 1,
    decreases c0.len(),
{
    if idx == c0.len() - 1 {
        lemma_count_mono(c0.drop_last(), c1.drop_last());
    } else {
        lemma_count_strict(c0.drop_last(), c1.drop_last(), idx);
    }
}

/// The count of collapsed cells lies between zero and the number of cells.
pub proof fn lemma_count_bounds(cells: Seq<Vec<usize>>)
    ensures
        0 <= count_collapsed(cells) <= cells.len(),
    decreases cells.len(),
{
    if cells.len() > 0 {
        lemma_count_bounds(cells.drop_last());
    }
}

/// A full count means every single cell is collapsed, and conversely.
proof fn lemma_count_full(cells: Seq<Vec<usize>>)
    ensures
        count_collapsed(cells) == cells.len() ==> forall|k: int|
            0 <= k < cells.len() ==> (#[trigger] cells[k])@.len() == 1,
        (forall|k: int| 0 <= k < cells.len() ==> (#[trigger] cells[k])@.len() == 1)
            ==> count_collapsed(cells) == cells.len(),
    decreases cells.len(),
{
    if cells.len() > 0 {
        lemma_count_full(cells.drop_last());
        lemma_count_bounds(cells.drop_last());
        if count_collapsed(cells) == cells.len() {
            assert forall|k: int| 0 <= k < cells.len() implies (#[trigger] cells[k])@.len()
                == 1 by {
                if k < cells.len() - 1 {
                    assert(cells.drop_last()[k] == cells[k]);
                }
            }
        }
        if forall|k: int| 0 <= k < cells.len() ==> (#[trigger] cells[k])@.len() == 1 {
            assert(forall|k: int|
                0 <= k < cells.drop_last().len() ==> (#[trigger] cells.drop_last()[k])@.len()
                    == 1);
        }
    }
}

/// Appending a fresh element keeps a duplicate-free sequence
/// duplicate-free.
proof fn lemma_push_nodup(s: Seq<(usize, usize)>, c: (usize, usize))
    requires
        s.no_duplicates(),
        !s.contains(c),
    ensures
        s.push(c).no_duplicates(),
        s.push(c).contains(c),
{
    assert(s.push(c)[s.len() as int] == c);
    assert forall|i: int, j: int| 0 <= i < j < s.push(c).len() implies s.push(c)[i] != s.push(
        c,
    )[j] by {
        if j == s.len() {
            assert(s.push(c)[i] == s[i]);
            if s[i] == c {
                assert(s.contains(c));
            }
        }
    }
}

/// In a duplicate-free sequence the last element does not occur earlier.
proof fn lemma_nodup_last(s: Seq<(usize, usize)>)
    requires
        s.len() > 0,
        s.no_duplicates(),
    ensures
        !s.drop_last().contains(s.last()),
        s.drop_last().no_duplicates(),
{
    if s.drop_last().contains(s.last()) {
        let k = choose|k: int| 0 <= k < s.drop_last().len() && s.drop_last()[k] == s.last();
        assert(s[k] == s[s.len() - 1]);
    }
}

/// Membership survives a push.
proof fn lemma_push_preserves_contains(s: Seq<(usize, usize)>, c: (usize, usize), e: (usize, usize))
    requires
        s.contains(e),
    ensures
        s.push(c).contains(e),
{
    let k = choose|k: int| 0 <= k < s.len() && s[k] == e;
    assert(s.push(c)[k] == e);
}

/// An element other than the last survives dropping the last.
proof fn lemma_pop_contains(s: Seq<(usize, usize)>, c: (usize, usize))
    requires
        s.len() > 0,
        s.contains(c),
        c != s.last(),
    ensures
        s.drop_last().contains(c),
{
    let k = choose|k: int| 0 <= k < s.len() && s[k] == c;
    assert(s.drop_last()[k] == c);
}

/// Whether the coordinate `(x, y)` is listed in `stack`.
fn coords_contain(stack: &Vec<(usize, usize)>, x: usize, y: usize) -> (r: bool)
    ensures
        r == stack@.contains((x, y)),
{
    let mut i: usize = 0;
    while i < stack.len()
        invariant
            0 <= i <= stack@.len(),
            forall|k: int| 0 <= k < i ==> stack@[k] != (x, y),
        decreases stack@.len() - i,
    {
        let (sx, sy) = stack[i];
        if sx == x && sy == y {
            proof {
                assert(stack@[i as int] == (x, y));
            }
            return true;
        }
        i = i + 1;
    }
    false
}

/// Whether some candidate in `src` may stand next to prototype `cand`
/// lying in direction `d` from it.
fn any_match(protos: &Vec<Prototype>, src: &Vec<usize>, cand: usize, d: Direction) -> (r: bool)
    requires
        cand_bounded(protos@.len() as int, src@),
        cand < protos@.len(),
    ensures
        r == supported(protos@, src@, cand, d),
{
    let mut k: usize = 0;
    while k < src.len()
        invariant
            0 <= k <= src@.len(),
            cand_bounded(protos@.len() as int, src@),
            cand < protos@.len(),
            forall|j: int|
                0 <= j < k ==> !spec_matches(
                    protos@[#[trigger] src@[j] as int],
                    protos@[cand as int],
                    d,
                ),
        decreases src@.len() - k,
    {
        let p = src[k];
        if protos[p].matches(&protos[cand], d) {
            return true;
        }
        k = k + 1;
    }
    false
}

/// Appending one element to a sequence filters to the old filtering, plus
/// that element when it passes the predicate.
proof fn lemma_filter_snoc(s: Seq<usize>, x: usize, pred: spec_fn(usize) -> bool)
    ensures
        (s + seq![x]).filter(pred) == if pred(x) {
            s.filter(pred) + seq![x]
        } else {
            s.filter(pred)
        },
{
    reveal(Seq::filter);
    let whole = s + seq![x];
    assert(whole.drop_last() =~= s);
    assert(whole.last() == x);
    if pred(x) {
        assert(s.filter(pred).push(x) =~= s.filter(pred) + seq![x]);
    }
}

/// A filtering that keeps the whole length keeps every element, so the
/// predicate holds across the sequence.
proof fn lemma_filter_full(s: Seq<usize>, pred: spec_fn(usize) -> bool)
    requires
        s.filter(pred).len() == s.len(),
    ensures
        forall|k: int| 0 <= k < s.len() ==> pred(#[trigger] s[k]),
    decreases s.len(),
{
    reveal(Seq::filter);
    broadcast use vstd::seq_lib::group_filter_ensures;

    if s.len() > 0 {
        let sub = s.drop_last();
        if pred(s.last()) {
            assert(s.filter(pred) == sub.filter(pred).push(s.last()));
            lemma_filter_full(sub, pred);
            assert(forall|k: int|
                0 <= k < s.len() - 1 ==> #[trigger] s[k] == sub[k] && pred(s[k]));
        } else {
            assert(s.filter(pred) == sub.filter(pred));
            assert(sub.filter(pred).len() <= sub.len());
            assert(false);
        }
    }
}

/// The candidates of `tgt` that some candidate of `src` supports in
/// direction `d`, in their original order.
fn filter_cell(protos: &Vec<Prototype>, src: &Vec<usize>, tgt: &Vec<usize>, d: Direction) -> (r:
    Vec<usize>)
    requires
        cand_bounded(protos@.len() as int, src@),
        cand_bounded(protos@.len() as int, tgt@),
    ensures
        r@ == tgt@.filter(|c: usize| supported(protos@, src@, c, d)),
        shrank_cell(tgt@, r@),
        all_supported(protos@, src@, r@, d),
        cand_bounded(protos@.len() as int, r@),
        r@.len() == tgt@.len() ==> all_supported(protos@, src@, tgt@, d),
        forall|c: usize|
            tgt@.contains(c) && #[trigger] supported(protos@, src@, c, d) ==> r@.contains(c),
{
    let ghost pred = |c: usize| supported(protos@, src@, c, d);
    let mut out: Vec<usize> = Vec::new();
    let mut i: usize = 0;
    proof {
        reveal(Seq::filter);
        assert(tgt@.subrange(0, 0) =~= Seq::<usize>::empty());
        assert(Seq::<usize>::empty().filter(pred) =~= Seq::<usize>::empty());
    }
    while i < tgt.len()
        invariant
            0 <= i <= tgt@.len(),
            cand_bounded(protos@.len() as int, src@),
            cand_bounded(protos@.len() as int, tgt@),
            out@ == tgt@.subrange(0, i as int).filter(pred),
            pred == (|c: usize| supported(protos@, src@, c, d)),
            out@.len() <= i,
            forall|k: int|
                0 <= k < out@.len() ==> tgt@.contains(#[trigger] out@[k]) && out@[k]
                    < protos@.len() && supported(protos@, src@, out@[k], d),
        decreases tgt@.len() - i,
    {
        let c = tgt[i];
        proof {
            assert(tgt@.subrange(0, i + 1) =~= tgt@.subrange(0, i as int) + seq![tgt@[i as int]]);
            lemma_filter_snoc(tgt@.subrange(0, i as int), tgt@[i as int], pred);
        }
        if any_match(protos, src, c, d) {
            out.push(c);
            proof {
                assert(tgt@[i as int] == c && tgt@.contains(c));
            }
        }
        i = i + 1;
    }
    proof {
        assert(tgt@.subrange(0, tgt@.len() as int) =~= tgt@);
        if out@.len() == tgt@.len() {
            lemma_filter_full(tgt@, pred);
        }
        assert forall|c: usize|
            tgt@.contains(c) && #[trigger] supported(protos@, src@, c, d) implies out@.contains(
            c,
        ) by {
            let ci = choose|ci: int| 0 <= ci < tgt@.len() && tgt@[ci] == c;
            assert(pred(tgt@[ci]));
            tgt@.lemma_filter_contains(pred, ci);
        }
    }
    out
}

/// In a fully seeded cell, every candidate has support in every direction:
/// the half-turn partner of its profile matches it from any side.
#[verifier::spinoff_prover]
proof fn lemma_full_supported(protos: Seq<Prototype>, full: Seq<usize>, c: usize, d: Direction)
    requires
        closed_under_half_turn(protos),
        full.len() == protos.len(),
        forall|i: int| 0 <= i < full.len() ==> #[trigger] full[i] as int == i,
        (c as int) < protos.len(),
    ensures
        supported(protos, full, c, d),
{
    let j = choose|j: int|
        0 <= j < protos.len() && (#[trigger] protos[c as int]).sockets.spec_rotate(
            Rotation::Clockwise180,
        ) == protos[j].sockets;
    crate::sockets::lemma_sockets_rotate(
        protos[c as int].sockets,
        Rotation::Clockwise180,
        d.spec_opposite(),
    );
    assert(d.spec_opposite().spec_rotate(Rotation::Clockwise180) == d);
    assert(spec_matches(protos[full[j] as int], protos[c as int], d));
}

/// A grid whose every cell holds the full candidate list over a catalogue
/// closed under the half turn is arc-consistent.
#[verifier::spinoff_prover]
proof fn lemma_full_grid_consistent(g: Grid, full: Seq<usize>)
    requires
        g.wf(),
        closed_under_half_turn(g.prototypes@),
        full.len() == g.prototypes@.len(),
        forall|i: int| 0 <= i < full.len() ==> #[trigger] full[i] as int == i,
        forall|x: int, y: int| g.valid_coord(x, y) ==> #[trigger] g.cell(x, y) == full,
    ensures
        g.consistent(),
{
    assert forall|x: int, y: int| g.valid_coord(x, y) implies #[trigger] g.arc_good(x, y) by {
        lemma_neighbors_valid(g, x, y);
        assert forall|s: int| 0 <= s < g.spec_neighbors(x, y).len() implies {
            let nb = #[trigger] g.spec_neighbors(x, y)[s];
            g.cell(nb.0 as int, nb.1 as int).len() == 1 || all_supported(
                g.prototypes@,
                g.cell(x, y),
                g.cell(nb.0 as int, nb.1 as int),
                nb.2,
            )
        } by {
            let nb = g.spec_neighbors(x, y)[s];
            let d = nb.2;
            assert(g.cell(nb.0 as int, nb.1 as int) == full);
            assert(g.cell(x, y) == full);
            assert forall|m: int| 0 <= m < full.len() implies supported(
                g.prototypes@,
                full,
                #[trigger] full[m],
                d,
            ) by {
                lemma_full_supported(g.prototypes@, full, full[m], d);
            }
        }
    }
}

/// A fresh copy of a candidate list.
fn copy_candidates(v: &Vec<usize>) -> (r: Vec<usize>)
    ensures
        r@ == v@,
{
    let mut out: Vec<usize> = Vec::new();
    let mut i: usize = 0;
    while i < v.len()
        invariant
            0 <= i <= v@.len(),
            out@ == v@.subrange(0, i as int),
        decreases v@.len() - i,
    {
        out.push(v[i]);
        proof {
            assert(out@ =~= v@.subrange(0, i + 1));
        }
        i = i + 1;
    }
    proof {
        assert(v@.subrange(0, v@.len() as int) =~= v@);
    }
    out
}

impl Grid {
    /// Build a grid from a catalogue of socket listings, one per base tile.
    /// Every listing is expanded into its distinct rotated prototypes
    /// (failing when a listing leaves out a direction), and every cell is
    /// seeded with the full candidate list, so the fresh grid is
    /// arc-consistent.
    #[verifier::spinoff_prover]
    #[verifier::rlimit(100)]
    pub fn generate_grid(
        width: usize,
        height: usize,
        catalogue: &Vec<Vec<(Direction, bool)>>,
    ) -> (r: Result<Grid, WfcError>)
        requires
            width >= 1,
            height >= 1,
            width * height <= usize::MAX,
        ensures
            r is Ok <==> (forall|t: int|
                0 <= t < catalogue@.len() ==> entries_complete((#[trigger] catalogue@[t])@)),
            r is Err ==> r == Result::<Grid, WfcError>::Err(WfcError::ConfigurationError),
            r matches Ok(g) ==> {
                &&& g.wf()
                &&& g.width == width
                &&& g.height == height
                &&& g.prototypes@ == catalog_protos(catalogue@)
                &&& forall|x: int, y: int|
                    g.valid_coord(x, y) ==> #[trigger] g.cell(x, y) == Seq::new(
                        g.prototypes@.len(),
                        |k: int| k as usize,
                    )
                &&& g.consistent()
                &&& catalogue@.len() > 0 ==> g.all_nonempty()
            },
    {
        let mut prototypes: Vec<Prototype> = Vec::new();
        let mut t: usize = 0;
        proof {
            assert(catalogue@.subrange(0, 0) =~= Seq::<Vec<(Direction, bool)>>::empty());
        }
        while t < catalogue.len()
            invariant
                0 <= t <= catalogue@.len(),
                prototypes@ == catalog_protos(catalogue@.subrange(0, t as int)),
                forall|s: int| 0 <= s < t ==> entries_complete((#[trigger] catalogue@[s])@),
            decreases catalogue@.len() - t,
        {
            let entry = &catalogue[t];
            match Prototype::new(t, entry) {
                Ok(mut ps) => {
                    proof {
                        let pre = catalogue@.subrange(0, t as int);
                        let ext = catalogue@.subrange(0, t + 1);
                        assert(ext.drop_last() =~= pre);
                        assert(ext.last() == catalogue@[t as int]);
                        assert(catalog_protos(ext) == catalog_protos(pre) + ps@);
                    }
                    prototypes.append(&mut ps);
                },
                Err(e) => {
                    proof {
                        assert(!entries_complete(catalogue@[t as int]@));
                    }
                    return Err(e);
                },
            }
            t = t + 1;
        }
        proof {
            assert(catalogue@.subrange(0, catalogue@.len() as int) =~= catalogue@);
        }
        let n = prototypes.len();
        let mut full: Vec<usize> = Vec::new();
        let mut k: usize = 0;
        while k < n
            invariant
                0 <= k <= n,
                full@.len() == k,
                forall|i: int| 0 <= i < k ==> #[trigger] full@[i] == i as usize,
            decreases n - k,
        {
            full.push(k);
            k = k + 1;
        }
        proof {
            assert(full@ =~= Seq::new(n as nat, |i: int| i as usize));
        }
        let total = width * height;
        let mut cells: Vec<Vec<usize>> = Vec::new();
        let mut idx: usize = 0;
        while idx < total
            invariant
                0 <= idx <= total,
                cells@.len() == idx,
                forall|m: int| 0 <= m < idx ==> (#[trigger] cells@[m])@ == full@,
            decreases total - idx,
        {
            cells.push(copy_candidates(&full));
            idx = idx + 1;
        }
        let g = Grid { width, height, prototypes, cells };
        proof {
            assert(g.wf()) by {
                assert forall|i: int| 0 <= i < g.cells@.len() implies cand_bounded(
                    g.prototypes@.len() as int,
                    (#[trigger] g.cells@[i])@,
                ) by {
                    assert(g.cells@[i]@ == full@);
                }
            }
            assert forall|x: int, y: int| g.valid_coord(x, y) implies #[trigger] g.cell(x, y)
                == full@ by {
                lemma_flat_index(g.width as int, g.height as int, x, y);
            }
            lemma_catalog_closed(catalogue@);
            lemma_full_grid_consistent(g, full@);
            if catalogue@.len() > 0 {
                assert(catalog_protos(catalogue@).len() > 0);
                assert forall|x: int, y: int| g.valid_coord(x, y) implies (#[trigger] g.cell(
                    x,
                    y,
                )).len() >= 1 by {
                    assert(g.cell(x, y) == full@);
                }
            }
        }
        Ok(g)
    }

    /// Resolve cell `(x, y)` to the single candidate at position `choice`
    /// of its current candidate list. Every other cell is untouched, and
    /// consistency is kept everywhere except on the arcs leaving `(x, y)`.
    pub fn collapse_at_choice(&mut self, x: usize, y: usize, choice: usize)
        requires
            old(self).wf(),
            x < old(self).width,
            y < old(self).height,
            old(self).cell(x as int, y as int).len() > 1,
            choice < old(self).cell(x as int, y as int).len(),
        ensures
            final(self).wf(),
            Grid::shrank(*old(self), *final(self)),
            final(self).cell(x as int, y as int) == seq![
                old(self).cell(x as int, y as int)[choice as int],
            ],
            forall|i: int, j: int|
                old(self).valid_coord(i, j) && !(i == x && j == y) ==> final(self).cell(i, j)
                    == old(self).cell(i, j),
            old(self).consistent() ==> final(self).consistent_except(x as int, y as int),
    {
        let idx = self.flat_index(x, y);
        let chosen = self.cells[idx][choice];
        let ghost g0 = *self;
        self.cells[idx] = vec![chosen];
        proof {
            let g1 = *self;
            assert(g1.cells@ == g0.cells@.update(idx as int, g1.cells@[idx as int]));
            assert(g1.cell(x as int, y as int) =~= seq![
                g0.cell(x as int, y as int)[choice as int],
            ]);
            assert(g0.cell(x as int, y as int).contains(chosen));
            assert forall|i: int, j: int|
                g0.valid_coord(i, j) && !(i == x && j == y) implies g1.cell(i, j) == g0.cell(
                i,
                j,
            ) by {
                lemma_flat_index(g0.width as int, g0.height as int, i, j);
                lemma_flat_injective(g0.height as int, i, j, x as int, y as int);
            }
            assert forall|i: int, j: int| g0.valid_coord(i, j) implies shrank_cell(
                #[trigger] g0.cell(i, j),
                g1.cell(i, j),
            ) by {
                if i == x && j == y {
                    assert(g1.cell(i, j)[0] == chosen);
                } else {
                    assert(g1.cell(i, j) == g0.cell(i, j));
                }
            }
            assert(Grid::shrank(g0, g1)) by {
                assert forall|k: int| 0 <= k < g0.cells@.len() implies shrank_cell(
                    g0.cells@[k]@,
                    (#[trigger] g1.cells@[k])@,
                ) by {
                    if k != idx {
                        assert(g1.cells@[k] == g0.cells@[k]);
                    }
                }
            }
            if g0.consistent() {
                assert forall|i: int, j: int|
                    g1.valid_coord(i, j) && !(i == x && j == y) implies #[trigger] g1.arc_good(
                    i,
                    j,
                ) by {
                    lemma_arc_good_shrink(g0, g1, i, j);
                }
            }
        }
    }

    /// All coordinates of undetermined cells whose candidate-set size is
    /// the smallest size strictly greater than one found anywhere in the
    /// grid, in scan order (column by column): the most constrained cells,
    /// which the selection heuristic resolves first.
    pub fn min_entropy_candidates(&self) -> (r: Vec<(usize, usize)>)
        requires
            self.wf(),
            self.has_undetermined(),
        ensures
            r@.len() > 0,
            forall|k: int|
                0 <= k < r@.len() ==> self.valid_coord(
                    (#[trigger] r@[k]).0 as int,
                    r@[k].1 as int,
                ),
            forall|k: int|
                0 <= k < r@.len() ==> self.cell((#[trigger] r@[k]).0 as int, r@[k].1 as int).len()
                    == self.cell(r@[0].0 as int, r@[0].1 as int).len(),
            self.cell(r@[0].0 as int, r@[0].1 as int).len() > 1,
            forall|i: int, j: int|
                self.valid_coord(i, j) && (#[trigger] self.cell(i, j)).len() > 1 ==> self.cell(
                    i,
                    j,
                ).len() >= self.cell(r@[0].0 as int, r@[0].1 as int).len(),
            forall|i: int, j: int|
                self.valid_coord(i, j) && (#[trigger] self.cell(i, j)).len() == self.cell(
                    r@[0].0 as int,
                    r@[0].1 as int,
                ).len() ==> r@.contains(((i as usize), (j as usize))),
            r@.no_duplicates(),
            forall|k1: int, k2: int|
                #![trigger r@[k1], r@[k2]]
                0 <= k1 < k2 < r@.len() ==> scanned_before(
                    r@[k2].0 as int,
                    r@[k2].1 as int,
                    r@[k1].0 as int,
                    r@[k1].1 as int,
                    self.height as int,
                ),
    {
        let mut found = false;
        let mut m: usize = 0;
        let mut x: usize = 0;
        while x < self.width
            invariant
                self.wf(),
                0 <= x <= self.width,
                !found ==> forall|i: int, j: int|
                    scanned_before(x as int, 0, i, j, self.height as int) ==> (
                    #[trigger] self.cell(i, j)).len() <= 1,
                found ==> m > 1 && (exists|i: int, j: int|
                    scanned_before(x as int, 0, i, j, self.height as int) && (
                    #[trigger] self.cell(i, j)).len() == m),
                found ==> forall|i: int, j: int|
                    scanned_before(x as int, 0, i, j, self.height as int) && (
                    #[trigger] self.cell(i, j)).len() > 1 ==> self.cell(i, j).len() >= m,
            decreases self.width - x,
        {
            let mut y: usize = 0;
            while y < self.height
                invariant
                    self.wf(),
                    0 <= x < self.width,
                    0 <= y <= self.height,
                    !found ==> forall|i: int, j: int|
                        scanned_before(x as int, y as int, i, j, self.height as int) ==> (
                        #[trigger] self.cell(i, j)).len() <= 1,
                    found ==> m > 1 && (exists|i: int, j: int|
                        scanned_before(x as int, y as int, i, j, self.height as int) && (
                        #[trigger] self.cell(i, j)).len() == m),
                    found ==> forall|i: int, j: int|
                        scanned_before(x as int, y as int, i, j, self.height as int) && (
                        #[trigger] self.cell(i, j)).len() > 1 ==> self.cell(i, j).len() >= m,
                decreases self.height - y,
            {
                let idx = self.flat_index(x, y);
                let len = self.cells[idx].len();
                proof {
                    assert(self.cell(x as int, y as int).len() == len);
                }
                if len > 1 && (!found || len < m) {
                    m = len;
                    found = true;
                }
                y = y + 1;
            }
            x = x + 1;
        }
        proof {
            assert(found) by {
                let (i, j) = choose|i: int, j: int|
                    self.valid_coord(i, j) && (#[trigger] self.cell(i, j)).len() > 1;
                assert(scanned_before(self.width as int, 0, i, j, self.height as int));
            }
        }
        let mut out: Vec<(usize, usize)> = Vec::new();
        let mut x: usize = 0;
        while x < self.width
            invariant
                self.wf(),
                0 <= x <= self.width,
                m > 1,
                forall|k: int|
                    0 <= k < out@.len() ==> self.valid_coord(
                        (#[trigger] out@[k]).0 as int,
                        out@[k].1 as int,
                    ) && self.cell(out@[k].0 as int, out@[k].1 as int).len() == m,
                forall|i: int, j: int|
                    scanned_before(x as int, 0, i, j, self.height as int) && (
                    #[trigger] self.cell(i, j)).len() == m ==> out@.contains(
                        ((i as usize), (j as usize)),
                    ),
                out@.no_duplicates(),
                forall|k: int|
                    0 <= k < out@.len() ==> scanned_before(
                        x as int,
                        0,
                        (#[trigger] out@[k]).0 as int,
                        out@[k].1 as int,
                        self.height as int,
                    ),
                forall|k1: int, k2: int|
                    #![trigger out@[k1], out@[k2]]
                    0 <= k1 < k2 < out@.len() ==> scanned_before(
                        out@[k2].0 as int,
                        out@[k2].1 as int,
                        out@[k1].0 as int,
                        out@[k1].1 as int,
                        self.height as int,
                    ),
            decreases self.width - x,
        {
            let mut y: usize = 0;
            while y < self.height
                invariant
                    self.wf(),
                    0 <= x < self.width,
                    0 <= y <= self.height,
                    m > 1,
                    forall|k: int|
                        0 <= k < out@.len() ==> self.valid_coord(
                            (#[trigger] out@[k]).0 as int,
                            out@[k].1 as int,
                        ) && self.cell(out@[k].0 as int, out@[k].1 as int).len() == m,
                    forall|i: int, j: int|
                        scanned_before(x as int, y as int, i, j, self.height as int) && (
                        #[trigger] self.cell(i, j)).len() == m ==> out@.contains(
                            ((i as usize), (j as usize)),
                        ),
                    out@.no_duplicates(),
                    forall|k: int|
                        0 <= k < out@.len() ==> scanned_before(
                            x as int,
                            y as int,
                            (#[trigger] out@[k]).0 as int,
                            out@[k].1 as int,
                            self.height as int,
                        ),
                    forall|k1: int, k2: int|
                        #![trigger out@[k1], out@[k2]]
                        0 <= k1 < k2 < out@.len() ==> scanned_before(
                            out@[k2].0 as int,
                            out@[k2].1 as int,
                            out@[k1].0 as int,
                            out@[k1].1 as int,
                            self.height as int,
                        ),
                decreases self.height - y,
            {
                let idx = self.flat_index(x, y);
                if self.cells[idx].len() == m {
                    let ghost prev = out@;
                    proof {
                        assert(!prev.contains((x, y))) by {
                            if prev.contains((x, y)) {
                                let k = choose|k: int|
                                    0 <= k < prev.len() && prev[k] == ((x, y));
                                assert(scanned_before(
                                    x as int,
                                    y as int,
                                    x as int,
                                    y as int,
                                    self.height as int,
                                ));
                            }
                        }
                        lemma_push_nodup(prev, (x, y));
                    }
                    out.push((x, y));
                    proof {
                        assert(forall|k: int| 0 <= k < prev.len() ==> out@[k] == prev[k]);
                        assert(out@[out@.len() - 1] == ((x, y)));
                        assert forall|i: int, j: int|
                            scanned_before(x as int, y + 1, i, j, self.height as int) && (
                            #[trigger] self.cell(i, j)).len() == m implies out@.contains(
                            ((i as usize), (j as usize)),
                        ) by {
                            if i == x && j == y {
                                assert(out@[out@.len() - 1] == ((i as usize), (j as usize)));
                            } else {
                                assert(scanned_before(x as int, y as int, i, j, self.height as int));
                                assert(prev.contains(((i as usize), (j as usize))));
                                let k = choose|k: int|
                                    0 <= k < prev.len() && prev[k] == ((i as usize), (j as usize));
                                assert(out@[k] == prev[k]);
                            }
                        }
                    }
                }
                y = y + 1;
            }
            x = x + 1;
        }
        proof {
            let g = choose|i: int, j: int|
                scanned_before(self.width as int, 0, i, j, self.height as int) && (
                #[trigger] self.cell(i, j)).len() == m;
            assert(out@.contains(((g.0 as usize), (g.1 as usize))));
            assert(out@.len() > 0);
            assert(self.cell(out@[0].0 as int, out@[0].1 as int).len() == m);
        }
        out
    }

    /// One coordinate of a most constrained undetermined cell: its
    /// candidate-set size is strictly greater than one and no cell in the
    /// grid has a smaller candidate set among those still undetermined.
    /// Ties are broken uniformly at random.
    pub fn get_min_entropy_coords(&self) -> (r: (usize, usize))
        requires
            self.wf(),
            self.has_undetermined(),
        ensures
            self.valid_coord(r.0 as int, r.1 as int),
            self.cell(r.0 as int, r.1 as int).len() > 1,
            forall|i: int, j: int|
                self.valid_coord(i, j) && (#[trigger] self.cell(i, j)).len() > 1 ==> self.cell(
                    i,
                    j,
                ).len() >= self.cell(r.0 as int, r.1 as int).len(),
    {
        let cands = self.min_entropy_candidates();
        let k = random_below(cands.len());
        cands[k]
    }

    /// One full generation step, in the fixed order select, collapse,
    /// propagate: a most constrained undetermined cell is collapsed to one
    /// random candidate and the change is propagated through the grid.
    /// Candidate sets only ever shrink, the number of collapsed cells grows
    /// by at least one on success, and arc consistency is restored; so
    /// starting from any state, at most `width * height` successful steps
    /// can happen before the grid is fully collapsed. On contradiction the
    /// step fails and some cell is left without candidates.
    pub fn iterate(&mut self) -> (r: Result<Vec<(usize, usize)>, WfcError>)
        requires
            old(self).wf(),
            old(self).has_undetermined(),
            old(self).consistent(),
        ensures
            final(self).wf(),
            Grid::shrank(*old(self), *final(self)),
            r is Err ==> r == Result::<Vec<(usize, usize)>, WfcError>::Err(
                WfcError::PropagationContradiction,
            ) && !final(self).all_nonempty(),
            r is Ok ==> final(self).consistent(),
            r is Ok && old(self).all_nonempty() ==> final(self).all_nonempty(),
            r is Ok ==> count_collapsed(final(self).cells@) >= count_collapsed(old(self).cells@)
                + 1,
            r matches Ok(v) ==> v@.len() > 0 && v@.no_duplicates() && forall|k: int|
                0 <= k < v@.len() ==> final(self).valid_coord(
                    (#[trigger] v@[k]).0 as int,
                    v@[k].1 as int,
                ) && final(self).cell(v@[k].0 as int, v@[k].1 as int).len() == 1,
            r matches Ok(v) ==> forall|i: int, j: int|
                old(self).valid_coord(i, j) && (#[trigger] final(self).cell(i, j)).len() == 1
                    && old(self).cell(i, j).len() != 1 ==> v@.contains(
                    ((i as usize), (j as usize)),
                ),
    {
        let ghost g_start = *self;
        let coords = self.get_min_entropy_coords();
        let x = coords.0;
        let y = coords.1;
        self.collapse_at(x, y);
        let ghost g_mid = *self;
        let result = self.propagate(x, y);
        proof {
            lemma_shrank_transitive(g_start, g_mid, *self);
            if result is Ok {
                lemma_flat_index(g_start.width as int, g_start.height as int, x as int, y as int);
                let idx = x as int * g_start.height + y;
                assert(self.cell(x as int, y as int) == g_mid.cell(x as int, y as int));
                assert(self.cells@[idx]@.len() == 1);
                assert(g_start.cells@[idx]@.len() != 1);
                assert forall|k: int|
                    0 <= k < g_start.cells@.len() && (#[trigger] g_start.cells@[k])@.len()
                        == 1 implies self.cells@[k]@.len() == 1 by {
                    assert(g_mid.cells@[k]@ == g_start.cells@[k]@);
                    assert(self.cells@[k]@ == g_mid.cells@[k]@);
                }
                lemma_count_strict(g_start.cells@, self.cells@, idx);
                let v = result->Ok_0;
                assert(v@.contains((x, y)));
                assert(v@.len() > 0);
                assert forall|i: int, j: int|
                    g_start.valid_coord(i, j) && (#[trigger] self.cell(i, j)).len() == 1
                        && g_start.cell(i, j).len() != 1 implies v@.contains(
                    ((i as usize), (j as usize)),
                ) by {
                    if g_mid.cell(i, j).len() == 1 {
                        // only the collapsed seed became determined between
                        // the start of the step and the propagation pass
                        assert(i == x as int && j == y as int);
                    }
                }
            }
        }
        result
    }

    /// Restore arc consistency after cell `(x, y)` shrank (typically: it
    /// was just collapsed), cascading from neighbor to neighbor with a
    /// work-list: a popped cell's neighbors that are not yet collapsed are
    /// filtered down to the candidates its own set supports, and a neighbor
    /// that strictly shrank is queued in turn. Collapsed cells are never
    /// re-opened. Filtering only ever removes candidates that have lost all
    /// support: any restriction of the starting grid that is fully
    /// supported on every arc survives the pass intact, so on success the
    /// result lies between every such fixpoint and the starting grid, and
    /// failure comes only when every such fixpoint already has an empty
    /// cell — a genuine contradiction. Returns the coordinates of the cells
    /// that became collapsed during this pass, the seed included when it is
    /// collapsed.
    #[verifier::rlimit(100)]
    pub fn propagate(&mut self, x: usize, y: usize) -> (r: Result<
        Vec<(usize, usize)>,
        WfcError,
    >)
        requires
            old(self).wf(),
            x < old(self).width,
            y < old(self).height,
            old(self).consistent_except(x as int, y as int),
        ensures
            final(self).wf(),
            Grid::shrank(*old(self), *final(self)),
            r is Err ==> r == Result::<Vec<(usize, usize)>, WfcError>::Err(
                WfcError::PropagationContradiction,
            ) && !final(self).all_nonempty(),
            r is Ok ==> final(self).consistent(),
            r is Ok && old(self).all_nonempty() ==> final(self).all_nonempty(),
            r is Ok ==> forall|h: Grid|
                #[trigger] Grid::sub_state(h, *old(self)) && h.fully_supported()
                    ==> Grid::sub_cells(h, *final(self)),
            r is Err ==> forall|h: Grid|
                #[trigger] Grid::sub_state(h, *old(self)) && h.fully_supported()
                    ==> !h.all_nonempty(),
            r matches Ok(v) ==> {
                &&& v@.no_duplicates()
                &&& forall|k: int|
                    0 <= k < v@.len() ==> final(self).valid_coord(
                        (#[trigger] v@[k]).0 as int,
                        v@[k].1 as int,
                    ) && final(self).cell(v@[k].0 as int, v@[k].1 as int).len() == 1
                &&& (old(self).cell(x as int, y as int).len() == 1 ==> v@.contains((x, y)))
                &&& forall|i: int, j: int|
                    old(self).valid_coord(i, j) && (#[trigger] final(self).cell(i, j)).len() == 1
                        && old(self).cell(i, j).len() != 1 ==> v@.contains(
                        ((i as usize), (j as usize)),
                    )
                &&& forall|k: int|
                    0 <= k < v@.len() ==> (#[trigger] v@[k]) == (x, y) || old(self).cell(
                        v@[k].0 as int,
                        v@[k].1 as int,
                    ).len() != 1
            },
    {
        let ghost g0 = *old(self);
        let mut collapsed: Vec<(usize, usize)> = Vec::new();
        let mut stack: Vec<(usize, usize)> = Vec::new();
        stack.push((x, y));
        proof {
            assert(stack@ =~= seq![(x, y)]);
            assert(stack@[0] == (x, y));
            assert(stack@.contains((x, y)));
            assert forall|i: int, j: int|
                self.valid_coord(i, j) && !stack@.contains(
                    ((i as usize), (j as usize)),
                ) implies #[trigger] self.arc_good(i, j) by {
                assert(stack@[0] == (x, y));
                assert(!(i == x && j == y));
            }
        }
        while stack.len() != 0
            invariant
                g0 == *old(self),
                x < g0.width,
                y < g0.height,
                self.wf(),
                self.width == g0.width,
                self.height == g0.height,
                self.prototypes == g0.prototypes,
                Grid::shrank(g0, *self),
                g0.all_nonempty() ==> self.all_nonempty(),
                forall|k: int|
                    0 <= k < stack@.len() ==> self.valid_coord(
                        (#[trigger] stack@[k]).0 as int,
                        stack@[k].1 as int,
                    ),
                stack@.no_duplicates(),
                forall|k: int|
                    0 <= k < stack@.len() ==> (#[trigger] stack@[k]) == (x, y) || g0.cell(
                        stack@[k].0 as int,
                        stack@[k].1 as int,
                    ).len() != 1,
                forall|k: int| 0 <= k < stack@.len() ==> !collapsed@.contains(#[trigger] stack@[k]),
                collapsed@.no_duplicates(),
                forall|k: int|
                    0 <= k < collapsed@.len() ==> self.valid_coord(
                        (#[trigger] collapsed@[k]).0 as int,
                        collapsed@[k].1 as int,
                    ) && self.cell(collapsed@[k].0 as int, collapsed@[k].1 as int).len() == 1,
                forall|k: int|
                    0 <= k < collapsed@.len() ==> (#[trigger] collapsed@[k]) == (x, y) || g0.cell(
                        collapsed@[k].0 as int,
                        collapsed@[k].1 as int,
                    ).len() != 1,
                forall|i: int, j: int|
                    g0.valid_coord(i, j) && (#[trigger] self.cell(i, j)).len() == 1 && g0.cell(
                        i,
                        j,
                    ).len() != 1 ==> collapsed@.contains(((i as usize), (j as usize)))
                        || stack@.contains(((i as usize), (j as usize))),
                g0.cell(x as int, y as int).len() == 1 ==> collapsed@.contains((x, y))
                    || stack@.contains((x, y)),
                forall|i: int, j: int|
                    self.valid_coord(i, j) && !stack@.contains(((i as usize), (j as usize)))
                        ==> #[trigger] self.arc_good(i, j),
                forall|h: Grid|
                    #[trigger] Grid::sub_state(h, g0) && h.fully_supported() ==> Grid::sub_cells(
                        h,
                        *self,
                    ),
            decreases total_candidates(self.cells@), stack@.len(),
        {
            let ghost cells_head = self.cells@;
            let ghost stack_head = stack@;
            let ghost collapsed_head = collapsed@;
            let popped = stack.pop().unwrap();
            let cx = popped.0;
            let cy = popped.1;
            proof {
                assert(stack_head.last() == (cx, cy));
                assert(stack@ =~= stack_head.drop_last());
            }
            proof {
                lemma_nodup_last(stack_head);
            }
            let cidx = self.flat_index(cx, cy);
            if self.cells[cidx].len() == 1 {
                proof {
                    assert(self.cell(cx as int, cy as int).len() == 1);
                    assert(stack_head.contains((cx, cy)));
                    assert(!collapsed@.contains((cx, cy)));
                    lemma_push_nodup(collapsed@, (cx, cy));
                }
                let ghost oldc = collapsed@;
                collapsed.push((cx, cy));
                proof {
                    assert(collapsed@.last() == (cx, cy));
                    assert forall|k: int|
                        0 <= k < stack@.len() implies !collapsed@.contains(
                        #[trigger] stack@[k],
                    ) by {
                        assert(stack@[k] == stack_head[k]);
                        assert(stack_head.contains(stack_head[k]));
                        if collapsed@.contains(stack@[k]) {
                            let m = choose|m: int|
                                0 <= m < collapsed@.len() && collapsed@[m] == stack@[k];
                            if m < collapsed@.len() - 1 {
                                assert(oldc[m] == stack@[k]);
                                assert(oldc.contains(stack@[k]));
                            } else {
                                assert(stack@[k] == (cx, cy));
                            }
                        }
                    }
                }
            } else {
                proof {
                    assert(self.cell(cx as int, cy as int).len() != 1);
                }
            }
            let ghost collapsed_after = collapsed@;
            let ghost stack_after = stack@;
            proof {
                // membership lost by the pop is restored by the record, or
                // was vacuous
                assert forall|i: int, j: int|
                    g0.valid_coord(i, j) && (#[trigger] self.cell(i, j)).len() == 1 && g0.cell(
                        i,
                        j,
                    ).len() != 1 implies collapsed@.contains(((i as usize), (j as usize)))
                    || stack@.contains(((i as usize), (j as usize))) by {
                    let c = ((i as usize), (j as usize));
                    if collapsed_head.contains(c) {
                        let m = choose|m: int|
                            0 <= m < collapsed_head.len() && collapsed_head[m] == c;
                        assert(collapsed@[m] == collapsed_head[m]);
                        assert(collapsed@.contains(c));
                    } else {
                        assert(stack_head.contains(c));
                        if c == (cx, cy) {
                            assert(i == cx as int && j == cy as int);
                            assert(self.cell(cx as int, cy as int).len() == 1);
                            assert(collapsed@.contains(c));
                        } else {
                            lemma_pop_contains(stack_head, c);
                        }
                    }
                }
                if g0.cell(x as int, y as int).len() == 1 {
                    let c = (x, y);
                    lemma_flat_index(g0.width as int, g0.height as int, x as int, y as int);
                    assert(self.cell(x as int, y as int) == g0.cell(x as int, y as int));
                    if collapsed_head.contains(c) {
                        let m = choose|m: int|
                            0 <= m < collapsed_head.len() && collapsed_head[m] == c;
                        assert(collapsed@[m] == collapsed_head[m]);
                        assert(collapsed@.contains(c));
                    } else if stack_head.contains(c) && c != (cx, cy) {
                        lemma_pop_contains(stack_head, c);
                    } else {
                        assert(c == (cx, cy));
                        assert(self.cell(cx as int, cy as int).len() == 1);
                        assert(collapsed@.contains(c));
                    }
                }
                // arcs from cells settled before the pop stay settled; only
                // the popped cell's own arcs are now in question
                assert forall|i: int, j: int|
                    self.valid_coord(i, j) && !stack@.contains(((i as usize), (j as usize))) && !(
                    i == cx && j == cy) implies #[trigger] self.arc_good(i, j) by {
                    let c = ((i as usize), (j as usize));
                    if stack_head.contains(c) {
                        assert(c != (cx, cy));
                        lemma_pop_contains(stack_head, c);
                    }
                }
            }
            let nbrs = self.neighbors(cx, cy);
            proof {
                lemma_neighbors_valid(*self, cx as int, cy as int);
                lemma_neighbors_distinct(*self, cx as int, cy as int);
            }
            let mut t: usize = 0;
            while t < nbrs.len()
                invariant
                    g0 == *old(self),
                    x < g0.width,
                    y < g0.height,
                    self.wf(),
                    self.width == g0.width,
                    self.height == g0.height,
                    self.prototypes == g0.prototypes,
                    Grid::shrank(g0, *self),
                    g0.all_nonempty() ==> self.all_nonempty(),
                    cx < self.width,
                    cy < self.height,
                    cidx == cx as int * self.height + cy,
                    cidx < self.cells@.len(),
                    nbrs@ == self.spec_neighbors(cx as int, cy as int),
                    0 <= t <= nbrs@.len(),
                    !stack@.contains((cx, cy)),
                    forall|k: int|
                        0 <= k < stack@.len() ==> self.valid_coord(
                            (#[trigger] stack@[k]).0 as int,
                            stack@[k].1 as int,
                        ),
                    stack@.no_duplicates(),
                    forall|k: int|
                        0 <= k < stack@.len() ==> (#[trigger] stack@[k]) == (x, y) || g0.cell(
                            stack@[k].0 as int,
                            stack@[k].1 as int,
                        ).len() != 1,
                    forall|k: int|
                        0 <= k < stack@.len() ==> !collapsed@.contains(#[trigger] stack@[k]),
                    collapsed@.no_duplicates(),
                    forall|k: int|
                        0 <= k < collapsed@.len() ==> self.valid_coord(
                            (#[trigger] collapsed@[k]).0 as int,
                            collapsed@[k].1 as int,
                        ) && self.cell(collapsed@[k].0 as int, collapsed@[k].1 as int).len() == 1,
                    forall|k: int|
                        0 <= k < collapsed@.len() ==> (#[trigger] collapsed@[k]) == (x, y)
                            || g0.cell(collapsed@[k].0 as int, collapsed@[k].1 as int).len() != 1,
                    forall|i: int, j: int|
                        g0.valid_coord(i, j) && (#[trigger] self.cell(i, j)).len() == 1 && g0.cell(
                            i,
                            j,
                        ).len() != 1 ==> collapsed@.contains(((i as usize), (j as usize)))
                            || stack@.contains(((i as usize), (j as usize))),
                    g0.cell(x as int, y as int).len() == 1 ==> collapsed@.contains((x, y))
                        || stack@.contains((x, y)),
                    forall|i: int, j: int|
                        self.valid_coord(i, j) && !stack@.contains(((i as usize), (j as usize)))
                            && !(i == cx && j == cy) ==> #[trigger] self.arc_good(i, j),
                    forall|h: Grid|
                        #[trigger] Grid::sub_state(h, g0) && h.fully_supported()
                            ==> Grid::sub_cells(h, *self),
                    forall|s: int|
                        0 <= s < t ==> {
                            let nb = #[trigger] nbrs@[s];
                            self.cell(nb.0 as int, nb.1 as int).len() == 1 || all_supported(
                                self.prototypes@,
                                self.cell(cx as int, cy as int),
                                self.cell(nb.0 as int, nb.1 as int),
                                nb.2,
                            )
                        },
                    total_candidates(self.cells@) < total_candidates(cells_head) || (self.cells@
                        == cells_head && stack@ == stack_after && collapsed@ == collapsed_after),
                decreases nbrs@.len() - t,
            {
                let trip = nbrs[t];
                let nx = trip.0;
                let ny = trip.1;
                let d = trip.2;
                proof {
                    assert(nbrs@[t as int] == (nx, ny, d));
                    assert(self.valid_coord(nx as int, ny as int));
                    assert(!(nx == cx && ny == cy));
                }
                let nidx = self.flat_index(nx, ny);
                proof {
                    lemma_flat_injective(
                        self.height as int,
                        nx as int,
                        ny as int,
                        cx as int,
                        cy as int,
                    );
                }
                let orig_len = self.cells[nidx].len();
                if orig_len != 1 {
                    let filtered = filter_cell(&self.prototypes, &self.cells[cidx], &self.cells[nidx], d);
                    let new_len = filtered.len();
                    if new_len != orig_len {
                        let ghost g_pre = *self;
                        self.cells[nidx] = filtered;
                        proof {
                            let g_post = *self;
                            assert(g_post.cells@ == g_pre.cells@.update(
                                nidx as int,
                                g_post.cells@[nidx as int],
                            ));
                            lemma_total_update(
                                g_pre.cells@,
                                nidx as int,
                                g_post.cells@[nidx as int],
                            );
                            assert(g_post.cell(nx as int, ny as int) == g_post.cells@[nidx as int]@);
                            assert forall|i: int, j: int|
                                g_pre.valid_coord(i, j) && !(i == nx && j == ny)
                                    implies #[trigger] g_post.cell(i, j) == g_pre.cell(i, j) by {
                                lemma_flat_index(g_pre.width as int, g_pre.height as int, i, j);
                                lemma_flat_injective(g_pre.height as int, i, j, nx as int, ny as int);
                            }
                            assert(Grid::shrank(g0, g_post)) by {
                                assert forall|k: int|
                                    0 <= k < g0.cells@.len() implies shrank_cell(
                                    g0.cells@[k]@,
                                    (#[trigger] g_post.cells@[k])@,
                                ) by {
                                    if k == nidx {
                                        lemma_shrank_cell_trans(
                                            g0.cells@[k]@,
                                            g_pre.cells@[k]@,
                                            g_post.cells@[k]@,
                                        );
                                    } else {
                                        assert(g_post.cells@[k] == g_pre.cells@[k]);
                                    }
                                }
                                assert forall|k: int|
                                    0 <= k < g0.cells@.len() && (#[trigger] g0.cells@[k])@.len()
                                        == 1 implies g_post.cells@[k]@ == g0.cells@[k]@ by {
                                    if k == nidx {
                                        assert(g_pre.cells@[k]@ == g0.cells@[k]@);
                                        assert(orig_len == 1);
                                    }
                                }
                            }
                            // a fully supported restriction of the starting
                            // grid keeps all of its candidates: the filter
                            // retains everything the popped cell supports
                            assert forall|h: Grid|
                                #[trigger] Grid::sub_state(h, g0) && h.fully_supported()
                                    implies Grid::sub_cells(h, g_post) by {
                                assert(Grid::sub_cells(h, g_pre));
                                assert(h.height == g_pre.height);
                                assert forall|idx: int, k: int|
                                    0 <= idx < h.cells@.len() && 0 <= k < h.cells@[idx]@.len()
                                        implies g_post.cells@[idx]@.contains(
                                    #[trigger] h.cells@[idx]@[k],
                                ) by {
                                    let c = h.cells@[idx]@[k];
                                    assert(g_pre.cells@[idx]@.contains(c));
                                    if idx == nidx {
                                        assert(h.cell(nx as int, ny as int) == h.cells@[idx]@);
                                        assert(h.cell(nx as int, ny as int).contains(c));
                                        assert(g_pre.spec_neighbors(cx as int, cy as int)[t as int]
                                            == (nx, ny, d));
                                        lemma_sub_candidate_supported(
                                            h,
                                            g_pre,
                                            cx as int,
                                            cy as int,
                                            t as int,
                                            c,
                                        );
                                        assert(g_pre.cell(cx as int, cy as int) == g_pre.cells@[cidx as int]@);
                                        assert(supported(
                                            g_pre.prototypes@,
                                            g_pre.cells@[cidx as int]@,
                                            c,
                                            d,
                                        ));
                                        assert(g_post.cells@[nidx as int]@.contains(c));
                                    } else {
                                        assert(g_post.cells@[idx] == g_pre.cells@[idx]);
                                    }
                                }
                            }
                        }
                        if new_len == 0 {
                            proof {
                                assert(self.cell(nx as int, ny as int).len() == 0);
                                assert(!self.all_nonempty());
                                // every fully supported restriction sits
                                // inside the emptied cell, so it is empty
                                // there too: the contradiction is genuine
                                assert forall|h: Grid|
                                    #[trigger] Grid::sub_state(h, *old(self))
                                        && h.fully_supported() implies !h.all_nonempty() by {
                                    assert(Grid::sub_state(h, g0));
                                    assert(Grid::sub_cells(h, *self));
                                    assert(h.cells@[nidx as int]@.len() == 0) by {
                                        if h.cells@[nidx as int]@.len() > 0 {
                                            assert(self.cells@[nidx as int]@.contains(
                                                h.cells@[nidx as int]@[0],
                                            ));
                                        }
                                    }
                                    assert(h.cell(nx as int, ny as int).len() == 0);
                                    assert(h.valid_coord(nx as int, ny as int));
                                    if h.all_nonempty() {
                                        assert(h.cell(nx as int, ny as int).len() >= 1);
                                    }
                                }
                            }
                            return Err(WfcError::PropagationContradiction);
                        }
                        proof {
                            assert(!collapsed@.contains((nx, ny))) by {
                                if collapsed@.contains((nx, ny)) {
                                    let k = choose|k: int|
                                        0 <= k < collapsed@.len() && collapsed@[k] == ((nx, ny));
                                    assert(g_pre.cell(nx as int, ny as int).len() == 1);
                                }
                            }
                        }
                        let ghost stack_pre = stack@;
                        if !coords_contain(&stack, nx, ny) {
                            proof {
                                lemma_push_nodup(stack@, (nx, ny));
                            }
                            stack.push((nx, ny));
                        }
                        proof {
                            let g_post = *self;
                            assert(stack@.contains((nx, ny)));
                            assert(g0.cell(nx as int, ny as int).len() != 1) by {
                                if g0.cell(nx as int, ny as int).len() == 1 {
                                    assert(g_pre.cell(nx as int, ny as int) == g0.cell(
                                        nx as int,
                                        ny as int,
                                    ));
                                }
                            }
                            // arcs from every settled cell other than the
                            // shrunken neighbor survive the commit
                            assert forall|i: int, j: int|
                                g_post.valid_coord(i, j) && !stack@.contains(
                                    ((i as usize), (j as usize)),
                                ) && !(i == cx && j == cy) implies #[trigger] g_post.arc_good(
                                i,
                                j,
                            ) by {
                                let c = ((i as usize), (j as usize));
                                assert(!(i == nx && j == ny));
                                assert(!stack_pre.contains(c)) by {
                                    if stack_pre.contains(c) {
                                        let k = choose|k: int|
                                            0 <= k < stack_pre.len() && stack_pre[k] == c;
                                        assert(stack@[k] == stack_pre[k]);
                                        assert(stack@.contains(c));
                                    }
                                }
                                assert(g_pre.arc_good(i, j));
                                lemma_arc_good_shrink(g_pre, g_post, i, j);
                            }
                            // a cell newly down to one candidate is the
                            // committed neighbor, which sits on the stack;
                            // every other recorded membership carries over
                            assert forall|i: int, j: int|
                                g0.valid_coord(i, j) && (#[trigger] g_post.cell(i, j)).len() == 1
                                    && g0.cell(i, j).len() != 1 implies collapsed@.contains(
                                ((i as usize), (j as usize)),
                            ) || stack@.contains(((i as usize), (j as usize))) by {
                                let c = ((i as usize), (j as usize));
                                if i == nx as int && j == ny as int {
                                    assert(stack@.contains(c));
                                } else {
                                    assert(g_post.cell(i, j) == g_pre.cell(i, j));
                                    if stack_pre.contains(c) {
                                        lemma_push_preserves_contains(stack_pre, (nx, ny), c);
                                        assert(stack@.contains(c) || stack@ == stack_pre);
                                    }
                                }
                            }
                            if g0.cell(x as int, y as int).len() == 1 {
                                let c = (x, y);
                                if stack_pre.contains(c) {
                                    lemma_push_preserves_contains(stack_pre, (nx, ny), c);
                                    assert(stack@.contains(c) || stack@ == stack_pre);
                                }
                            }
                            // arcs already settled from the popped cell
                            // survive too: the neighbor cells are pairwise
                            // distinct and the popped cell is unchanged
                            assert forall|s: int| 0 <= s < t + 1 implies {
                                let nb = #[trigger] nbrs@[s];
                                g_post.cell(nb.0 as int, nb.1 as int).len() == 1 || all_supported(
                                    g_post.prototypes@,
                                    g_post.cell(cx as int, cy as int),
                                    g_post.cell(nb.0 as int, nb.1 as int),
                                    nb.2,
                                )
                            } by {
                                let nb = nbrs@[s];
                                if s < t {
                                    assert(!(nb.0 == nx && nb.1 == ny));
                                    assert(g_post.cell(nb.0 as int, nb.1 as int) == g_pre.cell(
                                        nb.0 as int,
                                        nb.1 as int,
                                    ));
                                    assert(g_post.cell(cx as int, cy as int) == g_pre.cell(
                                        cx as int,
                                        cy as int,
                                    ));
                                } else {
                                    assert(nb == (nx, ny, d));
                                    assert(all_supported(
                                        g_post.prototypes@,
                                        g_post.cell(cx as int, cy as int),
                                        g_post.cell(nx as int, ny as int),
                                        d,
                                    ));
                                }
                            }
                        }
                    } else {
                        proof {
                            assert(all_supported(
                                self.prototypes@,
                                self.cell(cx as int, cy as int),
                                self.cell(nx as int, ny as int),
                                d,
                            ));
                        }
                    }
                }
                t = t + 1;
            }
            proof {
                assert(self.arc_good(cx as int, cy as int)) by {
                    assert(forall|s: int|
                        0 <= s < self.spec_neighbors(cx as int, cy as int).len() ==> {
                            let nb = #[trigger] nbrs@[s];
                            self.cell(nb.0 as int, nb.1 as int).len() == 1 || all_supported(
                                self.prototypes@,
                                self.cell(cx as int, cy as int),
                                self.cell(nb.0 as int, nb.1 as int),
                                nb.2,
                            )
                        });
                }
            }
        }
        proof {
            assert forall|i: int, j: int| self.valid_coord(i, j) implies #[trigger] self.arc_good(
                i,
                j,
            ) by {
                assert(!stack@.contains(((i as usize), (j as usize))));
            }
            assert forall|h: Grid|
                #[trigger] Grid::sub_state(h, *old(self)) && h.fully_supported()
                    implies Grid::sub_cells(h, *self) by {
                assert(Grid::sub_state(h, g0));
            }
        }
        Ok(collapsed)
    }

    /// Resolve cell `(x, y)` to one of its current candidates, chosen
    /// uniformly at random.
    pub fn collapse_at(&mut self, x: usize, y: usize)
        requires
            old(self).wf(),
            x < old(self).width,
            y < old(self).height,
            old(self).cell(x as int, y as int).len() > 1,
        ensures
            final(self).wf(),
            Grid::shrank(*old(self), *final(self)),
            final(self).cell(x as int, y as int).len() == 1,
            exists|k: int|
                0 <= k < old(self).cell(x as int, y as int).len() && final(self).cell(
                    x as int,
                    y as int,
                ) == seq![old(self).cell(x as int, y as int)[k]],
            forall|i: int, j: int|
                old(self).valid_coord(i, j) && !(i == x && j == y) ==> final(self).cell(i, j)
                    == old(self).cell(i, j),
            old(self).consistent() ==> final(self).consistent_except(x as int, y as int),
    {
        let idx = self.flat_index(x, y);
        let n = self.cells[idx].len();
        let choice = random_below(n);
        self.collapse_at_choice(x, y, choice);
    }
}

/// Discarding candidates composes: across any sequence of collapse and
/// propagation steps, no candidate set ever grows or gains an entry, and a
/// collapsed cell stays exactly as it is.
pub proof fn lemma_shrank_transitive(a: Grid, b: Grid, c: Grid)
    requires
        Grid::shrank(a, b),
        Grid::shrank(b, c),
    ensures
        Grid::shrank(a, c),
{
    assert forall|idx: int| 0 <= idx < a.cells@.len() implies shrank_cell(
        a.cells@[idx]@,
        (#[trigger] c.cells@[idx])@,
    ) by {
        lemma_shrank_cell_trans(a.cells@[idx]@, b.cells@[idx]@, c.cells@[idx]@);
    }
}

/// Discarding candidates is reflexive: a grid is a shrunken form of itself.
proof fn lemma_shrank_reflexive(g: Grid)
    ensures
        Grid::shrank(g, g),
{
    assert forall|idx: int| 0 <= idx < g.cells@.len() implies shrank_cell(
        g.cells@[idx]@,
        (#[trigger] g.cells@[idx])@,
    ) by {
        let c = g.cells@[idx]@;
        assert forall|k: int| 0 <= k < c.len() implies c.contains(#[trigger] c[k]) by {
            assert(c[k] == c[k]);
        }
    }
}

/// Monotonicity across any sequence of steps: along a run of grids in which
/// each step only discards candidates — as every `collapse_at`, `propagate`
/// and `iterate` call ensures through `Grid::shrank` — no candidate set
/// ever grows from the first grid to the last, and a cell once collapsed
/// stays exactly as it is.
pub proof fn lemma_run_monotone(run: Seq<Grid>)
    requires
        run.len() > 0,
        forall|i: int| 0 <= i < run.len() - 1 ==> Grid::shrank(#[trigger] run[i], run[i + 1]),
    ensures
        Grid::shrank(run[0], run.last()),
    decreases run.len(),
{
    if run.len() == 1 {
        lemma_shrank_reflexive(run[0]);
    } else {
        let front = run.drop_last();
        assert forall|i: int| 0 <= i < front.len() - 1 implies Grid::shrank(
            #[trigger] front[i],
            front[i + 1],
        ) by {
            assert(front[i] == run[i] && front[i + 1] == run[i + 1]);
        }
        lemma_run_monotone(front);
        assert(Grid::shrank(run[run.len() - 2], run[run.len() - 1]));
        lemma_shrank_transitive(run[0], run[run.len() - 2], run.last());
    }
}

/// Termination bound across any run of successful steps: when each step
/// only discards candidates and leaves strictly more collapsed cells — as
/// every `Ok`-returning `iterate` call ensures — the collapsed-cell count
/// grows by the length of the run, and since it never exceeds
/// `width * height`, no such run holds more than `width * height` steps:
/// repeated stepping reaches a fully collapsed grid within `width * height`
/// successful calls.
pub proof fn lemma_run_terminates(run: Seq<Grid>)
    requires
        run.len() > 0,
        run[0].wf(),
        forall|i: int| 0 <= i < run.len() - 1 ==> Grid::shrank(#[trigger] run[i], run[i + 1]),
        forall|i: int|
            0 <= i < run.len() - 1 ==> count_collapsed((#[trigger] run[i + 1]).cells@)
                >= count_collapsed(run[i].cells@) + 1,
    ensures
        count_collapsed(run.last().cells@) >= count_collapsed(run[0].cells@) + run.len() - 1,
        run.len() <= run[0].width * run[0].height + 1,
    decreases run.len(),
{
    lemma_count_bounds(run[0].cells@);
    if run.len() == 1 {
        assert(run[0].width * run[0].height >= 0) by (nonlinear_arith)
            requires
                run[0].width >= 1,
                run[0].height >= 1,
        ;
    } else {
        let front = run.drop_last();
        assert forall|i: int| 0 <= i < front.len() - 1 implies Grid::shrank(
            #[trigger] front[i],
            front[i + 1],
        ) && count_collapsed(front[i + 1].cells@) >= count_collapsed(front[i].cells@) + 1 by {
            assert(front[i] == run[i] && front[i + 1] == run[i + 1]);
        }
        lemma_run_terminates(front);
        assert(front.last() == run[run.len() - 2]);
        assert(count_collapsed(run.last().cells@) >= count_collapsed(run[run.len() - 2].cells@)
            + 1);
        lemma_run_monotone(run);
        lemma_count_bounds(run.last().cells@);
        assert(run.last().cells@.len() == run[0].width * run[0].height);
    }
}

/// A grid stands fully collapsed exactly when its collapsed-cell count has
/// reached the number of cells; with the strict growth of that count on
/// every successful step, a finite grid is fully collapsed after at most
/// `width * height` successful steps.
pub proof fn lemma_count_collapsed_complete(g: Grid)
    requires
        g.wf(),
    ensures
        0 <= count_collapsed(g.cells@) <= g.width * g.height,
        count_collapsed(g.cells@) == g.width * g.height ==> g.is_collapsed_spec(),
        g.is_collapsed_spec() ==> count_collapsed(g.cells@) == g.width * g.height,
{
    lemma_count_bounds(g.cells@);
    lemma_count_full(g.cells@);
    if count_collapsed(g.cells@) == g.width * g.height {
        assert forall|x: int, y: int| g.valid_coord(x, y) implies (#[trigger] g.cell(x, y)).len()
            == 1 by {
            lemma_flat_index(g.width as int, g.height as int, x, y);
        }
    }
    if g.is_collapsed_spec() {
        assert forall|k: int| 0 <= k < g.cells@.len() implies (#[trigger] g.cells@[k])@.len()
            == 1 by {
            let h = g.height as int;
            let x = k / h;
            let y = k % h;
            vstd::arithmetic::div_mod::lemma_fundamental_div_mod(k, h);
            assert(0 <= y < h) by {
                vstd::arithmetic::div_mod::lemma_mod_bound(k, h);
            }
            assert(k == h * x + y);
            assert(0 <= x < g.width) by (nonlinear_arith)
                requires
                    k == h * x + y,
                    0 <= y < h,
                    0 <= k < g.width * h,
            ;
            assert(g.cell(x, y).len() == 1);
            assert(x * h + y == k) by (nonlinear_arith)
                requires
                    k == h * x + y,
            ;
        }
    }
}

} // verus!

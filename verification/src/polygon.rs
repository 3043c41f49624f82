//! Closed polygons: outline and scan-line fill.
//!
//! A polygon is drawn from its corners on the pixel grid and from the places
//! where its edges meet each scan line. The outline joins consecutive corners
//! by lines, the last corner back to the first. The fill walks the scan lines
//! from the lowest corner to the highest, sorts the places where edges
//! straddle the line, and paints the spans between them in pairs.

use vstd::prelude::*;
use crate::framebuffer::{lemma_paint_nothing, lemma_paint_twice, Framebuffer};
use vstd::seq_lib::to_multiset_build;
use crate::line_impl::{cell, lemma_line_in_box, line_pixel, line_pixels, line_steps, Line};

verus! {

/// `s` with `v` put in behind the last element that is not greater.
pub open spec fn insert_sorted(s: Seq<isize>, v: isize) -> Seq<isize>
    decreases s.len(),
{
    if s.len() == 0 {
        seq![v]
    } else if s.last() <= v {
        s.push(v)
    } else {
        insert_sorted(s.drop_last(), v).push(s.last())
    }
}

/// The elements of `s` in ascending order.
pub open spec fn ascending(s: Seq<isize>) -> Seq<isize>
    decreases s.len(),
{
    if s.len() == 0 {
        s
    } else {
        insert_sorted(ascending(s.drop_last()), s.last())
    }
}

/// No element of `s` is greater than a later one.
pub open spec fn is_ascending(s: Seq<isize>) -> bool {
    forall|i: int, j: int| 0 <= i <= j < s.len() ==> s[i] <= s[j]
}

/// Inserting into an ascending sequence keeps it ascending and adds exactly
/// the new element.
pub proof fn lemma_insert_sorted(s: Seq<isize>, v: isize)
    requires
        is_ascending(s),
    ensures
        is_ascending(insert_sorted(s, v)),
        insert_sorted(s, v).len() == s.len() + 1,
        insert_sorted(s, v).to_multiset() == s.to_multiset().insert(v),
    decreases s.len(),
{
    broadcast use vstd::multiset::group_multiset_axioms;

    to_multiset_build(s, v);
    if s.len() == 0 {
        assert(insert_sorted(s, v) =~= s.push(v));
    } else if s.last() > v {
        let head = s.drop_last();
        lemma_insert_sorted(head, v);
        let grown = insert_sorted(head, v);
        to_multiset_build(grown, s.last());
        to_multiset_build(head, s.last());
        assert(head.push(s.last()) =~= s);
        assert(head.to_multiset().insert(v).insert(s.last()) =~= head.to_multiset().insert(
            s.last(),
        ).insert(v));
        // Every element of `grown` is `v` or an element of `head`, so none
        // exceeds the last element of `s`.
        assert forall|i: int| 0 <= i < grown.len() implies grown[i] <= s.last() by {
            assert(grown.to_multiset().count(grown[i]) > 0) by {
                vstd::seq_lib::to_multiset_contains(grown, grown[i]);
            }
            if grown[i] != v {
                assert(head.to_multiset().count(grown[i]) > 0);
                vstd::seq_lib::to_multiset_contains(head, grown[i]);
                let at = choose|at: int| 0 <= at < head.len() && head[at] == grown[i];
                assert(s[at] == grown[i]);
            }
        }
    }
}

/// `ascending(s)` holds the elements of `s`, each as often as `s` does, in
/// ascending order.
pub proof fn lemma_ascending(s: Seq<isize>)
    ensures
        is_ascending(ascending(s)),
        ascending(s).len() == s.len(),
        ascending(s).to_multiset() == s.to_multiset(),
    decreases s.len(),
{
    if s.len() > 0 {
        lemma_ascending(s.drop_last());
        lemma_insert_sorted(ascending(s.drop_last()), s.last());
        to_multiset_build(s.drop_last(), s.last());
        assert(s.drop_last().push(s.last()) =~= s);
    }
}

/// The smallest second coordinate among `corners`; 0 if there are none.
pub open spec fn lowest(corners: Seq<(isize, isize)>) -> int
    decreases corners.len(),
{
    if corners.len() == 0 {
        0
    } else if corners.len() == 1 {
        corners[0].1 as int
    } else {
        let rest = lowest(corners.drop_last());
        if corners.last().1 < rest {
            corners.last().1 as int
        } else {
            rest
        }
    }
}

/// The largest second coordinate among `corners`; 0 if there are none.
pub open spec fn highest(corners: Seq<(isize, isize)>) -> int
    decreases corners.len(),
{
    if corners.len() == 0 {
        0
    } else if corners.len() == 1 {
        corners[0].1 as int
    } else {
        let rest = highest(corners.drop_last());
        if corners.last().1 > rest {
            corners.last().1 as int
        } else {
            rest
        }
    }
}

/// The cells of row `y` from column `x1` to column `x2`, both included.
pub open spec fn span_cells(y: int, x1: int, x2: int) -> Set<(int, int)> {
    Set::new(|c: (int, int)| c.1 == y && x1 <= c.0 <= x2)
}

/// `x` lies in one of the first `pairs` spans of `sorted`, where the spans
/// run from each element of even index to its successor.
pub open spec fn covered(sorted: Seq<isize>, pairs: int, x: int) -> bool {
    exists|p: int| 0 <= p < pairs && #[trigger] sorted[2 * p] <= x <= sorted[2 * p + 1]
}

/// The cells of row `y` in the first `pairs` spans of `sorted`.
pub open spec fn row_cells(y: int, sorted: Seq<isize>, pairs: int) -> Set<(int, int)> {
    Set::new(|c: (int, int)| c.1 == y && covered(sorted, pairs, c.0))
}

/// The corner after corner `i` of `n`, the first one following the last.
pub open spec fn next_corner(i: int, n: int) -> int {
    if i + 1 == n {
        0
    } else {
        i + 1
    }
}

/// The cells of the edge that leaves corner `i`.
pub open spec fn edge_pixels(corners: Seq<(isize, isize)>, i: int) -> Set<(int, int)> {
    line_pixels(cell(corners[i]), cell(corners[next_corner(i, corners.len() as int)]))
}

/// The cells of the edges that leave the first `edges` corners.
pub open spec fn outline_edges(corners: Seq<(isize, isize)>, edges: int) -> Set<(int, int)> {
    Set::new(
        |c: (int, int)| exists|i: int| 0 <= i < edges && #[trigger] edge_pixels(corners, i).contains(c),
    )
}

/// The cells of the closed outline through `corners`.
pub open spec fn outline_pixels(corners: Seq<(isize, isize)>) -> Set<(int, int)> {
    outline_edges(corners, corners.len() as int)
}

/// The rows of a table as sequences.
pub open spec fn rows_of(table: Seq<Vec<isize>>) -> Seq<Seq<isize>> {
    Seq::new(table.len(), |k: int| table[k]@)
}

/// What a polygon is to the rasterizer: its corners on the pixel grid, in
/// order, and for each scan line from the lowest corner to the highest a row
/// that holds, for each edge, the column where that edge meets the line.
/// Edge `i` runs from corner `i` to the next corner. Only the entries of
/// edges that straddle a scan line are ever read.
pub struct PolygonView {
    pub corners: Seq<(isize, isize)>,
    pub intercepts: Seq<Seq<isize>>,
}

impl PolygonView {
    /// There is one row per scan line and one entry per edge in each row.
    pub open spec fn wf(self) -> bool {
        if self.corners.len() == 0 {
            self.intercepts.len() == 0
        } else {
            &&& self.intercepts.len() == highest(self.corners) - lowest(self.corners) + 1
            &&& forall|k: int|
                0 <= k < self.intercepts.len() ==> (#[trigger] self.intercepts[k]).len()
                    == self.corners.len()
        }
    }

    /// Edge `i` straddles scan line `y`: one of its ends is on or above the
    /// line (`<= y`) and the other strictly below it (`> y`).
    pub open spec fn straddles(self, i: int, y: int) -> bool {
        let y1 = self.corners[i].1;
        let y2 = self.corners[next_corner(i, self.corners.len() as int)].1;
        (y1 <= y && y2 > y) || (y2 <= y && y1 > y)
    }

    /// The intercepts on row `k` of those among the first `edges` edges that
    /// straddle its scan line, in edge order.
    pub open spec fn crossings(self, k: int, edges: int) -> Seq<isize>
        decreases edges,
    {
        if edges <= 0 {
            Seq::empty()
        } else {
            let before = self.crossings(k, edges - 1);
            if self.straddles(edges - 1, lowest(self.corners) + k) {
                before.push(self.intercepts[k][edges - 1])
            } else {
                before
            }
        }
    }

    /// The sorted intercepts of row `k`: the spans to fill run from each
    /// element of even index to its successor, and a last element without a
    /// successor is dropped.
    pub open spec fn row_spans(self, k: int) -> Seq<isize> {
        ascending(self.crossings(k, self.corners.len() as int))
    }

    /// The cells that the fill paints on the first `rows` scan lines.
    pub open spec fn fill_rows(self, rows: int) -> Set<(int, int)> {
        Set::new(
            |c: (int, int)|
                {
                    let k = c.1 - lowest(self.corners);
                    0 <= k < rows && covered(
                        self.row_spans(k),
                        self.row_spans(k).len() as int / 2,
                        c.0,
                    )
                },
        )
    }

    /// The cells that the fill paints.
    pub open spec fn fill_pixels(self) -> Set<(int, int)> {
        self.fill_rows(self.intercepts.len() as int)
    }

    /// The cells that drawing the polygon paints: outline and fill, or
    /// nothing for fewer than three corners.
    pub open spec fn pixels(self) -> Set<(int, int)> {
        if self.corners.len() < 3 {
            Set::empty()
        } else {
            outline_pixels(self.corners).union(self.fill_pixels())
        }
    }
}

/// `lowest` and `highest` bound the second coordinate of every corner, and
/// each is the second coordinate of some corner.
pub proof fn lemma_scan_range(corners: Seq<(isize, isize)>)
    requires
        corners.len() > 0,
    ensures
        forall|i: int|
            0 <= i < corners.len() ==> lowest(corners) <= (#[trigger] corners[i]).1 <= highest(
                corners,
            ),
        exists|i: int| 0 <= i < corners.len() && (#[trigger] corners[i]).1 == lowest(corners),
        exists|i: int| 0 <= i < corners.len() && (#[trigger] corners[i]).1 == highest(corners),
    decreases corners.len(),
{
    if corners.len() == 1 {
        assert(corners[0].1 == lowest(corners));
        assert(corners[0].1 == highest(corners));
    } else {
        let head = corners.drop_last();
        let n = corners.len() - 1;
        lemma_scan_range(head);
        assert forall|i: int| 0 <= i < corners.len() implies lowest(corners) <= (
        #[trigger] corners[i]).1 <= highest(corners) by {
            if i < n {
                assert(head[i] == corners[i]);
            }
        }
        let at_low = choose|i: int| 0 <= i < head.len() && (#[trigger] head[i]).1 == lowest(head);
        let at_high = choose|i: int| 0 <= i < head.len() && (#[trigger] head[i]).1 == highest(head);
        assert(corners[at_low] == head[at_low] && corners[at_high] == head[at_high]);
        if corners.last().1 < lowest(head) {
            assert(corners[n].1 == lowest(corners));
        } else {
            assert(corners[at_low].1 == lowest(corners));
        }
        if corners.last().1 > highest(head) {
            assert(corners[n].1 == highest(corners));
        } else {
            assert(corners[at_high].1 == highest(corners));
        }
    }
}

/// Drawing a polygon touches no scan line below its lowest corner or above
/// its highest.
pub proof fn lemma_polygon_rows(v: PolygonView, c: (int, int))
    requires
        v.wf(),
        v.pixels().contains(c),
    ensures
        lowest(v.corners) <= c.1 <= highest(v.corners),
{
    let n = v.corners.len() as int;
    lemma_scan_range(v.corners);
    if outline_pixels(v.corners).contains(c) {
        let i = choose|i: int| 0 <= i < n && #[trigger] edge_pixels(v.corners, i).contains(c);
        let from = cell(v.corners[i]);
        let to = cell(v.corners[next_corner(i, n)]);
        let k = choose|k: int|
            0 <= k < line_steps(from, to) + 1 && #[trigger] line_pixel(from, to, k) == c;
        lemma_line_in_box(from, to, k);
    }
}

/// One more pair of sorted intercepts adds one span to a row.
proof fn lemma_row_cells_step(y: int, sorted: Seq<isize>, pairs: int)
    requires
        0 <= pairs,
    ensures
        row_cells(y, sorted, pairs + 1) == row_cells(y, sorted, pairs).union(
            span_cells(y, sorted[2 * pairs] as int, sorted[2 * pairs + 1] as int),
        ),
        row_cells(y, sorted, 0) == Set::<(int, int)>::empty(),
{
    let more = row_cells(y, sorted, pairs + 1);
    let fewer = row_cells(y, sorted, pairs);
    let span = span_cells(y, sorted[2 * pairs] as int, sorted[2 * pairs + 1] as int);
    assert forall|c: (int, int)| more.contains(c) <==> fewer.union(span).contains(c) by {
        if more.contains(c) {
            let p = choose|p: int|
                0 <= p < pairs + 1 && #[trigger] sorted[2 * p] <= c.0 <= sorted[2 * p + 1];
            if p < pairs {
                assert(fewer.contains(c));
            }
        }
        if fewer.contains(c) {
            let p = choose|p: int| 0 <= p < pairs && #[trigger] sorted[2 * p] <= c.0 <= sorted[2 * p + 1];
            assert(0 <= p < pairs + 1 && sorted[2 * p] <= c.0 <= sorted[2 * p + 1]);
        }
        if span.contains(c) {
            assert(0 <= pairs < pairs + 1 && sorted[2 * pairs] <= c.0 <= sorted[2 * pairs + 1]);
        }
    }
    assert(more =~= fewer.union(span));
    assert(row_cells(y, sorted, 0) =~= Set::<(int, int)>::empty());
}

/// One more scan line adds the spans of its row to the fill.
proof fn lemma_fill_rows_step(v: PolygonView, k: int)
    requires
        0 <= k,
    ensures
        v.fill_rows(k + 1) == v.fill_rows(k).union(
            row_cells(lowest(v.corners) + k, v.row_spans(k), v.row_spans(k).len() as int / 2),
        ),
        v.fill_rows(0) == Set::<(int, int)>::empty(),
{
    assert(v.fill_rows(k + 1) =~= v.fill_rows(k).union(
        row_cells(lowest(v.corners) + k, v.row_spans(k), v.row_spans(k).len() as int / 2),
    ));
    assert(v.fill_rows(0) =~= Set::<(int, int)>::empty());
}

/// One more edge adds its line to the outline.
proof fn lemma_outline_edges_step(corners: Seq<(isize, isize)>, edges: int)
    requires
        0 <= edges,
    ensures
        outline_edges(corners, edges + 1) == outline_edges(corners, edges).union(
            edge_pixels(corners, edges),
        ),
        outline_edges(corners, 0) == Set::<(int, int)>::empty(),
{
    let more = outline_edges(corners, edges + 1);
    let fewer = outline_edges(corners, edges);
    let last = edge_pixels(corners, edges);
    assert forall|c: (int, int)| more.contains(c) <==> fewer.union(last).contains(c) by {
        if more.contains(c) {
            let i = choose|i: int| 0 <= i < edges + 1 && #[trigger] edge_pixels(corners, i).contains(c);
            if i < edges {
                assert(fewer.contains(c));
            }
        }
        if fewer.contains(c) {
            let i = choose|i: int| 0 <= i < edges && #[trigger] edge_pixels(corners, i).contains(c);
            assert(0 <= i < edges + 1 && edge_pixels(corners, i).contains(c));
        }
        if last.contains(c) {
            assert(0 <= edges < edges + 1 && edge_pixels(corners, edges).contains(c));
        }
    }
    assert(more =~= fewer.union(last));
    assert(outline_edges(corners, 0) =~= Set::<(int, int)>::empty());
}

/// Sorts `xs` in place, ascending.
pub fn sort_ascending(xs: &mut Vec<isize>)
    ensures
        final(xs)@ == ascending(old(xs)@),
{
    let n = xs.len();
    let mut i: usize = 0;
    while i < n
        invariant
            i <= n,
            n == xs@.len(),
            n == old(xs)@.len(),
            xs@.take(i as int) == ascending(old(xs)@.take(i as int)),
            xs@.skip(i as int) == old(xs)@.skip(i as int),
        decreases n - i,
    {
        let v = xs[i];
        let ghost done = xs@.take(i as int);
        let ghost rest = xs@.skip(i as int + 1);
        assert(v == old(xs)@.skip(i as int)[0]);
        assert(rest =~= old(xs)@.skip(i + 1)) by {
            assert forall|m: int| 0 <= m < rest.len() implies #[trigger] rest[m] == old(xs)@.skip(
                i + 1,
            )[m] by {
                assert(xs@.skip(i as int)[m + 1] == old(xs)@.skip(i as int)[m + 1]);
            }
        }
        let mut j: usize = i;
        assert(done.take(j as int) =~= done);
        assert(done.subrange(j as int, i as int) =~= Seq::<isize>::empty());
        while j > 0 && xs[j - 1] > v
            invariant
                j <= i < n,
                n == xs@.len(),
                done.len() == i,
                xs@.take(j as int) == done.take(j as int),
                xs@.subrange(j + 1, i + 1) == done.subrange(j as int, i as int),
                xs@.skip(i + 1) == rest,
                insert_sorted(done, v) == insert_sorted(done.take(j as int), v) + done.subrange(
                    j as int,
                    i as int,
                ),
            decreases j,
        {
            let ghost before = xs@;
            xs[j] = xs[j - 1];
            proof {
                let head = done.take(j as int);
                assert(before[j - 1] == before.take(j as int)[j - 1]);
                assert(head.last() == before[j - 1]);
                assert(head.drop_last() =~= done.take(j - 1));
                assert(insert_sorted(head, v) == insert_sorted(done.take(j - 1), v).push(
                    head.last(),
                ));
                assert(insert_sorted(done.take(j - 1), v).push(head.last()) + done.subrange(
                    j as int,
                    i as int,
                ) =~= insert_sorted(done.take(j - 1), v) + done.subrange(j - 1, i as int));
                assert(xs@.take(j - 1) =~= done.take(j - 1));
                assert(xs@.subrange(j as int, i + 1) =~= done.subrange(j - 1, i as int)) by {
                    let shifted = xs@.subrange(j as int, i + 1);
                    let wanted = done.subrange(j - 1, i as int);
                    assert forall|m: int| 1 <= m < i + 1 - j implies #[trigger] shifted[m]
                        == wanted[m] by {
                        assert(before.subrange(j + 1, i + 1)[m - 1] == done.subrange(
                            j as int,
                            i as int,
                        )[m - 1]);
                    }
                }
                assert(xs@.skip(i + 1) =~= rest);
            }
            j -= 1;
        }
        let ghost before = xs@;
        xs[j] = v;
        proof {
            let head = done.take(j as int);
            if j > 0 {
                assert(before[j - 1] == before.take(j as int)[j - 1]);
                assert(head.last() == before[j - 1]);
            }
            assert(insert_sorted(head, v) == head.push(v));
            assert(xs@.take(i + 1) =~= head.push(v) + done.subrange(j as int, i as int));
            assert(old(xs)@.take(i + 1).drop_last() =~= old(xs)@.take(i as int));
            assert(old(xs)@.take(i + 1).last() == v);
            assert(xs@.skip(i + 1) =~= rest);
        }
        i += 1;
    }
    assert(xs@.take(n as int) =~= xs@);
    assert(old(xs)@.take(n as int) =~= old(xs)@);
}

/// The lowest and the highest second coordinate among `corners`, or `None`
/// if there are no corners.
pub fn scan_range(corners: &[(isize, isize)]) -> (range: Option<(isize, isize)>)
    ensures
        range is None == (corners@.len() == 0),
        range matches Some(r) ==> r.0 == lowest(corners@) && r.1 == highest(corners@),
{
    let n = corners.len();
    if n == 0 {
        return None;
    }
    let mut lo: isize = corners[0].1;
    let mut hi: isize = corners[0].1;
    let mut i: usize = 1;
    assert(corners@.take(1) =~= seq![corners@[0]]);
    while i < n
        invariant
            1 <= i <= n,
            n == corners@.len(),
            lo == lowest(corners@.take(i as int)),
            hi == highest(corners@.take(i as int)),
        decreases n - i,
    {
        let y = corners[i].1;
        proof {
            assert(corners@.take(i + 1).drop_last() =~= corners@.take(i as int));
            assert(corners@.take(i + 1).last() == corners@[i as int]);
        }
        if y < lo {
            lo = y;
        }
        if y > hi {
            hi = y;
        }
        i += 1;
    }
    assert(corners@.take(n as int) =~= corners@);
    Some((lo, hi))
}

/// Paints the cells of row `y` from column `x1` to column `x2`, both
/// included; nothing if `x1 > x2`.
fn fill_span(fb: &mut Framebuffer, y: isize, x1: isize, x2: isize)
    ensures
        final(fb)@ == old(fb)@.paint(span_cells(y as int, x1 as int, x2 as int)),
{
    proof {
        lemma_paint_nothing(old(fb)@);
        assert(span_cells(y as int, x1 as int, x1 - 1) =~= Set::<(int, int)>::empty());
    }
    if x1 > x2 {
        assert(span_cells(y as int, x1 as int, x2 as int) =~= Set::<(int, int)>::empty());
        return ;
    }
    let mut x: isize = x1;
    loop
        invariant_except_break
            x1 <= x <= x2,
            fb@ == old(fb)@.paint(span_cells(y as int, x1 as int, x - 1)),
        ensures
            fb@ == old(fb)@.paint(span_cells(y as int, x1 as int, x2 as int)),
        decreases x2 - x,
    {
        fb.point(x, y);
        proof {
            lemma_paint_twice(
                old(fb)@,
                span_cells(y as int, x1 as int, x - 1),
                set![(x as int, y as int)],
            );
            assert(span_cells(y as int, x1 as int, x - 1).union(set![(x as int, y as int)])
                =~= span_cells(y as int, x1 as int, x as int));
        }
        if x == x2 {
            break;
        }
        x += 1;
    }
}

/// A polygon ready to be drawn: corners on the pixel grid and a table of
/// scan-line intercepts of the right shape.
pub struct Polygon {
    corners: Vec<(isize, isize)>,
    intercepts: Vec<Vec<isize>>,
}

impl View for Polygon {
    type V = PolygonView;

    closed spec fn view(&self) -> PolygonView {
        if self.held().wf() {
            self.held()
        } else {
            PolygonView { corners: Seq::empty(), intercepts: Seq::empty() }
        }
    }
}

impl Polygon {
    /// The corners and the table as they are stored.
    spec fn held(&self) -> PolygonView {
        PolygonView { corners: self.corners@, intercepts: rows_of(self.intercepts@) }
    }

    #[verifier::type_invariant]
    spec fn inv(&self) -> bool {
        self.held().wf()
    }

    /// The model of any polygon is well formed.
    pub proof fn lemma_view_wf(&self)
        ensures
            self@.wf(),
    {
    }

    /// A polygon from its corners and its table of intercepts, if the table
    /// has one row per scan line between the lowest and the highest corner
    /// and one entry per edge in each row.
    pub fn new(corners: Vec<(isize, isize)>, intercepts: Vec<Vec<isize>>) -> (polygon: Option<
        Polygon,
    >)
        ensures
            polygon is Some == (PolygonView {
                corners: corners@,
                intercepts: rows_of(intercepts@),
            }).wf(),
            polygon is Some ==> polygon->0@ == (PolygonView {
                corners: corners@,
                intercepts: rows_of(intercepts@),
            }),
    {
        let ghost v = PolygonView { corners: corners@, intercepts: rows_of(intercepts@) };
        let rows = intercepts.len();
        match scan_range(corners.as_slice()) {
            None => {
                if rows != 0 {
                    return None;
                }
            },
            Some((lo, hi)) => {
                if rows as i128 != hi as i128 - lo as i128 + 1 {
                    return None;
                }
                let n = corners.len();
                let mut k: usize = 0;
                while k < rows
                    invariant
                        k <= rows,
                        rows == intercepts@.len(),
                        n == corners@.len(),
                        n > 0,
                        v.corners == corners@,
                        v.intercepts == rows_of(intercepts@),
                        forall|m: int| 0 <= m < k ==> (#[trigger] intercepts@[m])@.len() == n,
                    decreases rows - k,
                {
                    if intercepts[k].len() != n {
                        assert(v.intercepts[k as int].len() != v.corners.len());
                        return None;
                    }
                    k += 1;
                }
                assert forall|m: int| 0 <= m < v.intercepts.len() implies (
                #[trigger] v.intercepts[m]).len() == v.corners.len() by {
                    assert(intercepts@[m]@.len() == n);
                }
            },
        }
        Some(Polygon { corners, intercepts })
    }
}

/// Fills the polygon by scan lines: on each line from the lowest corner to
/// the highest, the intercepts of the edges that straddle the line are
/// sorted and the spans between them painted in pairs.
pub fn fill_polygon(fb: &mut Framebuffer, polygon: &Polygon)
    ensures
        final(fb)@ == old(fb)@.paint(polygon@.fill_pixels()),
{
    proof {
        use_type_invariant(polygon);
        lemma_fill_rows_step(polygon@, 0);
        lemma_paint_nothing(old(fb)@);
    }
    let n = polygon.corners.len();
    let rows = polygon.intercepts.len();
    let (lo, hi) = match scan_range(polygon.corners.as_slice()) {
        Some(range) => range,
        None => {
            return ;
        },
    };
    let mut k: usize = 0;
    while k < rows
        invariant
            k <= rows,
            polygon@.wf(),
            polygon@ == polygon.held(),
            rows == polygon.intercepts@.len(),
            rows == polygon@.intercepts.len(),
            n == polygon.corners@.len(),
            n == polygon@.corners.len(),
            n > 0,
            lo == lowest(polygon@.corners),
            hi == highest(polygon@.corners),
            fb@ == old(fb)@.paint(polygon@.fill_rows(k as int)),
        decreases rows - k,
    {
        let y: isize = (lo as i128 + k as i128) as isize;
        let row = &polygon.intercepts[k];
        assert(row@ == polygon@.intercepts[k as int]);
        let mut xs: Vec<isize> = Vec::new();
        let mut i: usize = 0;
        while i < n
            invariant
                i <= n,
                n == polygon.corners@.len(),
                polygon@.corners == polygon.corners@,
                n == row@.len(),
                row@ == polygon@.intercepts[k as int],
                y == lowest(polygon@.corners) + k,
                xs@ == polygon@.crossings(k as int, i as int),
            decreases n - i,
        {
            let y1 = polygon.corners[i].1;
            let j = if i + 1 == n {
                0
            } else {
                i + 1
            };
            let y2 = polygon.corners[j].1;
            if (y1 <= y && y2 > y) || (y2 <= y && y1 > y) {
                xs.push(row[i]);
            }
            i += 1;
        }
        sort_ascending(&mut xs);
        let len = xs.len();
        let ghost base = fb@;
        let mut p: usize = 0;
        proof {
            lemma_row_cells_step(y as int, xs@, 0);
            lemma_paint_nothing(base);
        }
        while len - p >= 2
            invariant
                p <= len,
                p % 2 == 0,
                len == xs@.len(),
                fb@ == base.paint(row_cells(y as int, xs@, p as int / 2)),
            decreases len - p,
        {
            fill_span(fb, y, xs[p], xs[p + 1]);
            proof {
                lemma_row_cells_step(y as int, xs@, p as int / 2);
                lemma_paint_twice(
                    base,
                    row_cells(y as int, xs@, p as int / 2),
                    span_cells(y as int, xs@[p as int] as int, xs@[p + 1] as int),
                );
            }
            p += 2;
        }
        proof {
            assert(p as int / 2 == len as int / 2);
            lemma_fill_rows_step(polygon@, k as int);
            lemma_paint_twice(
                old(fb)@,
                polygon@.fill_rows(k as int),
                row_cells(y as int, xs@, len as int / 2),
            );
        }
        k += 1;
    }
}

impl Framebuffer {
    /// Draws the closed outline through `points`: a line from each point to
    /// the next and one from the last back to the first. Fewer than three
    /// points draw nothing.
    pub fn draw_outline(&mut self, points: &[(isize, isize)])
        ensures
            points@.len() < 3 ==> final(self)@ == old(self)@,
            points@.len() >= 3 ==> final(self)@ == old(self)@.paint(outline_pixels(points@)),
    {
        let n = points.len();
        if n < 3 {
            return ;
        }
        proof {
            lemma_outline_edges_step(points@, 0);
            lemma_paint_nothing(old(self)@);
        }
        let mut i: usize = 0;
        while i < n - 1
            invariant
                i <= n - 1,
                n == points@.len(),
                n >= 3,
                self@ == old(self)@.paint(outline_edges(points@, i as int)),
            decreases n - i,
        {
            self.line(points[i], points[i + 1]);
            proof {
                lemma_outline_edges_step(points@, i as int);
                lemma_paint_twice(
                    old(self)@,
                    outline_edges(points@, i as int),
                    edge_pixels(points@, i as int),
                );
            }
            i += 1;
        }
        self.line(points[n - 1], points[0]);
        proof {
            lemma_outline_edges_step(points@, n - 1);
            lemma_paint_twice(
                old(self)@,
                outline_edges(points@, n - 1),
                edge_pixels(points@, n - 1),
            );
        }
    }
}

impl Framebuffer {
    /// Draws the polygon: its outline, then its fill. A polygon of fewer
    /// than three corners draws nothing.
    pub fn draw_polygon(&mut self, polygon: &Polygon)
        ensures
            final(self)@ == old(self)@.paint(polygon@.pixels()),
            polygon@.corners.len() < 3 ==> final(self)@ == old(self)@,
    {
        proof {
            use_type_invariant(polygon);
            lemma_paint_nothing(old(self)@);
        }
        if polygon.corners.len() < 3 {
            return ;
        }
        self.draw_outline(polygon.corners.as_slice());
        fill_polygon(self, polygon);
        proof {
            lemma_paint_twice(
                old(self)@,
                outline_pixels(polygon@.corners),
                polygon@.fill_pixels(),
            );
        }
    }
}

/// Draws the polygon on `fb`: its outline, then its fill. A polygon of fewer
/// than three corners draws nothing.
pub fn draw_polygon(fb: &mut Framebuffer, polygon: &Polygon)
    ensures
        final(fb)@ == old(fb)@.paint(polygon@.pixels()),
        polygon@.corners.len() < 3 ==> final(fb)@ == old(fb)@,
{
    fb.draw_polygon(polygon);
}

} // verus!

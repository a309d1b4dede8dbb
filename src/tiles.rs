use vstd::prelude::*;
use vstd::arithmetic::div_mod::{lemma_div_is_ordered, lemma_div_multiples_vanish, lemma_fundamental_div_mod};
use vstd::arithmetic::mul::lemma_mul_left_inequality;
use crate::tree::{ChildInfo, FileType};

verus! {

/// A rectangle of terminal cells.
#[derive(Clone, Copy, Debug, PartialEq, Eq, Structural)]
pub struct Rect {
    pub x: u16,
    pub y: u16,
    pub width: u16,
    pub height: u16,
}

pub open spec fn area_of(r: Rect) -> int {
    r.width * r.height
}

pub open spec fn inside(r: Rect, outer: Rect) -> bool {
    &&& r.x >= outer.x
    &&& r.y >= outer.y
    &&& r.x + r.width <= outer.x + outer.width
    &&& r.y + r.height <= outer.y + outer.height
}

/// One child of the current folder with the rectangle it was given.
#[derive(Clone, Debug, PartialEq, Eq)]
pub struct Tile {
    pub name: String,
    pub size: u64,
    pub file_type: FileType,
    pub num_descendants: u64,
    pub x: u16,
    pub y: u16,
    pub width: u16,
    pub height: u16,
}

impl Tile {
    pub open spec fn rect(&self) -> Rect {
        Rect { x: self.x, y: self.y, width: self.width, height: self.height }
    }
}

/// The tile shows the child `c`.
pub open spec fn carries(t: Tile, c: ChildInfo) -> bool {
    &&& t.name == c.name
    &&& t.size == c.size
    &&& t.file_type == c.file_type
    &&& t.num_descendants == c.num_descendants
}

/// Total area of a sequence of tiles.
pub open spec fn tiles_area(s: Seq<Tile>) -> int
    decreases s.len(),
{
    if s.len() == 0 {
        0
    } else {
        tiles_area(s.drop_last()) + s.last().width * s.last().height
    }
}

pub open spec fn region_area(r: Option<Rect>) -> int {
    match r {
        Some(q) => area_of(q),
        None => 0,
    }
}

/// The smallest width and height a tile may have at magnification `zoom`.
pub open spec fn visibility_floor(zoom: u16) -> int {
    if zoom >= 2 {
        1
    } else {
        3 - zoom
    }
}

/// Child `u` is laid out before child `v`: larger first, ties in discovery order.
pub open spec fn comes_before(c: Seq<ChildInfo>, u: int, v: int) -> bool {
    c[u].size > c[v].size || (c[u].size == c[v].size && u < v)
}

pub open spec fn is_size_order(c: Seq<ChildInfo>, order: Seq<usize>) -> bool {
    &&& order.len() == c.len()
    &&& forall|a: int| 0 <= a < order.len() ==> order[a] < c.len()
    &&& forall|a: int, b: int|
        0 <= a < b < order.len() ==> comes_before(c, order[a] as int, order[b] as int)
}

/// Where child `i` goes in the partial order `o`: before the first child smaller than it.
pub open spec fn insert_pos(c: Seq<ChildInfo>, o: Seq<usize>, i: int) -> int
    decreases o.len(),
{
    if o.len() == 0 {
        0
    } else if c[o[0] as int].size < c[i].size {
        0
    } else {
        1 + insert_pos(c, o.drop_first(), i)
    }
}

/// The first `k` children, largest first, ties in discovery order.
pub open spec fn spec_order(c: Seq<ChildInfo>, k: int) -> Seq<usize>
    decreases k,
{
    if k <= 0 {
        Seq::<usize>::empty()
    } else {
        let o = spec_order(c, k - 1);
        o.insert(insert_pos(c, o, k - 1), (k - 1) as usize)
    }
}

proof fn lemma_insert_pos(c: Seq<ChildInfo>, o: Seq<usize>, i: int, p: int)
    requires
        0 <= p <= o.len(),
        forall|a: int| 0 <= a < p ==> c[o[a] as int].size >= c[i].size,
        p == o.len() || c[o[p] as int].size < c[i].size,
    ensures
        insert_pos(c, o, i) == p,
    decreases p,
{
    if p > 0 {
        let t = o.drop_first();
        assert forall|a: int| 0 <= a < p - 1 implies c[t[a] as int].size >= c[i].size by {
            assert(t[a] == o[a + 1]);
        }
        if p < o.len() {
            assert(t[p - 1] == o[p]);
        }
        lemma_insert_pos(c, t, i, p - 1);
    }
}

/// Sum of the sizes of the children `order[a..b]`.
pub open spec fn osum(c: Seq<ChildInfo>, order: Seq<usize>, a: int, b: int) -> int
    decreases b - a,
{
    if b <= a {
        0
    } else {
        osum(c, order, a, b - 1) + c[order[b - 1] as int].size
    }
}

/// Where the boundary after the children `order[pos..j]` falls on a side of `side` cells.
pub open spec fn cut(c: Seq<ChildInfo>, order: Seq<usize>, pos: int, j: int, run: int, side: int) -> int {
    side * osum(c, order, pos, j) / run
}

/// How far from 1:1 the sides `p` and `q` are, scaled by 1024; the largest value where a
/// side is zero or too long to weigh.
pub open spec fn aspect_spec(p: int, q: int) -> int {
    let hi = if p >= q {
        p
    } else {
        q
    };
    let lo = if p >= q {
        q
    } else {
        p
    };
    if lo == 0 || hi > 0xffff_ffff_ffff {
        u128::MAX as int
    } else {
        hi * 1024 / lo
    }
}

/// Worst aspect among the tiles of a strip holding `run` of the `remaining` size, whose
/// largest child has size `largest` and smallest `smallest`.
pub open spec fn worst_aspect_spec(run: int, largest: int, smallest: int, remaining: int, long: int, side: int) -> int {
    if run == 0 || remaining == 0 {
        u128::MAX as int
    } else {
        let t = long * run / remaining;
        let a = side * largest / run;
        let b = side * smallest / run;
        let wa = aspect_spec(t, a);
        let wb = aspect_spec(t, b);
        if wa >= wb {
            wa
        } else {
            wb
        }
    }
}

/// The greedy choice of a strip's end, from a strip `order[..m]` of size `run` whose worst
/// aspect is `best`.
pub open spec fn run_end_from(
    c: Seq<ChildInfo>,
    o: Seq<usize>,
    m: int,
    run: int,
    best: int,
    largest: int,
    remaining: int,
    long: int,
    side: int,
) -> int
    decreases o.len() - m,
{
    if m >= o.len() || m < 0 {
        m
    } else {
        let smallest = c[o[m] as int].size as int;
        let next = run + smallest;
        let candidate = worst_aspect_spec(next, largest, smallest, remaining, long, side);
        if candidate > best {
            m
        } else {
            run_end_from(c, o, m + 1, next, candidate, largest, remaining, long, side)
        }
    }
}

/// The end of the strip that starts at `order[pos]`.
pub open spec fn run_end(c: Seq<ChildInfo>, o: Seq<usize>, pos: int, remaining: int, long: int, side: int) -> int {
    let largest = c[o[pos] as int].size as int;
    run_end_from(
        c,
        o,
        pos + 1,
        largest,
        worst_aspect_spec(largest, largest, largest, remaining, long, side),
        largest,
        remaining,
        long,
        side,
    )
}

/// The layout of the children of a folder.
#[derive(Debug)]
pub struct Packing {
    pub tiles: Vec<Tile>,
    pub small_files: Option<Rect>,
}

proof fn lemma_osum_split(c: Seq<ChildInfo>, order: Seq<usize>, a: int, b: int, d: int)
    requires
        a <= b <= d,
    ensures
        osum(c, order, a, d) == osum(c, order, a, b) + osum(c, order, b, d),
    decreases d - b,
{
    if d > b {
        lemma_osum_split(c, order, a, b, d - 1);
    }
}

proof fn lemma_osum_bounds(c: Seq<ChildInfo>, order: Seq<usize>, a: int, b: int)
    requires
        a <= b,
    ensures
        0 <= osum(c, order, a, b) <= (b - a) * 0xffff_ffff_ffff_ffff,
    decreases b - a,
{
    if b > a {
        lemma_osum_bounds(c, order, a, b - 1);
    }
}

proof fn lemma_cut_ordered(c: Seq<ChildInfo>, order: Seq<usize>, pos: int, j: int, k: int, run: int, side: int)
    requires
        pos <= j <= k,
        run > 0,
        side >= 0,
    ensures
        cut(c, order, pos, j, run, side) <= cut(c, order, pos, k, run, side),
        cut(c, order, pos, j, run, side) >= 0,
{
    lemma_osum_split(c, order, pos, j, k);
    lemma_osum_bounds(c, order, pos, j);
    lemma_osum_bounds(c, order, j, k);
    if side > 0 {
        lemma_mul_left_inequality(side, osum(c, order, pos, j), osum(c, order, pos, k));
    }
    assert(side * osum(c, order, pos, j) <= side * osum(c, order, pos, k)) by (nonlinear_arith)
        requires
            side >= 0,
            osum(c, order, pos, j) <= osum(c, order, pos, k),
    ;
    assert(side * osum(c, order, pos, j) >= 0) by (nonlinear_arith)
        requires
            side >= 0,
            osum(c, order, pos, j) >= 0,
    ;
    lemma_div_is_ordered(side * osum(c, order, pos, j), side * osum(c, order, pos, k), run);
    lemma_div_is_ordered(0, side * osum(c, order, pos, j), run);
}

proof fn lemma_tiles_area_push(s: Seq<Tile>, t: Tile)
    ensures
        tiles_area(s.push(t)) == tiles_area(s) + t.width * t.height,
{
    assert(s.push(t).drop_last() =~= s);
}

/// The children's indices, largest first, ties kept in discovery order.
pub(crate) fn size_order(children: &Vec<ChildInfo>) -> (order: Vec<usize>)
    ensures
        is_size_order(children@, order@),
        order@ == spec_order(children@, children@.len() as int),
{
    let n = children.len();
    let mut order: Vec<usize> = Vec::new();
    let mut i: usize = 0;
    while i < n
        invariant
            n == children@.len(),
            i <= n,
            order@.len() == i,
            order@ == spec_order(children@, i as int),
            forall|a: int| 0 <= a < order@.len() ==> order@[a] < i,
            forall|a: int, b: int|
                0 <= a < b < order@.len() ==> comes_before(
                    children@,
                    order@[a] as int,
                    order@[b] as int,
                ),
        decreases n - i,
    {
        let mut p: usize = 0;
        while p < order.len() && children[order[p]].size >= children[i].size
            invariant
                p <= order@.len(),
                i < n,
                n == children@.len(),
                forall|a: int| 0 <= a < order@.len() ==> order@[a] < i,
                forall|a: int| 0 <= a < p ==> children@[order@[a] as int].size >= children@[i as int].size,
            decreases order@.len() - p,
        {
            p += 1;
        }
        let ghost o = order@;
        proof {
            lemma_insert_pos(children@, o, i as int, p as int);
        }
        order.insert(p, i);
        proof {
            let c = children@;
            assert forall|a: int, b: int| 0 <= a < b < order@.len() implies comes_before(
                c,
                order@[a] as int,
                order@[b] as int,
            ) by {
                if b < p {
                } else if b == p {
                } else if a < p {
                    assert(order@[b] == o[b - 1]);
                } else if a == p {
                    assert(order@[b] == o[b - 1]);
                    assert(comes_before(c, o[p as int] as int, o[b - 1] as int) || b - 1 == p);
                } else {
                    assert(order@[a] == o[a - 1]);
                    assert(order@[b] == o[b - 1]);
                }
            }
        }
        i += 1;
    }
    order
}

/// The smallest width and height a tile may have at magnification `zoom`.
fn min_tile_side(zoom: u16) -> (r: u16)
    ensures
        r == visibility_floor(zoom),
        r >= 1,
{
    if zoom >= 2 {
        1
    } else {
        3 - zoom
    }
}

/// Sum of the sizes of the children `order[a..b]`.
pub(crate) fn run_size(children: &Vec<ChildInfo>, order: &Vec<usize>, a: usize, b: usize) -> (r: u128)
    requires
        is_size_order(children@, order@),
        a <= b <= order@.len(),
        children@.len() <= u32::MAX,
    ensures
        r == osum(children@, order@, a as int, b as int),
{
    let mut r: u128 = 0;
    let mut j: usize = a;
    while j < b
        invariant
            is_size_order(children@, order@),
            a <= j <= b <= order@.len(),
            children@.len() <= u32::MAX,
            r == osum(children@, order@, a as int, j as int),
        decreases b - j,
    {
        proof {
            lemma_osum_bounds(children@, order@, a as int, j as int + 1);
        }
        r = r + children[order[j]].size as u128;
        j += 1;
    }
    r
}

/// How far from 1:1 the sides `p` and `q` are, scaled by 1024; the largest value for a
/// side of zero.
fn aspect(p: u128, q: u128) -> (r: u128)
    ensures
        r == aspect_spec(p as int, q as int),
{
    let (hi, lo) = if p >= q {
        (p, q)
    } else {
        (q, p)
    };
    if lo == 0 || hi > 0xffff_ffff_ffff {
        u128::MAX
    } else {
        hi * 1024 / lo
    }
}

/// Worst aspect among the tiles of a strip holding `run` of the `remaining` size, whose
/// largest child has size `largest` and smallest `smallest`.
fn worst_aspect(run: u128, largest: u64, smallest: u64, remaining: u128, long: u16, side: u16) -> (r: u128)
    requires
        run <= 0xffff_ffff_ffff_ffff_ffff_ffff,
    ensures
        r == worst_aspect_spec(
            run as int,
            largest as int,
            smallest as int,
            remaining as int,
            long as int,
            side as int,
        ),
{
    if run == 0 || remaining == 0 {
        return u128::MAX;
    }
    assert(long as u128 * run <= 0xffff * 0xffff_ffff_ffff_ffff_ffff_ffff) by (nonlinear_arith)
        requires
            run <= 0xffff_ffff_ffff_ffff_ffff_ffff,
            long <= 0xffff,
    ;
    assert(side as u128 * largest as u128 <= 0xffff * 0xffff_ffff_ffff_ffff) by (nonlinear_arith)
        requires
            largest <= 0xffff_ffff_ffff_ffff,
            side <= 0xffff,
    ;
    assert(side as u128 * smallest as u128 <= 0xffff * 0xffff_ffff_ffff_ffff) by (nonlinear_arith)
        requires
            smallest <= 0xffff_ffff_ffff_ffff,
            side <= 0xffff,
    ;
    let t = long as u128 * run / remaining;
    let a = side as u128 * largest as u128 / run;
    let b = side as u128 * smallest as u128 / run;
    let wa = aspect(t, a);
    let wb = aspect(t, b);
    if wa >= wb {
        wa
    } else {
        wb
    }
}

/// The end of the next strip: children are added to it while that does not make its worst
/// tile further from square.
fn choose_run_end(
    children: &Vec<ChildInfo>,
    order: &Vec<usize>,
    pos: usize,
    remaining: u128,
    long: u16,
    side: u16,
) -> (m: usize)
    requires
        is_size_order(children@, order@),
        pos < order@.len(),
        children@.len() <= u32::MAX,
    ensures
        pos < m <= order@.len(),
        m == run_end(children@, order@, pos as int, remaining as int, long as int, side as int),
{
    let n = order.len();
    let largest = children[order[pos]].size;
    let mut m: usize = pos + 1;
    let mut run: u128 = largest as u128;
    assert(osum(children@, order@, pos as int, pos as int) == 0);
    assert(osum(children@, order@, pos as int, pos as int + 1) == osum(children@, order@, pos as int, pos as int) + children@[order@[pos as int] as int].size);
    let mut best = worst_aspect(run, largest, largest, remaining, long, side);
    while m < n
        invariant
            is_size_order(children@, order@),
            n == order@.len(),
            pos < m <= n,
            children@.len() <= u32::MAX,
            run == osum(children@, order@, pos as int, m as int),
            largest == children@[order@[pos as int] as int].size,
            run_end_from(
                children@,
                order@,
                m as int,
                run as int,
                best as int,
                largest as int,
                remaining as int,
                long as int,
                side as int,
            ) == run_end(children@, order@, pos as int, remaining as int, long as int, side as int),
        ensures
            pos < m <= n,
            m == run_end(children@, order@, pos as int, remaining as int, long as int, side as int),
        decreases n - m,
    {
        proof {
            lemma_osum_bounds(children@, order@, pos as int, m as int + 1);
        }
        let smallest = children[order[m]].size;
        let next = run + smallest as u128;
        let candidate = worst_aspect(next, largest, smallest, remaining, long, side);
        if candidate > best {
            break;
        }
        best = candidate;
        run = next;
        m += 1;
    }
    m
}

/// Whether every tile of the strip `order[pos..m]` would be at least `floor` cells wide and
/// high.
fn strip_fits(
    children: &Vec<ChildInfo>,
    order: &Vec<usize>,
    pos: usize,
    m: usize,
    run: u128,
    side: u16,
    t: u16,
    floor: u16,
) -> (r: bool)
    requires
        is_size_order(children@, order@),
        pos < m <= order@.len(),
        children@.len() <= u32::MAX,
        run == osum(children@, order@, pos as int, m as int),
        run > 0,
    ensures
        r == (t >= floor && forall|j: int|
            pos <= j < m ==> #[trigger] cut(children@, order@, pos as int, j + 1, run as int, side as int)
                - cut(children@, order@, pos as int, j, run as int, side as int) >= floor),
{
    if t < floor {
        return false;
    }
    let ghost c = children@;
    let ghost o = order@;
    let mut j: usize = pos;
    let mut cum: u128 = 0;
    while j < m
        invariant
            is_size_order(children@, order@),
            c == children@,
            o == order@,
            pos <= j <= m <= order@.len(),
            children@.len() <= u32::MAX,
            run == osum(c, o, pos as int, m as int),
            run > 0,
            cum == osum(c, o, pos as int, j as int),
            forall|q: int|
                pos <= q < j ==> #[trigger] cut(c, o, pos as int, q + 1, run as int, side as int) - cut(
                    c,
                    o,
                    pos as int,
                    q,
                    run as int,
                    side as int,
                ) >= floor,
        decreases m - j,
    {
        proof {
            lemma_osum_bounds(c, o, pos as int, j as int + 1);
            lemma_osum_split(c, o, pos as int, j as int + 1, m as int);
            lemma_osum_bounds(c, o, j as int + 1, m as int);
        }
        let next = cum + children[order[j]].size as u128;
        assert(side as u128 * next <= 0xffff * 0xffff_ffff_ffff_ffff_ffff_ffff) by (nonlinear_arith)
            requires
                next <= 0xffff_ffff_ffff_ffff_ffff_ffff,
                side <= 0xffff,
        ;
        assert(side as u128 * cum <= 0xffff * 0xffff_ffff_ffff_ffff_ffff_ffff) by (nonlinear_arith)
            requires
                cum <= 0xffff_ffff_ffff_ffff_ffff_ffff,
                side <= 0xffff,
        ;
        let start = side as u128 * cum / run;
        let end = side as u128 * next / run;
        proof {
            lemma_cut_ordered(c, o, pos as int, j as int, j as int + 1, run as int, side as int);
        }
        if end - start < floor as u128 {
            return false;
        }
        j += 1;
        cum = next;
    }
    true
}

/// Side of the strip along which its tiles are placed.
pub open spec fn strip_side(strip: Rect, stack_down: bool) -> int {
    if stack_down {
        strip.height as int
    } else {
        strip.width as int
    }
}

/// Thickness of the strip.
pub open spec fn strip_thickness(strip: Rect, stack_down: bool) -> int {
    if stack_down {
        strip.width as int
    } else {
        strip.height as int
    }
}

/// Appends a tile for each child `order[pos..m]`, splitting `strip` along its side in
/// proportion to their sizes; the last tile ends exactly at the strip's end.
fn emit_strip(
    tiles: &mut Vec<Tile>,
    children: &Vec<ChildInfo>,
    order: &Vec<usize>,
    pos: usize,
    m: usize,
    run: u128,
    strip: Rect,
    stack_down: bool,
    floor: u16,
)
    requires
        is_size_order(children@, order@),
        pos < m <= order@.len(),
        children@.len() <= u32::MAX,
        run == osum(children@, order@, pos as int, m as int),
        run > 0,
        strip.x + strip.width <= u16::MAX,
        strip.y + strip.height <= u16::MAX,
        strip_thickness(strip, stack_down) >= floor,
        forall|j: int|
            pos <= j < m ==> #[trigger] cut(
                children@,
                order@,
                pos as int,
                j + 1,
                run as int,
                strip_side(strip, stack_down),
            ) - cut(children@, order@, pos as int, j, run as int, strip_side(strip, stack_down))
                >= floor,
    ensures
        final(tiles)@.len() == old(tiles)@.len() + (m - pos),
        forall|q: int| 0 <= q < old(tiles)@.len() ==> final(tiles)@[q] == old(tiles)@[q],
        tiles_area(final(tiles)@) == tiles_area(old(tiles)@) + area_of(strip),
        forall|q: int|
            old(tiles)@.len() <= q < final(tiles)@.len() ==> {
                let t = #[trigger] final(tiles)@[q];
                &&& inside(t.rect(), strip)
                &&& t.width >= floor
                &&& t.height >= floor
                &&& carries(t, children@[order@[pos + q - old(tiles)@.len()] as int])
                &&& t.rect() == strip_tile_rect(
                    strip,
                    stack_down,
                    cut(children@, order@, pos as int, pos + q - old(tiles)@.len(), run as int, strip_side(strip, stack_down)),
                    cut(children@, order@, pos as int, pos + q - old(tiles)@.len() + 1, run as int, strip_side(strip, stack_down)),
                )
            },
{
    let ghost c = children@;
    let ghost o = order@;
    let ghost l0 = tiles@.len();
    let ghost a0 = tiles_area(tiles@);
    let side: u16 = if stack_down {
        strip.height
    } else {
        strip.width
    };
    let t: u16 = if stack_down {
        strip.width
    } else {
        strip.height
    };
    let mut j: usize = pos;
    let mut cum: u128 = 0;
    let mut start: u128 = 0;
    proof {
        assert(osum(c, o, pos as int, pos as int) == 0);
        assert(side * 0int == 0);
        assert(cut(c, o, pos as int, pos as int, run as int, side as int) == 0);
    }
    while j < m
        invariant
            is_size_order(children@, order@),
            c == children@,
            o == order@,
            pos <= j <= m <= order@.len(),
            children@.len() <= u32::MAX,
            run == osum(c, o, pos as int, m as int),
            run > 0,
            side == strip_side(strip, stack_down),
            t == strip_thickness(strip, stack_down),
            t >= floor,
            strip.x + strip.width <= u16::MAX,
            strip.y + strip.height <= u16::MAX,
            forall|q: int|
                pos <= q < m ==> #[trigger] cut(c, o, pos as int, q + 1, run as int, side as int) - cut(
                    c,
                    o,
                    pos as int,
                    q,
                    run as int,
                    side as int,
                ) >= floor,
            cum == osum(c, o, pos as int, j as int),
            start == cut(c, o, pos as int, j as int, run as int, side as int),
            tiles@.len() == l0 + (j - pos),
            l0 == old(tiles)@.len(),
            forall|q: int| 0 <= q < l0 ==> tiles@[q] == old(tiles)@[q],
            tiles_area(tiles@) == a0 + t * start,
            forall|q: int|
                l0 <= q < tiles@.len() ==> {
                    let tt = #[trigger] tiles@[q];
                    &&& inside(tt.rect(), strip)
                    &&& tt.width >= floor
                    &&& tt.height >= floor
                    &&& carries(tt, c[o[pos + q - l0] as int])
                    &&& tt.rect() == strip_tile_rect(
                        strip,
                        stack_down,
                        cut(c, o, pos as int, pos + q - l0, run as int, side as int),
                        cut(c, o, pos as int, pos + q - l0 + 1, run as int, side as int),
                    )
                },
        decreases m - j,
    {
        proof {
            lemma_osum_bounds(c, o, pos as int, j as int + 1);
            lemma_osum_split(c, o, pos as int, j as int + 1, m as int);
            lemma_osum_bounds(c, o, j as int + 1, m as int);
            lemma_cut_ordered(c, o, pos as int, j as int + 1, m as int, run as int, side as int);
            lemma_cut_ordered(c, o, pos as int, j as int, j as int + 1, run as int, side as int);
            lemma_div_multiples_vanish(side as int, run as int);
            assert(side * osum(c, o, pos as int, m as int) == run * side) by (nonlinear_arith)
                requires
                    run == osum(c, o, pos as int, m as int),
            ;
        }
        let child = &children[order[j]];
        let next = cum + child.size as u128;
        assert(side as u128 * next <= 0xffff * 0xffff_ffff_ffff_ffff_ffff_ffff) by (nonlinear_arith)
            requires
                next <= 0xffff_ffff_ffff_ffff_ffff_ffff,
                side <= 0xffff,
        ;
        let end = side as u128 * next / run;
        assert(end <= side);
        let len = (end - start) as u16;
        let tile = if stack_down {
            Tile {
                name: child.name.clone(),
                size: child.size,
                file_type: child.file_type,
                num_descendants: child.num_descendants,
                x: strip.x,
                y: strip.y + start as u16,
                width: t,
                height: len,
            }
        } else {
            Tile {
                name: child.name.clone(),
                size: child.size,
                file_type: child.file_type,
                num_descendants: child.num_descendants,
                x: strip.x + start as u16,
                y: strip.y,
                width: len,
                height: t,
            }
        };
        proof {
            lemma_tiles_area_push(tiles@, tile);
            assert(tile.width * tile.height == t * len) by (nonlinear_arith)
                requires
                    (tile.width == t && tile.height == len) || (tile.width == len && tile.height == t),
            ;
            assert(t * start + t * len == t * end) by (nonlinear_arith)
                requires
                    len == end - start,
            ;
        }
        tiles.push(tile);
        j += 1;
        cum = next;
        start = end;
    }
    proof {
        lemma_div_multiples_vanish(side as int, run as int);
        assert(side * osum(c, o, pos as int, m as int) == run * side) by (nonlinear_arith)
            requires
                run == osum(c, o, pos as int, m as int),
        ;
        assert(t * side == area_of(strip)) by (nonlinear_arith)
            requires
                (t == strip.width && side == strip.height) || (t == strip.height && side == strip.width),
        ;
    }
}

/// The tile that spans `start..end` along the side of `strip`.
pub open spec fn strip_tile_rect(strip: Rect, stack_down: bool, start: int, end: int) -> Rect {
    if stack_down {
        Rect { x: strip.x, y: (strip.y + start) as u16, width: strip.width, height: (end - start) as u16 }
    } else {
        Rect { x: (strip.x + start) as u16, y: strip.y, width: (end - start) as u16, height: strip.height }
    }
}

/// The tiles of the children `order[pos..m]` in `strip`.
pub open spec fn strip_rects(
    c: Seq<ChildInfo>,
    o: Seq<usize>,
    pos: int,
    m: int,
    run: int,
    strip: Rect,
    stack_down: bool,
) -> Seq<Rect> {
    Seq::new(
        (m - pos) as nat,
        |q: int|
            strip_tile_rect(
                strip,
                stack_down,
                cut(c, o, pos, pos + q, run, strip_side(strip, stack_down)),
                cut(c, o, pos, pos + q + 1, run, strip_side(strip, stack_down)),
            ),
    )
}

/// Every tile of the strip `order[pos..m]` is at least `floor` cells wide and high.
pub open spec fn strip_fits_spec(
    c: Seq<ChildInfo>,
    o: Seq<usize>,
    pos: int,
    m: int,
    run: int,
    side: int,
    t: int,
    floor: int,
) -> bool {
    t >= floor && forall|j: int|
        pos <= j < m ==> #[trigger] cut(c, o, pos, j + 1, run, side) - cut(c, o, pos, j, run, side) >= floor
}

pub open spec fn rects_of(tiles: Seq<Tile>) -> Seq<Rect> {
    tiles.map_values(|t: Tile| t.rect())
}

/// The layout puts its next strip along the height of `r` (a column) when `r` is at
/// least as wide as it is high, else along its width (a row).
pub open spec fn stacks_down(r: Rect) -> bool {
    r.width >= r.height
}

/// The side of `r` across which strips are laid.
pub open spec fn long_side(r: Rect) -> int {
    if stacks_down(r) {
        r.width as int
    } else {
        r.height as int
    }
}

/// The side of `r` along which a strip runs.
pub open spec fn short_side(r: Rect) -> int {
    if stacks_down(r) {
        r.height as int
    } else {
        r.width as int
    }
}

/// The end of the next strip over `r`.
pub open spec fn step_end(c: Seq<ChildInfo>, o: Seq<usize>, r: Rect, pos: int, remaining: int) -> int {
    run_end(c, o, pos, remaining, long_side(r), short_side(r))
}

/// The thickness of the next strip over `r`: its share of the remaining size, or all of
/// what is left for the last strip.
pub open spec fn step_thickness(c: Seq<ChildInfo>, o: Seq<usize>, r: Rect, pos: int, remaining: int) -> int {
    let m = step_end(c, o, r, pos, remaining);
    if m == o.len() {
        long_side(r)
    } else {
        long_side(r) * osum(c, o, pos, m) / remaining
    }
}

/// The strip `t` cells thick at the start of `r`.
pub open spec fn strip_of(r: Rect, t: int) -> Rect {
    if stacks_down(r) {
        Rect { x: r.x, y: r.y, width: t as u16, height: r.height }
    } else {
        Rect { x: r.x, y: r.y, width: r.width, height: t as u16 }
    }
}

/// What is left of `r` after the strip `t` cells thick.
pub open spec fn rest_of(r: Rect, t: int) -> Rect {
    if stacks_down(r) {
        Rect { x: (r.x + t) as u16, y: r.y, width: (r.width - t) as u16, height: r.height }
    } else {
        Rect { x: r.x, y: (r.y + t) as u16, width: r.width, height: (r.height - t) as u16 }
    }
}

/// The layout goes on with one more strip over `r`: children and space are left, the
/// strip holds at least one child of positive total size, and all its tiles clear the
/// visibility floor.
pub open spec fn step_taken(c: Seq<ChildInfo>, o: Seq<usize>, floor: int, r: Rect, pos: int, remaining: int) -> bool {
    let m = step_end(c, o, r, pos, remaining);
    let run = osum(c, o, pos, m);
    &&& 0 <= pos < o.len()
    &&& r.width > 0
    &&& r.height > 0
    &&& remaining > 0
    &&& pos < m <= o.len()
    &&& run != 0
    &&& strip_fits_spec(
        c,
        o,
        pos,
        m,
        run,
        short_side(r),
        step_thickness(c, o, r, pos, remaining),
        floor,
    )
}

/// The layout of the children `order[pos..]` over `r`, of total size `remaining`: the
/// tiles' rectangles, the rectangle left over, and how many children were placed.
pub open spec fn layout_from(
    c: Seq<ChildInfo>,
    o: Seq<usize>,
    floor: int,
    r: Rect,
    pos: int,
    remaining: int,
) -> (Seq<Rect>, Rect, int)
    decreases o.len() - pos,
{
    if !step_taken(c, o, floor, r, pos, remaining) {
        (Seq::<Rect>::empty(), r, pos)
    } else {
        let m = step_end(c, o, r, pos, remaining);
        let run = osum(c, o, pos, m);
        let t = step_thickness(c, o, r, pos, remaining);
        let rest = layout_from(c, o, floor, rest_of(r, t), m, remaining - run);
        (strip_rects(c, o, pos, m, run, strip_of(r, t), stacks_down(r)) + rest.0, rest.1, rest.2)
    }
}

/// The layout that `pack` computes, exactly: children in size order, tile by tile.
pub open spec fn packed_exactly(children: Seq<ChildInfo>, area: Rect, zoom: u16, tiles: Seq<Tile>, small_files: Option<Rect>) -> bool {
    let n = children.len() as int;
    let o = spec_order(children, n);
    let l = layout_from(children, o, visibility_floor(zoom), area, 0, osum(children, o, 0, n));
    &&& tiles.len() == l.0.len()
    &&& forall|q: int|
        0 <= q < tiles.len() ==> #[trigger] tiles[q].rect() == l.0[q] && carries(
            tiles[q],
            children[o[q] as int],
        )
    &&& small_files == (if l.2 < n && l.1.width > 0 && l.1.height > 0 {
        Some(l.1)
    } else {
        None
    })
}

/// What a layout of `children` over `area` at magnification `zoom` guarantees.
pub open spec fn packing_of(children: Seq<ChildInfo>, area: Rect, zoom: u16, tiles: Seq<Tile>, small_files: Option<Rect>) -> bool {
    &&& children.len() == 0 ==> tiles.len() == 0 && small_files is None
    &&& children.len() > 0 ==> tiles_area(tiles) + region_area(small_files) == area_of(area)
    &&& tiles.len() <= children.len()
    &&& (area.width == 0 || area.height == 0) ==> tiles.len() == 0 && small_files is None
    &&& forall|q: int|
            0 <= q < tiles.len() ==> {
                let t = #[trigger] tiles[q];
                &&& inside(t.rect(), area)
                &&& t.width >= visibility_floor(zoom)
                &&& t.height >= visibility_floor(zoom)
            }
    &&& small_files is Some ==> inside(small_files->0, area) && area_of(small_files->0) > 0
            && tiles.len() < children.len()
    &&& exists|order: Seq<usize>|
            is_size_order(children, order) && forall|q: int|
                0 <= q < tiles.len() ==> carries(#[trigger] tiles[q], children[order[q] as int])
    &&& (small_files is None && tiles.len() < children.len() && area.width > 0 && area.height > 0)
        ==> forall|q: int|
        tiles.len() <= q < children.len() ==> #[trigger] children[spec_order(
            children,
            children.len() as int,
        )[q] as int].size == 0
}

/// Lays the children out over `area` as a squarified treemap. Children are taken largest
/// first; each strip runs along the shorter side of what is left and is as thick as its
/// share of the remaining size. Once a strip would hold a tile narrower or lower than the
/// visibility floor of `zoom_level`, that strip and all later children are left to one
/// rectangle for small files, which covers exactly the space not yet tiled.
#[verifier::rlimit(50)]
pub fn pack(children: &Vec<ChildInfo>, area: Rect, zoom_level: u16) -> (r: Packing)
    requires
        children@.len() <= u32::MAX,
        area.x + area.width <= u16::MAX,
        area.y + area.height <= u16::MAX,
    ensures
        packing_of(children@, area, zoom_level, r.tiles@, r.small_files),
        packed_exactly(children@, area, zoom_level, r.tiles@, r.small_files),
{
    let n = children.len();
    let order = size_order(children);
    let mut tiles: Vec<Tile> = Vec::new();
    if n == 0 {
        proof {
            assert(rects_of(tiles@) =~= Seq::<Rect>::empty());
        }
        return Packing { tiles, small_files: None };
    }
    let floor = min_tile_side(zoom_level);
    let ghost c = children@;
    let ghost o = order@;
    let mut rx: u16 = area.x;
    let mut ry: u16 = area.y;
    let mut rw: u16 = area.width;
    let mut rh: u16 = area.height;
    let mut pos: usize = 0;
    let mut remaining = run_size(children, &order, 0, n);
    let ghost target = layout_from(c, o, floor as int, area, 0, remaining as int);
    proof {
        assert(area_of(area) == rw * rh);
        assert(rects_of(tiles@) + target.0 =~= target.0);
    }
    while pos < n && rw > 0 && rh > 0 && remaining > 0
        invariant
            target.0 == rects_of(tiles@) + layout_from(
                c,
                o,
                floor as int,
                Rect { x: rx, y: ry, width: rw, height: rh },
                pos as int,
                remaining as int,
            ).0,
            target.1 == layout_from(
                c,
                o,
                floor as int,
                Rect { x: rx, y: ry, width: rw, height: rh },
                pos as int,
                remaining as int,
            ).1,
            target.2 == layout_from(
                c,
                o,
                floor as int,
                Rect { x: rx, y: ry, width: rw, height: rh },
                pos as int,
                remaining as int,
            ).2,
            o == spec_order(c, n as int),
            n == children@.len(),
            n > 0,
            n <= u32::MAX,
            c == children@,
            o == order@,
            is_size_order(c, o),
            floor == visibility_floor(zoom_level),
            floor >= 1,
            area.x + area.width <= u16::MAX,
            area.y + area.height <= u16::MAX,
            pos <= n,
            remaining == osum(c, o, pos as int, n as int),
            rx >= area.x,
            ry >= area.y,
            rx + rw == area.x + area.width,
            ry + rh == area.y + area.height,
            pos == n ==> rw == 0 || rh == 0,
            tiles@.len() == pos,
            tiles_area(tiles@) + rw * rh == area_of(area),
            forall|q: int|
                0 <= q < tiles@.len() ==> {
                    let t = #[trigger] tiles@[q];
                    &&& inside(t.rect(), area)
                    &&& t.width >= floor
                    &&& t.height >= floor
                    &&& carries(t, c[o[q] as int])
                },
        ensures
            layout_from(
                c,
                o,
                floor as int,
                Rect { x: rx, y: ry, width: rw, height: rh },
                pos as int,
                remaining as int,
            ) == (Seq::<Rect>::empty(), Rect { x: rx, y: ry, width: rw, height: rh }, pos as int),
        decreases n - pos,
    {
        let ghost cur = Rect { x: rx, y: ry, width: rw, height: rh };
        let stack_down = rw >= rh;
        let long = if stack_down {
            rw
        } else {
            rh
        };
        let side = if stack_down {
            rh
        } else {
            rw
        };
        let m = choose_run_end(children, &order, pos, remaining, long, side);
        let run = run_size(children, &order, pos, m);
        if run == 0 {
            break;
        }
        proof {
            lemma_osum_split(c, o, pos as int, m as int, n as int);
            lemma_osum_bounds(c, o, m as int, n as int);
            lemma_osum_bounds(c, o, pos as int, m as int);
        }
        let t: u16 = if m == n {
            long
        } else {
            assert(long as u128 * run <= 0xffff * 0xffff_ffff_ffff_ffff_ffff_ffff) by (nonlinear_arith)
                requires
                    run <= 0xffff_ffff_ffff_ffff_ffff_ffff,
                    long <= 0xffff,
            ;
            proof {
                lemma_mul_left_inequality(long as int, run as int, remaining as int);
                lemma_div_is_ordered(long * run, long * remaining, remaining as int);
                lemma_div_multiples_vanish(long as int, remaining as int);
                assert(long * remaining == remaining * long) by (nonlinear_arith);
            }
            (long as u128 * run / remaining) as u16
        };
        assert(t <= long);
        let strip = if stack_down {
            Rect { x: rx, y: ry, width: t, height: rh }
        } else {
            Rect { x: rx, y: ry, width: rw, height: t }
        };
        if !strip_fits(children, &order, pos, m, run, side, t, floor) {
            break;
        }
        let ghost before = tiles@;
        let ghost rest_before = layout_from(c, o, floor as int, cur, pos as int, remaining as int);
        emit_strip(&mut tiles, children, &order, pos, m, run, strip, stack_down, floor);
        proof {
            assert forall|q: int| 0 <= q < tiles@.len() implies {
                let tt = #[trigger] tiles@[q];
                &&& inside(tt.rect(), area)
                &&& tt.width >= floor
                &&& tt.height >= floor
                &&& carries(tt, c[o[q] as int])
            } by {
                if q < before.len() {
                    assert(tiles@[q] == before[q]);
                }
            }
        }
        if stack_down {
            proof {
                assert((rw - t) * rh + t * rh == rw * rh) by (nonlinear_arith);
            }
            rx = rx + t;
            rw = rw - t;
        } else {
            proof {
                assert(rw * (rh - t) + rw * t == rw * rh) by (nonlinear_arith);
            }
            ry = ry + t;
            rh = rh - t;
        }
        remaining = remaining - run;
        pos = m;
        proof {
            let next = Rect { x: rx, y: ry, width: rw, height: rh };
            let rest = layout_from(c, o, floor as int, next, pos as int, remaining as int);
            let sr = strip_rects(c, o, before.len() as int, m as int, run as int, strip, stack_down);
            assert(rest_before == (sr + rest.0, rest.1, rest.2));
            assert(rects_of(tiles@) =~= rects_of(before) + sr);
            assert(target.0 =~= rects_of(tiles@) + rest.0);
        }
    }
    let small_files = if pos < n && rw > 0 && rh > 0 {
        Some(Rect { x: rx, y: ry, width: rw, height: rh })
    } else {
        proof {
            assert(rw * rh == 0) by (nonlinear_arith)
                requires
                    rw == 0 || rh == 0,
            ;
        }
        None
    };
    proof {
        if small_files is Some {
            assert(rw * rh > 0) by (nonlinear_arith)
                requires
                    rw > 0 && rh > 0,
            ;
        }
        assert(forall|q: int|
            0 <= q < tiles@.len() ==> carries(#[trigger] tiles@[q], children@[o[q] as int]));
    }
    proof {
        let total = osum(c, o, 0, n as int);
        lemma_spec_order_range(c, n as int);
        lemma_layout_count(c, o, floor as int, area, 0, total);
        lemma_layout_end(c, o, floor as int, area, 0, total);
        if small_files is None && tiles@.len() < n && area.width > 0 && area.height > 0 {
            lemma_osum_zero(c, o, tiles@.len() as int, n as int);
        }
    }
    Packing { tiles, small_files }
}

/// Packing the same children over the same area at the same magnification twice gives
/// the same tiles, in the same order, and the same small-files rectangle.
pub proof fn lemma_pack_deterministic(
    children: Seq<ChildInfo>,
    area: Rect,
    zoom: u16,
    tiles1: Seq<Tile>,
    small1: Option<Rect>,
    tiles2: Seq<Tile>,
    small2: Option<Rect>,
)
    requires
        packed_exactly(children, area, zoom, tiles1, small1),
        packed_exactly(children, area, zoom, tiles2, small2),
    ensures
        tiles1 == tiles2,
        small1 == small2,
{
    assert forall|q: int| 0 <= q < tiles1.len() implies tiles1[q] == tiles2[q] by {
        assert(tiles1[q].rect() == tiles2[q].rect());
    }
    assert(tiles1 =~= tiles2);
}

#[verifier::rlimit(50)]
proof fn lemma_layout_count(c: Seq<ChildInfo>, o: Seq<usize>, floor: int, r: Rect, pos: int, remaining: int)
    ensures
        layout_from(c, o, floor, r, pos, remaining).2 >= pos,
        layout_from(c, o, floor, r, pos, remaining).0.len() == layout_from(c, o, floor, r, pos, remaining).2
            - pos,
    decreases o.len() - pos,
{    if step_taken(c, o, floor, r, pos, remaining) {
        let m = step_end(c, o, r, pos, remaining);
        let t = step_thickness(c, o, r, pos, remaining);
        lemma_layout_count(c, o, floor, rest_of(r, t), m, remaining - osum(c, o, pos, m));
    }
}

#[verifier::rlimit(50)]
proof fn lemma_layout_floor(c: Seq<ChildInfo>, o: Seq<usize>, low: int, high: int, r: Rect, pos: int, remaining: int)
    requires
        low <= high,
    ensures
        layout_from(c, o, low, r, pos, remaining).2 >= layout_from(c, o, high, r, pos, remaining).2,
    decreases o.len() - pos,
{    lemma_layout_count(c, o, low, r, pos, remaining);
    if step_taken(c, o, high, r, pos, remaining) {
        let m = step_end(c, o, r, pos, remaining);
        let t = step_thickness(c, o, r, pos, remaining);
        assert(step_taken(c, o, low, r, pos, remaining));
        lemma_layout_floor(c, o, low, high, rest_of(r, t), m, remaining - osum(c, o, pos, m));
    }
}

/// Raising the magnification never places fewer children in tiles of their own.
pub proof fn lemma_zoom_monotone(
    children: Seq<ChildInfo>,
    area: Rect,
    zoom1: u16,
    zoom2: u16,
    tiles1: Seq<Tile>,
    small1: Option<Rect>,
    tiles2: Seq<Tile>,
    small2: Option<Rect>,
)
    requires
        zoom1 <= zoom2,
        packed_exactly(children, area, zoom1, tiles1, small1),
        packed_exactly(children, area, zoom2, tiles2, small2),
    ensures
        tiles1.len() <= tiles2.len(),
{
    let n = children.len() as int;
    let o = spec_order(children, n);
    let total = osum(children, o, 0, n);
    lemma_layout_count(children, o, visibility_floor(zoom1), area, 0, total);
    lemma_layout_count(children, o, visibility_floor(zoom2), area, 0, total);
    lemma_layout_floor(children, o, visibility_floor(zoom2), visibility_floor(zoom1), area, 0, total);
}

/// The two rectangles share no cell.
pub open spec fn disjoint(a: Rect, b: Rect) -> bool {
    a.x + a.width <= b.x || b.x + b.width <= a.x || a.y + a.height <= b.y || b.y + b.height <= a.y
}

/// A layout over `r`: its tiles and the rectangle left over lie inside `r`, and no two of
/// them share a cell.
pub open spec fn layout_sound(l: (Seq<Rect>, Rect, int), r: Rect) -> bool {
    &&& inside(l.1, r)
    &&& forall|q: int| 0 <= q < l.0.len() ==> inside(#[trigger] l.0[q], r) && disjoint(l.0[q], l.1)
    &&& forall|q1: int, q2: int|
        0 <= q1 < q2 < l.0.len() ==> disjoint(#[trigger] l.0[q1], #[trigger] l.0[q2])
}

/// What a strip of the layout adds up to: it holds part of the remaining size, is at most
/// as thick as `r`, and takes all of `r`'s thickness only where nothing of positive size
/// is left after it.
proof fn lemma_step_bounds(c: Seq<ChildInfo>, o: Seq<usize>, floor: int, r: Rect, pos: int, remaining: int)
    requires
        step_taken(c, o, floor, r, pos, remaining),
        remaining == osum(c, o, pos, o.len() as int),
    ensures
        ({
            let m = step_end(c, o, r, pos, remaining);
            let run = osum(c, o, pos, m);
            let t = step_thickness(c, o, r, pos, remaining);
            &&& 0 < run <= remaining
            &&& remaining - run == osum(c, o, m, o.len() as int)
            &&& 0 <= t <= long_side(r)
            &&& (t == long_side(r) && m < o.len() ==> run == remaining)
        }),
{
    let n = o.len() as int;
    let m = step_end(c, o, r, pos, remaining);
    let run = osum(c, o, pos, m);
    let long = long_side(r);
    lemma_osum_split(c, o, pos, m, n);
    lemma_osum_bounds(c, o, m, n);
    lemma_osum_bounds(c, o, pos, m);
    if m != n {
        lemma_mul_left_inequality(long, run, remaining);
        lemma_div_is_ordered(long * run, long * remaining, remaining);
        lemma_div_multiples_vanish(long, remaining);
        assert(long * remaining == remaining * long) by (nonlinear_arith);
        assert(long * run >= 0) by (nonlinear_arith)
            requires
                long >= 0,
                run >= 0,
        ;
        lemma_div_is_ordered(0, long * run, remaining);
        if run < remaining {
            assert(long * run / remaining < long) by (nonlinear_arith)
                requires
                    long >= 1,
                    0 < run < remaining,
            ;
        }
    }
}

#[verifier::rlimit(50)]
proof fn lemma_layout_sound(c: Seq<ChildInfo>, o: Seq<usize>, floor: int, r: Rect, pos: int, remaining: int)
    requires
        r.x + r.width <= u16::MAX,
        r.y + r.height <= u16::MAX,
        0 <= pos <= o.len(),
        remaining == osum(c, o, pos, o.len() as int),
    ensures
        layout_sound(layout_from(c, o, floor, r, pos, remaining), r),
    decreases o.len() - pos,
{    let l = layout_from(c, o, floor, r, pos, remaining);
    if !step_taken(c, o, floor, r, pos, remaining) {
        return;
    }
    lemma_step_bounds(c, o, floor, r, pos, remaining);
    let m = step_end(c, o, r, pos, remaining);
    let run = osum(c, o, pos, m);
    let t = step_thickness(c, o, r, pos, remaining);
    let side = short_side(r);
    let strip = strip_of(r, t);
    let next = rest_of(r, t);
    let rest = layout_from(c, o, floor, next, m, remaining - run);
    lemma_layout_sound(c, o, floor, next, m, remaining - run);
    let sr = strip_rects(c, o, pos, m, run, strip, stacks_down(r));
    assert(l == (sr + rest.0, rest.1, rest.2));
    assert(strip_side(strip, stacks_down(r)) == side);
    lemma_div_multiples_vanish(side, run);
    assert(side * run == run * side) by (nonlinear_arith);
    assert(cut(c, o, pos, m, run, side) == side);
    assert forall|q: int| 0 <= q < sr.len() implies inside(#[trigger] sr[q], strip) by {
        lemma_cut_ordered(c, o, pos, pos + q, pos + q + 1, run, side);
        lemma_cut_ordered(c, o, pos, pos + q + 1, m, run, side);
    }
    assert forall|q1: int, q2: int| 0 <= q1 < q2 < sr.len() implies disjoint(
        #[trigger] sr[q1],
        #[trigger] sr[q2],
    ) by {
        lemma_cut_ordered(c, o, pos, pos + q1, pos + q1 + 1, run, side);
        lemma_cut_ordered(c, o, pos, pos + q1 + 1, pos + q2, run, side);
        lemma_cut_ordered(c, o, pos, pos + q2, pos + q2 + 1, run, side);
        lemma_cut_ordered(c, o, pos, pos + q2 + 1, m, run, side);
    }
    let all = sr + rest.0;
    assert forall|q: int| 0 <= q < all.len() implies inside(#[trigger] all[q], r) && disjoint(
        all[q],
        rest.1,
    ) by {
        if q < sr.len() {
            assert(all[q] == sr[q]);
        } else {
            assert(all[q] == rest.0[q - sr.len()]);
        }
    }
    assert forall|q1: int, q2: int| 0 <= q1 < q2 < all.len() implies disjoint(
        #[trigger] all[q1],
        #[trigger] all[q2],
    ) by {
        if q2 < sr.len() {
            assert(all[q1] == sr[q1]);
            assert(all[q2] == sr[q2]);
        } else if q1 < sr.len() {
            assert(all[q1] == sr[q1]);
            assert(all[q2] == rest.0[q2 - sr.len()]);
        } else {
            assert(all[q1] == rest.0[q1 - sr.len()]);
            assert(all[q2] == rest.0[q2 - sr.len()]);
        }
    }
}

proof fn lemma_spec_order_len(c: Seq<ChildInfo>, k: int)
    requires
        k >= 0,
    ensures
        spec_order(c, k).len() == k,
    decreases k,
{
    if k > 0 {
        lemma_spec_order_len(c, k - 1);
        lemma_insert_pos_range(c, spec_order(c, k - 1), k - 1);
    }
}

proof fn lemma_spec_order_range(c: Seq<ChildInfo>, k: int)
    requires
        k >= 0,
    ensures
        spec_order(c, k).len() == k,
        forall|j: int| 0 <= j < k ==> #[trigger] spec_order(c, k)[j] < k,
    decreases k,
{
    lemma_spec_order_len(c, k);
    if k > 0 {
        let o = spec_order(c, k - 1);
        lemma_spec_order_range(c, k - 1);
        let p = insert_pos(c, o, k - 1);
        lemma_insert_pos_range(c, o, k - 1);
        assert forall|j: int| 0 <= j < k implies #[trigger] spec_order(c, k)[j] < k by {
            if j < p {
                assert(spec_order(c, k)[j] == o[j]);
            } else if j > p {
                assert(spec_order(c, k)[j] == o[j - 1]);
            }
        }
    }
}

proof fn lemma_insert_pos_range(c: Seq<ChildInfo>, o: Seq<usize>, i: int)
    ensures
        0 <= insert_pos(c, o, i) <= o.len(),
    decreases o.len(),
{
    if o.len() > 0 {
        lemma_insert_pos_range(c, o.drop_first(), i);
    }
}

/// In the layout that `pack` computes no two tiles share a cell, and no tile shares a cell
/// with the small-files rectangle; all lie inside the area.
pub proof fn lemma_pack_disjoint(children: Seq<ChildInfo>, area: Rect, zoom: u16, tiles: Seq<Tile>, small_files: Option<Rect>)
    requires
        area.x + area.width <= u16::MAX,
        area.y + area.height <= u16::MAX,
        packed_exactly(children, area, zoom, tiles, small_files),
    ensures
        forall|q1: int, q2: int|
            0 <= q1 < q2 < tiles.len() ==> disjoint(#[trigger] tiles[q1].rect(), #[trigger] tiles[q2].rect()),
        forall|q: int|
            0 <= q < tiles.len() && small_files is Some ==> disjoint(
                #[trigger] tiles[q].rect(),
                small_files->0,
            ),
        small_files is Some ==> inside(small_files->0, area),
{
    let n = children.len() as int;
    let o = spec_order(children, n);
    lemma_spec_order_len(children, n);
    lemma_layout_sound(children, o, visibility_floor(zoom), area, 0, osum(children, o, 0, n));
    let l = layout_from(children, o, visibility_floor(zoom), area, 0, osum(children, o, 0, n));
    assert forall|q1: int, q2: int| 0 <= q1 < q2 < tiles.len() implies disjoint(
        #[trigger] tiles[q1].rect(),
        #[trigger] tiles[q2].rect(),
    ) by {
        assert(tiles[q1].rect() == l.0[q1]);
        assert(tiles[q2].rect() == l.0[q2]);
    }
    assert forall|q: int| 0 <= q < tiles.len() && small_files is Some implies disjoint(
        #[trigger] tiles[q].rect(),
        small_files->0,
    ) by {
        assert(tiles[q].rect() == l.0[q]);
    }
}

#[verifier::rlimit(50)]
proof fn lemma_layout_end(c: Seq<ChildInfo>, o: Seq<usize>, floor: int, r: Rect, pos: int, remaining: int)
    requires
        0 <= pos <= o.len(),
        remaining == osum(c, o, pos, o.len() as int),
    ensures
        ({
            let l = layout_from(c, o, floor, r, pos, remaining);
            l.2 < o.len() && (l.1.width == 0 || l.1.height == 0) ==> r.width == 0 || r.height == 0
                || osum(c, o, l.2, o.len() as int) == 0
        }),
    decreases o.len() - pos,
{    if !step_taken(c, o, floor, r, pos, remaining) {
        return;
    }
    lemma_step_bounds(c, o, floor, r, pos, remaining);
    let m = step_end(c, o, r, pos, remaining);
    let run = osum(c, o, pos, m);
    let t = step_thickness(c, o, r, pos, remaining);
    let next = rest_of(r, t);
    let rest = layout_from(c, o, floor, next, m, remaining - run);
    assert(layout_from(c, o, floor, r, pos, remaining).1 == rest.1);
    assert(layout_from(c, o, floor, r, pos, remaining).2 == rest.2);
    lemma_layout_end(c, o, floor, next, m, remaining - run);
    if next.width == 0 || next.height == 0 {
        assert(rest.2 == m);
        if m != o.len() {
            assert(t == long_side(r));
            assert(osum(c, o, m, o.len() as int) == 0);
        }
    }
}

proof fn lemma_osum_zero(c: Seq<ChildInfo>, o: Seq<usize>, a: int, b: int)
    requires
        0 <= a <= b <= o.len(),
        osum(c, o, a, b) == 0,
        forall|j: int| a <= j < b ==> 0 <= #[trigger] o[j] < c.len(),
    ensures
        forall|q: int| a <= q < b ==> #[trigger] c[o[q] as int].size == 0,
    decreases b - a,
{
    if b > a {
        lemma_osum_bounds(c, o, a, b - 1);
        assert(0 <= o[b - 1] < c.len());
        lemma_osum_zero(c, o, a, b - 1);
    }
}

proof fn lemma_osum_positive(c: Seq<ChildInfo>, o: Seq<usize>, a: int, b: int)
    requires
        0 <= a < b <= o.len(),
        forall|j: int| 0 <= j < c.len() ==> #[trigger] c[j].size > 0,
        forall|j: int| a <= j < b ==> 0 <= #[trigger] o[j] < c.len(),
    ensures
        osum(c, o, a, b) > 0,
    decreases b - a,
{
    if b - 1 > a {
        lemma_osum_positive(c, o, a, b - 1);
    } else {
        assert(osum(c, o, a, a) == 0);
    }
    assert(0 <= o[b - 1] < c.len());
    assert(c[o[b - 1] as int].size > 0);
}

proof fn lemma_tiles_area_at_least_count(s: Seq<Tile>)
    requires
        forall|q: int| 0 <= q < s.len() ==> #[trigger] s[q].width >= 1 && s[q].height >= 1,
    ensures
        tiles_area(s) >= s.len(),
    decreases s.len(),
{
    if s.len() > 0 {
        let t = s.drop_last();
        assert forall|q: int| 0 <= q < t.len() implies #[trigger] t[q].width >= 1 && t[q].height >= 1 by {
            assert(t[q] == s[q]);
        }
        lemma_tiles_area_at_least_count(t);
        let w = s.last().width as int;
        let h = s.last().height as int;
        assert(w * h >= 1) by (nonlinear_arith)
            requires
                w >= 1,
                h >= 1,
        ;
    }
}

/// Where the area has cells and every child has a positive size, the tiles number at most
/// the cells of the area, and the children left out of the tiles, if any, are the ones
/// after the tiles in size order and lie together in the one small-files rectangle.
pub proof fn lemma_pack_folds(children: Seq<ChildInfo>, area: Rect, zoom: u16, tiles: Seq<Tile>, small_files: Option<Rect>)
    requires
        area.width > 0,
        area.height > 0,
        forall|j: int| 0 <= j < children.len() ==> #[trigger] children[j].size > 0,
        packing_of(children, area, zoom, tiles, small_files),
        packed_exactly(children, area, zoom, tiles, small_files),
    ensures
        tiles.len() <= area_of(area),
        tiles.len() < children.len() <==> small_files is Some,
{
    let n = children.len() as int;
    let o = spec_order(children, n);
    let floor = visibility_floor(zoom);
    let total = osum(children, o, 0, n);
    let l = layout_from(children, o, floor, area, 0, total);
    lemma_spec_order_len(children, n);
    lemma_layout_count(children, o, floor, area, 0, total);
    lemma_layout_end(children, o, floor, area, 0, total);
    assert forall|q: int| 0 <= q < tiles.len() implies #[trigger] tiles[q].width >= 1 && tiles[q].height
        >= 1 by {
        assert(inside(tiles[q].rect(), area));
    }
    lemma_tiles_area_at_least_count(tiles);
    if n > 0 {
        assert(region_area(small_files) >= 0) by (nonlinear_arith)
            requires
                small_files is Some ==> area_of(small_files->0) > 0,
        ;
    }
    if tiles.len() < n && small_files is None {
        lemma_spec_order_range(children, n);
        lemma_osum_positive(children, o, l.2, n);
    }
}

/// With `d` the floor of `b * s / total`, `a * d * total` falls short of `a * b * s` by
/// less than `(a + b) * total`.
proof fn lemma_bounded_product(a: int, b: int, s: int, total: int, d: int, k: int)
    requires
        a >= 1,
        b >= 1,
        total > 0,
        k == a,
        d == b * s / total,
        b * s == total * (b * s / total) + (b * s) % total,
        0 <= (b * s) % total < total,
    ensures
        k * d * total <= s * (a * b),
        s * (a * b) - (a + b) * total < k * d * total,
{
    let rem = (b * s) % total;
    assert(d * total == b * s - rem) by (nonlinear_arith)
        requires
            b * s == total * d + rem,
    ;
    assert(k * d * total == a * (d * total)) by (nonlinear_arith)
        requires
            k == a,
    ;
    assert(a * (b * s - rem) == a * (b * s) - a * rem) by (nonlinear_arith);
    assert(0 <= a * rem < a * total) by (nonlinear_arith)
        requires
            a >= 1,
            0 <= rem < total,
    ;
    assert(a * (b * s) == s * (a * b)) by (nonlinear_arith);
    assert(a * total <= (a + b) * total) by (nonlinear_arith)
        requires
            b >= 1,
            total > 0,
    ;
}

/// Where two children both get tiles, the first tile's area is the first child's share of
/// the area, short of it by less than one row or column of cells:
/// `share - (W + H) * S < area * S <= share`, where `S` is the total size and
/// `share` is the first child's size times the area's cells.
pub proof fn lemma_two_children_share(children: Seq<ChildInfo>, area: Rect, zoom: u16, tiles: Seq<Tile>, small_files: Option<Rect>)
    requires
        children.len() == 2,
        tiles.len() == 2,
        packed_exactly(children, area, zoom, tiles, small_files),
    ensures
        ({
            let total = tiles[0].size + tiles[1].size;
            let share = tiles[0].size * area_of(area);
            let a0 = tiles[0].width * tiles[0].height;
            &&& a0 * total <= share
            &&& share - (area.width + area.height) * total < a0 * total
        }),
{
    let n = 2int;
    let c = children;
    let o = spec_order(c, n);
    let floor = visibility_floor(zoom);
    lemma_spec_order_range(c, n);
    let total = osum(c, o, 0, n);
    let l = layout_from(c, o, floor, area, 0, total);
    assert(osum(c, o, 0, 0) == 0);
    assert(osum(c, o, 0, 1) == c[o[0] as int].size);
    assert(total == c[o[0] as int].size + c[o[1] as int].size);
    assert(tiles[0].rect() == l.0[0]);
    assert(carries(tiles[0], c[o[0] as int]));
    assert(tiles[1].rect() == l.0[1]);
    assert(carries(tiles[1], c[o[1] as int]));
    assert(step_taken(c, o, floor, area, 0, total));
    lemma_step_bounds(c, o, floor, area, 0, total);
    let m = step_end(c, o, area, 0, total);
    let run = osum(c, o, 0, m);
    let t = step_thickness(c, o, area, 0, total);
    let side = short_side(area);
    let long = long_side(area);
    let strip = strip_of(area, t);
    let sr = strip_rects(c, o, 0, m, run, strip, stacks_down(area));
    let rest = layout_from(c, o, floor, rest_of(area, t), m, total - run);
    assert(l == (sr + rest.0, rest.1, rest.2));
    assert(l.0[0] == sr[0]);
    assert(strip_side(strip, stacks_down(area)) == side);
    lemma_div_multiples_vanish(side, run);
    assert(side * run == run * side) by (nonlinear_arith);
    assert(cut(c, o, 0, m, run, side) == side);
    lemma_cut_ordered(c, o, 0, 1, m, run, side);
    assert(cut(c, o, 0, 0, run, side) == 0);
    let q = cut(c, o, 0, 1, run, side);
    let s0 = c[o[0] as int].size as int;
    assert(area_of(area) == long * side) by (nonlinear_arith)
        requires
            (long == area.width && side == area.height) || (long == area.height && side == area.width),
    ;
    assert(tiles[0].width * tiles[0].height == t * q) by (nonlinear_arith)
        requires
            (tiles[0].width == t && tiles[0].height == q) || (tiles[0].width == q && tiles[0].height == t),
    ;
    assert(long + side == area.width + area.height);
    assert(long >= 1 && side >= 1);
    if m == n {
        assert(t == long);
        assert(run == total);
        lemma_fundamental_div_mod(side * s0, total);
        lemma_bounded_product(long, side, s0, total, q, t);
    } else {
        assert(m == 1);
        assert(run == s0);
        assert(q == side);
        lemma_fundamental_div_mod(long * s0, total);
        lemma_bounded_product(side, long, s0, total, t, q);
    }
}

} // verus!

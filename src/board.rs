use vstd::prelude::*;
use crate::tiles::{
    osum, pack, packed_exactly, packing_of, rects_of, lemma_pack_deterministic, lemma_zoom_monotone,
    lemma_pack_disjoint, lemma_pack_folds, lemma_two_children_share, disjoint, inside, area_of, run_size, size_order, spec_order, Rect, Tile,
};
use crate::ui::{after_deletion, UiMode, COUNTER_FULL_MESSAGE, NOTHING_SELECTED_MESSAGE, NOT_FOUND_MESSAGE};
use crate::tree::{ChildInfo, FileTree, lists_children, lookup, names, unchanged_beside};

verus! {

/// A direction in which the selection can move.
#[derive(Clone, Copy, Debug, PartialEq, Eq, Structural)]
pub enum Direction {
    Up,
    Down,
    Left,
    Right,
}

/// Why the selected entry could not be deleted.
#[derive(Clone, Copy, Debug, PartialEq, Eq, Structural)]
pub enum DeleteError {
    NothingSelected,
    NotFound,
}

/// Twice the horizontal centre of a rectangle.
pub open spec fn center_x(t: Rect) -> int {
    2 * t.x + t.width
}

/// Twice the vertical centre of a rectangle.
pub open spec fn center_y(t: Rect) -> int {
    2 * t.y + t.height
}

pub open spec fn abs_diff(a: int, b: int) -> int {
    if a >= b {
        a - b
    } else {
        b - a
    }
}

/// Tile `b` lies, by its centre, on the `dir` side of tile `a`.
pub open spec fn is_candidate(rects: Seq<Rect>, a: int, b: int, dir: Direction) -> bool {
    &&& 0 <= b < rects.len()
    &&& b != a
    &&& match dir {
        Direction::Right => center_x(rects[b]) > center_x(rects[a]),
        Direction::Left => center_x(rects[b]) < center_x(rects[a]),
        Direction::Down => center_y(rects[b]) > center_y(rects[a]),
        Direction::Up => center_y(rects[b]) < center_y(rects[a]),
    }
}

/// Distance of `b` from `a` across the direction of movement.
pub open spec fn off_axis(rects: Seq<Rect>, a: int, b: int, dir: Direction) -> int {
    match dir {
        Direction::Right | Direction::Left => abs_diff(center_y(rects[b]), center_y(rects[a])),
        Direction::Up | Direction::Down => abs_diff(center_x(rects[b]), center_x(rects[a])),
    }
}

/// Distance of `b` from `a` along the direction of movement.
pub open spec fn on_axis(rects: Seq<Rect>, a: int, b: int, dir: Direction) -> int {
    match dir {
        Direction::Right | Direction::Left => abs_diff(center_x(rects[b]), center_x(rects[a])),
        Direction::Up | Direction::Down => abs_diff(center_y(rects[b]), center_y(rects[a])),
    }
}

/// Moving from `a`, tile `b` is preferred to tile `k`: better aligned across the
/// movement, then nearer along it, then earlier in layout order.
pub open spec fn preferred(rects: Seq<Rect>, a: int, b: int, k: int, dir: Direction) -> bool {
    let pb = off_axis(rects, a, b, dir);
    let pk = off_axis(rects, a, k, dir);
    let qb = on_axis(rects, a, b, dir);
    let qk = on_axis(rects, a, k, dir);
    pb < pk || (pb == pk && qb < qk) || (pb == pk && qb == qk && b < k)
}

/// The preferred candidate among the rects `0..k`, if any.
pub open spec fn best_among(rects: Seq<Rect>, a: int, dir: Direction, k: int) -> Option<int>
    decreases k,
{
    if k <= 0 {
        None
    } else {
        let r = best_among(rects, a, dir, k - 1);
        if is_candidate(rects, a, k - 1, dir) && (r is None || preferred(
            rects,
            a,
            k - 1,
            r->0,
            dir,
        )) {
            Some(k - 1)
        } else {
            r
        }
    }
}

/// The tile selected after moving from `a` in `dir`: the preferred candidate, or `a`
/// itself where there is none.
pub open spec fn moved(rects: Seq<Rect>, a: int, dir: Direction) -> int {
    match best_among(rects, a, dir, rects.len() as int) {
        Some(b) => b,
        None => a,
    }
}

/// The preferred candidate among `0..k` is a candidate preferred to every other one, and
/// there is none only where no tile of `0..k` is a candidate.
pub proof fn lemma_best_among(rects: Seq<Rect>, a: int, dir: Direction, k: int)
    requires
        0 <= k <= rects.len(),
    ensures
        best_among(rects, a, dir, k) is None <==> forall|j: int|
            0 <= j < k ==> !is_candidate(rects, a, j, dir),
        best_among(rects, a, dir, k) is Some ==> {
            let b = best_among(rects, a, dir, k)->0;
            &&& 0 <= b < k
            &&& is_candidate(rects, a, b, dir)
            &&& forall|j: int|
                0 <= j < k && j != b && is_candidate(rects, a, j, dir) ==> preferred(
                    rects,
                    a,
                    b,
                    j,
                    dir,
                )
        },
    decreases k,
{
    if k > 0 {
        lemma_best_among(rects, a, dir, k - 1);
    }
}

fn center_x_of(t: &Rect) -> (r: u32)
    ensures
        r == center_x(*t),
{
    2 * t.x as u32 + t.width as u32
}

fn center_y_of(t: &Rect) -> (r: u32)
    ensures
        r == center_y(*t),
{
    2 * t.y as u32 + t.height as u32
}

fn distance(a: u32, b: u32) -> (r: u32)
    ensures
        r == abs_diff(a as int, b as int),
{
    if a >= b {
        a - b
    } else {
        b - a
    }
}

fn candidate(rects: &Vec<Rect>, a: usize, b: usize, dir: Direction) -> (r: bool)
    requires
        a < rects@.len(),
        b < rects@.len(),
    ensures
        r == is_candidate(rects@, a as int, b as int, dir),
{
    if a == b {
        return false;
    }
    let ta = &rects[a];
    let tb = &rects[b];
    match dir {
        Direction::Right => center_x_of(tb) > center_x_of(ta),
        Direction::Left => center_x_of(tb) < center_x_of(ta),
        Direction::Down => center_y_of(tb) > center_y_of(ta),
        Direction::Up => center_y_of(tb) < center_y_of(ta),
    }
}

/// Distances of `b` from `a` across and along the movement.
fn offsets(rects: &Vec<Rect>, a: usize, b: usize, dir: Direction) -> (r: (u32, u32))
    requires
        a < rects@.len(),
        b < rects@.len(),
    ensures
        r.0 == off_axis(rects@, a as int, b as int, dir),
        r.1 == on_axis(rects@, a as int, b as int, dir),
{
    let ta = &rects[a];
    let tb = &rects[b];
    let dx = distance(center_x_of(tb), center_x_of(ta));
    let dy = distance(center_y_of(tb), center_y_of(ta));
    match dir {
        Direction::Right | Direction::Left => (dy, dx),
        Direction::Up | Direction::Down => (dx, dy),
    }
}

fn prefers(rects: &Vec<Rect>, a: usize, b: usize, k: usize, dir: Direction) -> (r: bool)
    requires
        a < rects@.len(),
        b < rects@.len(),
        k < rects@.len(),
    ensures
        r == preferred(rects@, a as int, b as int, k as int, dir),
{
    let (pb, qb) = offsets(rects, a, b, dir);
    let (pk, qk) = offsets(rects, a, k, dir);
    pb < pk || (pb == pk && qb < qk) || (pb == pk && qb == qk && b < k)
}

/// The tile reached from `a` in `dir`: see `moved`.
fn move_from(rects: &Vec<Rect>, a: usize, dir: Direction) -> (r: usize)
    requires
        a < rects@.len(),
    ensures
        r == moved(rects@, a as int, dir),
{
    let mut best: Option<usize> = None;
    let mut j: usize = 0;
    while j < rects.len()
        invariant
            a < rects@.len(),
            j <= rects@.len(),
            best matches Some(b) ==> b < j,
            best == (match best_among(rects@, a as int, dir, j as int) {
                Some(b) => Some(b as usize),
                None => None::<usize>,
            }),
            best_among(rects@, a as int, dir, j as int) matches Some(b) ==> 0 <= b < j,
        decreases rects@.len() - j,
    {
        proof {
            lemma_best_among(rects@, a as int, dir, j as int);
        }
        if candidate(rects, a, j, dir) {
            match best {
                None => {
                    best = Some(j);
                },
                Some(b) => {
                    if prefers(rects, a, j, b, dir) {
                        best = Some(j);
                    }
                },
            }
        }
        j += 1;
    }
    match best {
        Some(b) => b,
        None => a,
    }
}

/// Moving right and then left returns to the starting tile whenever the starting tile is
/// the preferred one to the left of the tile that the first move reached.
pub proof fn lemma_right_then_left(rects: Seq<Rect>, a: int)
    requires
        0 <= a < rects.len(),
        best_among(rects, a, Direction::Right, rects.len() as int) is Some,
        forall|j: int|
            0 <= j < rects.len() && j != a && is_candidate(
                rects,
                moved(rects, a, Direction::Right),
                j,
                Direction::Left,
            ) ==> preferred(rects, moved(rects, a, Direction::Right), a, j, Direction::Left),
    ensures
        moved(rects, moved(rects, a, Direction::Right), Direction::Left) == a,
{
    let n = rects.len() as int;
    lemma_best_among(rects, a, Direction::Right, n);
    let b = moved(rects, a, Direction::Right);
    assert(is_candidate(rects, b, a, Direction::Left));
    lemma_best_among(rects, b, Direction::Left, n);
}

/// The rectangles that the selection moves among: the tiles, in layout order, then the
/// small-files rectangle if there is one.
pub open spec fn nav_rects(tiles: Seq<Tile>, small_files: Option<Rect>) -> Seq<Rect> {
    match small_files {
        Some(r) => rects_of(tiles).push(r),
        None => rects_of(tiles),
    }
}

fn nav_rects_of(tiles: &Vec<Tile>, small_files: Option<Rect>) -> (r: Vec<Rect>)
    ensures
        r@ == nav_rects(tiles@, small_files),
{
    let mut r: Vec<Rect> = Vec::new();
    let mut j: usize = 0;
    while j < tiles.len()
        invariant
            j <= tiles@.len(),
            r@ =~= rects_of(tiles@).take(j as int),
        decreases tiles@.len() - j,
    {
        let t = &tiles[j];
        r.push(Rect { x: t.x, y: t.y, width: t.width, height: t.height });
        j += 1;
        proof {
            assert(r@ =~= rects_of(tiles@).take(j as int));
        }
    }
    proof {
        assert(rects_of(tiles@).take(j as int) =~= rects_of(tiles@));
    }
    match small_files {
        Some(q) => {
            r.push(q);
        },
        None => {},
    }
    r
}

/// What is shown of the current folder: its tiles, the small-files rectangle, the
/// selection and the magnification. The selection is an index into `nav_rects`: a tile,
/// or, one past the last tile, the small-files rectangle.
pub struct Board {
    pub tiles: Vec<Tile>,
    pub unrenderable_tile_coordinates: Option<Rect>,
    pub selected_index: Option<usize>,
    pub zoom_level: u16,
    pub area: Rect,
    pub files: Vec<ChildInfo>,
}

/// The largest magnification.
pub const MAX_ZOOM: u16 = 8;

impl Board {
    pub open spec fn wf(&self) -> bool {
        &&& self.files@.len() <= u32::MAX
        &&& self.area.x + self.area.width <= u16::MAX
        &&& self.area.y + self.area.height <= u16::MAX
        &&& packing_of(
            self.files@,
            self.area,
            self.zoom_level,
            self.tiles@,
            self.unrenderable_tile_coordinates,
        )
        &&& packed_exactly(
            self.files@,
            self.area,
            self.zoom_level,
            self.tiles@,
            self.unrenderable_tile_coordinates,
        )
        &&& (self.tiles@.len() > 0 ==> self.selected_index is Some)
        &&& (self.selected_index is Some ==> self.selected_index->0 < self.nav_len())
    }

    pub open spec fn nav_len(&self) -> int {
        nav_rects(self.tiles@, self.unrenderable_tile_coordinates).len() as int
    }

    /// Name of the selected tile; none where the small-files rectangle or nothing is
    /// selected.
    pub open spec fn selected_name(&self) -> Option<Seq<char>> {
        match self.selected_index {
            Some(i) if i < self.tiles@.len() => Some(self.tiles@[i as int].name@),
            _ => None,
        }
    }

    pub open spec fn small_files_selected_spec(&self) -> bool {
        self.selected_index == Some(self.tiles@.len() as usize) && self.unrenderable_tile_coordinates is Some
    }

    /// The selection after a re-layout into `tiles`: the first tile named as the tile
    /// selected before; else the first tile; else none.
    pub open spec fn anchored(tiles: Seq<Tile>, before: Option<Seq<char>>, r: Option<usize>) -> bool {
        match before {
            Some(n) if exists|j: int| 0 <= j < tiles.len() && tiles[j].name@ == n => {
                &&& r is Some
                &&& r->0 < tiles.len()
                &&& tiles[r->0 as int].name@ == n
                &&& forall|j: int| 0 <= j < r->0 ==> tiles[j].name@ != n
            },
            _ => r == (if tiles.len() > 0 {
                Some(0usize)
            } else {
                None
            }),
        }
    }

    pub open spec fn reanchored(&self, old: &Board) -> bool {
        Self::anchored(self.tiles@, old.selected_name(), self.selected_index)
    }

    /// A board showing `files` over `area`, unmagnified, with the first tile selected.
    pub fn new(files: Vec<ChildInfo>, area: Rect) -> (r: Board)
        requires
            files@.len() <= u32::MAX,
            area.x + area.width <= u16::MAX,
            area.y + area.height <= u16::MAX,
        ensures
            r.wf(),
            r.files@ == files@,
            r.area == area,
            r.zoom_level == 0,
            r.selected_index == (if r.tiles@.len() > 0 {
                Some(0usize)
            } else {
                None
            }),
    {
        let packing = pack(&files, area, 0);
        let selected_index = if packing.tiles.len() > 0 {
            Some(0)
        } else {
            None
        };
        Board {
            tiles: packing.tiles,
            unrenderable_tile_coordinates: packing.small_files,
            selected_index,
            zoom_level: 0,
            area,
            files,
        }
    }

    /// Lays the files out again and re-anchors the selection (see `anchored`).
    fn rebuild(&mut self)
        requires
            old(self).files@.len() <= u32::MAX,
            old(self).area.x + old(self).area.width <= u16::MAX,
            old(self).area.y + old(self).area.height <= u16::MAX,
        ensures
            final(self).wf(),
            final(self).files == old(self).files,
            final(self).area == old(self).area,
            final(self).zoom_level == old(self).zoom_level,
            final(self).reanchored(&*old(self)),
    {
        let packing = pack(&self.files, self.area, self.zoom_level);
        let mut found: Option<usize> = None;
        match self.selected_index {
            Some(i) => {
                if i < self.tiles.len() {
                    let name = &self.tiles[i].name;
                    let mut j: usize = 0;
                    while j < packing.tiles.len()
                        invariant
                            j <= packing.tiles@.len(),
                            *name == old(self).tiles@[i as int].name,
                            found is None ==> forall|q: int|
                                0 <= q < j ==> packing.tiles@[q].name@ != name@,
                            found is Some ==> {
                                &&& found->0 < packing.tiles@.len()
                                &&& packing.tiles@[found->0 as int].name@ == name@
                                &&& forall|q: int|
                                    0 <= q < found->0 ==> packing.tiles@[q].name@ != name@
                            },
                        decreases packing.tiles@.len() - j,
                    {
                        if matches!(found, None) && packing.tiles[j].name == *name {
                            found = Some(j);
                        }
                        j += 1;
                    }
                }
            },
            None => {},
        }
        let selected_index = match found {
            Some(j) => Some(j),
            None => if packing.tiles.len() > 0 {
                Some(0)
            } else {
                None
            },
        };
        self.tiles = packing.tiles;
        self.unrenderable_tile_coordinates = packing.small_files;
        self.selected_index = selected_index;
    }

    /// Moves the selection to the preferred rectangle in `dir` (see `moved`); nothing
    /// changes where none lies that way.
    pub fn move_selected(&mut self, dir: Direction)
        requires
            old(self).wf(),
        ensures
            final(self).wf(),
            final(self).tiles == old(self).tiles,
            final(self).files == old(self).files,
            final(self).area == old(self).area,
            final(self).zoom_level == old(self).zoom_level,
            final(self).unrenderable_tile_coordinates == old(self).unrenderable_tile_coordinates,
            final(self).selected_index == (match old(self).selected_index {
                Some(a) => Some(
                    moved(
                        nav_rects(old(self).tiles@, old(self).unrenderable_tile_coordinates),
                        a as int,
                        dir,
                    ) as usize,
                ),
                None => None,
            }),
    {
        match self.selected_index {
            Some(a) => {
                let rects = nav_rects_of(&self.tiles, self.unrenderable_tile_coordinates);
                proof {
                    lemma_best_among(rects@, a as int, dir, rects@.len() as int);
                }
                let b = move_from(&rects, a, dir);
                self.selected_index = Some(b);
            },
            None => {},
        }
    }

    /// Raises the magnification by one step, up to `MAX_ZOOM`, and lays the files out again.
    pub fn zoom_in(&mut self)
        requires
            old(self).wf(),
        ensures
            final(self).wf(),
            final(self).zoom_level == (if old(self).zoom_level < MAX_ZOOM {
                (old(self).zoom_level + 1) as u16
            } else {
                old(self).zoom_level
            }),
            final(self).files == old(self).files,
            final(self).area == old(self).area,
            final(self).reanchored(&*old(self)),
    {
        if self.zoom_level < MAX_ZOOM {
            self.zoom_level = self.zoom_level + 1;
        }
        self.rebuild();
    }

    /// Lowers the magnification by one step, down to none, and lays the files out again.
    pub fn zoom_out(&mut self)
        requires
            old(self).wf(),
        ensures
            final(self).wf(),
            final(self).zoom_level == (if old(self).zoom_level > 0 {
                (old(self).zoom_level - 1) as u16
            } else {
                0
            }),
            final(self).files == old(self).files,
            final(self).area == old(self).area,
            final(self).reanchored(&*old(self)),
    {
        if self.zoom_level > 0 {
            self.zoom_level = self.zoom_level - 1;
        }
        self.rebuild();
    }

    /// Removes the magnification and lays the files out again.
    pub fn reset_zoom(&mut self)
        requires
            old(self).wf(),
        ensures
            final(self).wf(),
            final(self).zoom_level == 0,
            final(self).files == old(self).files,
            final(self).area == old(self).area,
            final(self).reanchored(&*old(self)),
    {
        self.zoom_level = 0;
        self.rebuild();
    }

    /// Shows `files` instead, keeping the selection where `anchored` says.
    pub fn change_files(&mut self, files: Vec<ChildInfo>)
        requires
            old(self).wf(),
            files@.len() <= u32::MAX,
        ensures
            final(self).wf(),
            final(self).files@ == files@,
            final(self).area == old(self).area,
            final(self).zoom_level == old(self).zoom_level,
            final(self).reanchored(&*old(self)),
    {
        self.files = files;
        self.rebuild();
    }

    /// Lays the files out over `area` instead.
    pub fn change_area(&mut self, area: Rect)
        requires
            old(self).wf(),
            area.x + area.width <= u16::MAX,
            area.y + area.height <= u16::MAX,
        ensures
            final(self).wf(),
            final(self).area == area,
            final(self).files == old(self).files,
            final(self).zoom_level == old(self).zoom_level,
            final(self).reanchored(&*old(self)),
    {
        self.area = area;
        self.rebuild();
    }

    /// The selected tile; none where the small-files rectangle or nothing is selected.
    pub fn currently_selected(&self) -> (r: Option<&Tile>)
        requires
            self.wf(),
        ensures
            match self.selected_index {
                Some(i) if i < self.tiles@.len() => r == Some(&self.tiles@[i as int]),
                _ => r is None,
            },
    {
        match self.selected_index {
            Some(i) => if i < self.tiles.len() {
                Some(&self.tiles[i])
            } else {
                None
            },
            None => None,
        }
    }

    /// Whether the small-files rectangle is selected.
    pub fn small_files_selected(&self) -> (r: bool)
        ensures
            r == self.small_files_selected_spec(),
    {
        match (self.selected_index, self.unrenderable_tile_coordinates) {
            (Some(i), Some(_)) => i == self.tiles.len(),
            _ => false,
        }
    }

    /// How many children were left to the small-files rectangle, and their total size.
    pub fn small_files_summary(&self) -> (r: (usize, u128))
        requires
            self.wf(),
        ensures
            r.0 == self.files@.len() - self.tiles@.len(),
            r.1 == osum(
                self.files@,
                spec_order(self.files@, self.files@.len() as int),
                self.tiles@.len() as int,
                self.files@.len() as int,
            ),
    {
        let order = size_order(&self.files);
        let n = self.files.len();
        let k = self.tiles.len();
        (n - k, run_size(&self.files, &order, k, n))
    }
}

/// Two boards showing the same files over the same area at the same magnification hold
/// the same tiles, in the same order, and the same small-files rectangle.
pub proof fn lemma_board_deterministic(b1: Board, b2: Board)
    requires
        b1.wf(),
        b2.wf(),
        b1.files@ == b2.files@,
        b1.area == b2.area,
        b1.zoom_level == b2.zoom_level,
    ensures
        b1.tiles@ == b2.tiles@,
        b1.unrenderable_tile_coordinates == b2.unrenderable_tile_coordinates,
{
    lemma_pack_deterministic(
        b1.files@,
        b1.area,
        b1.zoom_level,
        b1.tiles@,
        b1.unrenderable_tile_coordinates,
        b2.tiles@,
        b2.unrenderable_tile_coordinates,
    );
}

/// Of two boards showing the same files over the same area, the more magnified one
/// places no fewer files in tiles of their own.
pub proof fn lemma_board_zoom_monotone(b1: Board, b2: Board)
    requires
        b1.wf(),
        b2.wf(),
        b1.files@ == b2.files@,
        b1.area == b2.area,
        b1.zoom_level <= b2.zoom_level,
    ensures
        b1.tiles@.len() <= b2.tiles@.len(),
{
    lemma_zoom_monotone(
        b1.files@,
        b1.area,
        b1.zoom_level,
        b2.zoom_level,
        b1.tiles@,
        b1.unrenderable_tile_coordinates,
        b2.tiles@,
        b2.unrenderable_tile_coordinates,
    );
}

/// No two tiles of a board share a cell, no tile shares a cell with the small-files
/// rectangle, and that rectangle lies inside the board's area.
pub proof fn lemma_board_no_overlap(b: Board)
    requires
        b.wf(),
    ensures
        forall|q1: int, q2: int|
            0 <= q1 < q2 < b.tiles@.len() ==> disjoint(
                #[trigger] b.tiles@[q1].rect(),
                #[trigger] b.tiles@[q2].rect(),
            ),
        forall|q: int|
            0 <= q < b.tiles@.len() && b.unrenderable_tile_coordinates is Some ==> disjoint(
                #[trigger] b.tiles@[q].rect(),
                b.unrenderable_tile_coordinates->0,
            ),
        b.unrenderable_tile_coordinates is Some ==> inside(b.unrenderable_tile_coordinates->0, b.area),
{
    lemma_pack_disjoint(b.files@, b.area, b.zoom_level, b.tiles@, b.unrenderable_tile_coordinates);
}

/// On a board whose area has cells and whose files all have a positive size, the tiles
/// number at most the cells of the area, and the files without a tile of their own all
/// lie in the one small-files rectangle, which is there exactly when some file has no
/// tile.
pub proof fn lemma_board_folds(b: Board)
    requires
        b.wf(),
        b.area.width > 0,
        b.area.height > 0,
        forall|j: int| 0 <= j < b.files@.len() ==> #[trigger] b.files@[j].size > 0,
    ensures
        b.tiles@.len() <= area_of(b.area),
        b.tiles@.len() < b.files@.len() <==> b.unrenderable_tile_coordinates is Some,
{
    lemma_pack_folds(b.files@, b.area, b.zoom_level, b.tiles@, b.unrenderable_tile_coordinates);
}

/// On a board of two files that both have tiles, the first tile's area is its file's share
/// of the area, short of it by less than one row or column of cells.
pub proof fn lemma_board_two_children_share(b: Board)
    requires
        b.wf(),
        b.files@.len() == 2,
        b.tiles@.len() == 2,
    ensures
        ({
            let total = b.tiles@[0].size + b.tiles@[1].size;
            let share = b.tiles@[0].size * area_of(b.area);
            let a0 = b.tiles@[0].width * b.tiles@[0].height;
            &&& a0 * total <= share
            &&& share - (b.area.width + b.area.height) * total < a0 * total
        }),
{
    lemma_two_children_share(b.files@, b.area, b.zoom_level, b.tiles@, b.unrenderable_tile_coordinates);
}

/// Removes the selected entry of the current folder from the tree and shows what is
/// left of the current folder. The caller has removed it from the disk first. With the
/// small-files rectangle selected no entry is selected. A current folder of more than
/// `u32::MAX` children is not laid out again.
pub fn delete_selected(tree: &mut FileTree, board: &mut Board) -> (r: Result<u64, DeleteError>)
    requires
        old(tree).wf(),
        old(board).wf(),
        old(tree).space_freed + old(tree).base_folder.size <= u128::MAX,
    ensures
        final(tree).wf(),
        final(board).wf(),
        old(board).selected_name() is None ==> r == Err::<u64, DeleteError>(
            DeleteError::NothingSelected,
        ) && *final(tree) == *old(tree) && *final(board) == *old(board),
        old(board).selected_name() is Some ==> ({
            let path = names(old(tree).current_path@).push(old(board).selected_name()->0);
            &&& lookup(old(tree).base_folder, path) is None ==> r == Err::<u64, DeleteError>(
                DeleteError::NotFound,
            ) && *final(tree) == *old(tree) && *final(board) == *old(board)
            &&& lookup(old(tree).base_folder, path) is Some ==> {
                let x = lookup(old(tree).base_folder, path)->0;
                &&& r == Ok::<u64, DeleteError>(x.size)
                &&& lookup(final(tree).base_folder, path) is None
                &&& final(tree).base_folder.size == old(tree).base_folder.size - x.size
                &&& final(tree).base_folder.num_descendants == old(tree).base_folder.num_descendants
                    - 1 - x.num_descendants
                &&& final(tree).space_freed == old(tree).space_freed + x.size
                &&& unchanged_beside(old(tree).base_folder, final(tree).base_folder, path)
                &&& final(tree).settled_from(&*old(tree))
                &&& final(tree).current_folder_spec().children@.len() <= u32::MAX ==> {
                    &&& lists_children(final(board).files@, final(tree).current_folder_spec())
                    &&& final(board).area == old(board).area
                    &&& final(board).zoom_level == old(board).zoom_level
                    &&& final(board).reanchored(&*old(board))
                }
                &&& final(tree).current_folder_spec().children@.len() > u32::MAX ==> *final(board)
                    == *old(board)
            }
        }),
{
    let i = match board.selected_index {
        Some(i) => i,
        None => {
            return Err(DeleteError::NothingSelected);
        },
    };
    if i >= board.tiles.len() {
        return Err(DeleteError::NothingSelected);
    }
    let mut path = tree.current_path.clone();
    path.push(board.tiles[i].name.clone());
    proof {
        assert(path@ =~= old(tree).current_path@.push(old(board).tiles@[i as int].name));
        assert(names(path@) =~= names(old(tree).current_path@).push(old(board).tiles@[i as int].name@));
    }
    match tree.delete_entry(&path) {
        Err(_) => Err(DeleteError::NotFound),
        Ok(size) => {
            let files = tree.current_children();
            if files.len() <= u32::MAX as usize {
                board.change_files(files);
            }
            Ok(size)
        },
    }
}

/// The mode after a confirmed deletion, given how removing the selected entry from the
/// disk went. On a failure there, or where the freed-space counter could not take the
/// entry, the tree and the board stay as they are and an error is shown; otherwise the
/// entry leaves the tree as `delete_selected` says.
pub fn finish_deletion(tree: &mut FileTree, board: &mut Board, removed_from_disk: Result<(), String>) -> (r: UiMode)
    requires
        old(tree).wf(),
        old(board).wf(),
    ensures
        final(tree).wf(),
        final(board).wf(),
        removed_from_disk is Err ==> r == UiMode::ErrorMessage(removed_from_disk->Err_0)
            && *final(tree) == *old(tree) && *final(board) == *old(board),
        removed_from_disk is Ok && old(tree).space_freed + old(tree).base_folder.size > u128::MAX ==> (
        r matches UiMode::ErrorMessage(m) && m@ == COUNTER_FULL_MESSAGE@) && *final(tree) == *old(tree)
            && *final(board) == *old(board),
        removed_from_disk is Ok && old(tree).space_freed + old(tree).base_folder.size <= u128::MAX ==> ({
            let name = old(board).selected_name();
            let path = names(old(tree).current_path@).push(name->0);
            &&& name is None ==> (r matches UiMode::ErrorMessage(m) && m@ == NOTHING_SELECTED_MESSAGE@)
                && *final(tree) == *old(tree)
            &&& name is Some && lookup(old(tree).base_folder, path) is None ==> (r matches UiMode::ErrorMessage(
                m,
            ) && m@ == NOT_FOUND_MESSAGE@) && *final(tree) == *old(tree)
            &&& name is Some && lookup(old(tree).base_folder, path) is Some ==> {
                let x = lookup(old(tree).base_folder, path)->0;
                &&& r == UiMode::Normal
                &&& lookup(final(tree).base_folder, path) is None
                &&& final(tree).base_folder.size == old(tree).base_folder.size - x.size
                &&& final(tree).space_freed == old(tree).space_freed + x.size
            }
        }),
{
    match removed_from_disk {
        Err(message) => UiMode::ErrorMessage(message),
        Ok(()) => {
            if tree.space_freed > u128::MAX - tree.base_folder.size as u128 {
                return UiMode::ErrorMessage(String::from_str(COUNTER_FULL_MESSAGE));
            }
            let result = delete_selected(tree, board);
            after_deletion(result)
        },
    }
}

} // verus!

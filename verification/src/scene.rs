//! What is to be drawn for a plan: the marks of the move range, the pieces of
//! the arrow along a path, and the badge of a hurt unit.

use vstd::prelude::*;
use crate::actors::ActorKey;
use crate::dijkstra::{lemma_path_rises, path_from};
use crate::game::{Actor, GameState, HP_MAX};
use crate::grid::Grid;
use crate::position::Position;

verus! {

/// The direction of one step of a path.
#[derive(Debug, Clone, Copy, PartialEq, Eq, Structural)]
pub enum Direction {
    Left,
    Right,
    Down,
    Up,
}

/// A piece of the arrow that is drawn along a path. The two letters of a bend
/// or a straight piece name the sides of the cell that the arrow passes
/// through; a head names the side it points to.
#[derive(Debug, Clone, Copy, PartialEq, Eq, Structural)]
pub enum ArrowPiece {
    WestEast,
    NorthSouth,
    NorthEast,
    SouthEast,
    WestNorth,
    WestSouth,
    HeadWest,
    HeadEast,
    HeadSouth,
    HeadNorth,
}

impl ArrowPiece {
    /// The name of the sprite that shows the piece.
    pub fn sprite(self) -> (name: &'static str)
        ensures
            name == self.sprite_name(),
    {
        match self {
            ArrowPiece::WestEast => "arrow_we",
            ArrowPiece::NorthSouth => "arrow_ns",
            ArrowPiece::NorthEast => "arrow_ne",
            ArrowPiece::SouthEast => "arrow_se",
            ArrowPiece::WestNorth => "arrow_wn",
            ArrowPiece::WestSouth => "arrow_ws",
            ArrowPiece::HeadWest => "arrow_w",
            ArrowPiece::HeadEast => "arrow_e",
            ArrowPiece::HeadSouth => "arrow_s",
            ArrowPiece::HeadNorth => "arrow_n",
        }
    }

    pub open spec fn sprite_name(self) -> &'static str {
        match self {
            ArrowPiece::WestEast => "arrow_we",
            ArrowPiece::NorthSouth => "arrow_ns",
            ArrowPiece::NorthEast => "arrow_ne",
            ArrowPiece::SouthEast => "arrow_se",
            ArrowPiece::WestNorth => "arrow_wn",
            ArrowPiece::WestSouth => "arrow_ws",
            ArrowPiece::HeadWest => "arrow_w",
            ArrowPiece::HeadEast => "arrow_e",
            ArrowPiece::HeadSouth => "arrow_s",
            ArrowPiece::HeadNorth => "arrow_n",
        }
    }
}

/// The direction of the step from `from` to its neighbour `to`.
pub open spec fn direction_of(from: Position, to: Position) -> Direction {
    if to.x < from.x {
        Direction::Left
    } else if to.x > from.x {
        Direction::Right
    } else if to.y > from.y {
        Direction::Down
    } else {
        Direction::Up
    }
}

/// The piece on a cell that the path enters going `first` and leaves going
/// `then`. A path cannot turn back on the spot: for such a pair the result
/// means nothing.
pub open spec fn piece_between(first: Direction, then: Direction) -> ArrowPiece {
    match (first, then) {
        (Direction::Left, Direction::Left) | (Direction::Right, Direction::Right) => {
            ArrowPiece::WestEast
        },
        (Direction::Up, Direction::Up) | (Direction::Down, Direction::Down) => {
            ArrowPiece::NorthSouth
        },
        (Direction::Down, Direction::Right) | (Direction::Left, Direction::Up) => {
            ArrowPiece::NorthEast
        },
        (Direction::Up, Direction::Right) | (Direction::Left, Direction::Down) => {
            ArrowPiece::SouthEast
        },
        (Direction::Down, Direction::Left) | (Direction::Right, Direction::Up) => {
            ArrowPiece::WestNorth
        },
        (Direction::Up, Direction::Left) | (Direction::Right, Direction::Down) => {
            ArrowPiece::WestSouth
        },
        _ => arbitrary(),
    }
}

/// The head of an arrow whose last step goes `last`.
pub open spec fn head_for(last: Direction) -> ArrowPiece {
    match last {
        Direction::Left => ArrowPiece::HeadWest,
        Direction::Right => ArrowPiece::HeadEast,
        Direction::Down => ArrowPiece::HeadSouth,
        Direction::Up => ArrowPiece::HeadNorth,
    }
}

/// Every step of the path goes to a neighbouring cell, and no step goes back
/// to the cell that the step before it came from.
pub open spec fn walkable(path: Seq<Position>) -> bool {
    &&& forall|i: int| 0 <= i < path.len() - 1 ==> (#[trigger] path[i]).adjacent(path[i + 1])
    &&& forall|i: int| 0 <= i < path.len() - 2 ==> #[trigger] path[i] != path[i + 2]
}

fn is_step(from: Position, to: Position) -> (r: bool)
    ensures
        r == from.adjacent(to),
{
    let dx: i64 = to.x as i64 - from.x as i64;
    let dy: i64 = to.y as i64 - from.y as i64;
    (dy == 0 && (dx == -1 || dx == 1)) || (dx == 0 && (dy == -1 || dy == 1))
}

/// Whether an arrow can be drawn along `path`.
pub fn is_walkable(path: &Vec<Position>) -> (r: bool)
    ensures
        r == walkable(path@),
{
    if path.len() < 2 {
        return true;
    }
    let mut i: usize = 0;
    while i < path.len() - 1
        invariant
            path@.len() >= 2,
            0 <= i <= path@.len() - 1,
            forall|j: int| 0 <= j < i && j < path@.len() - 1 ==> (#[trigger] path@[j]).adjacent(
                path@[j + 1],
            ),
            forall|j: int| 0 <= j < i && j < path@.len() - 2 ==> #[trigger] path@[j] != path@[j + 2],
        decreases path@.len() - i,
    {
        if !is_step(path[i], path[i + 1]) {
            assert(!path@[i as int].adjacent(path@[i + 1]));
            return false;
        }
        if i < path.len() - 2 && path[i] == path[i + 2] {
            assert(path@[i as int] == path@[i + 2]);
            return false;
        }
        i = i + 1;
    }
    true
}

/// The pieces of the arrow along `path`, each with its cell: one piece for
/// every cell between the first and the last, in the order of the path, and
/// then the head on the last cell. A path of fewer than two cells has none.
pub open spec fn arrow_along(path: Seq<Position>) -> Seq<(ArrowPiece, Position)> {
    if path.len() < 2 {
        Seq::empty()
    } else {
        Seq::new(
            (path.len() - 1) as nat,
            |i: int|
                if i < path.len() - 2 {
                    (
                        piece_between(
                            direction_of(path[i], path[i + 1]),
                            direction_of(path[i + 1], path[i + 2]),
                        ),
                        path[i + 1],
                    )
                } else {
                    (head_for(direction_of(path[i], path[i + 1])), path[i + 1])
                },
        )
    }
}

fn direction(from: Position, to: Position) -> (d: Direction)
    ensures
        d == direction_of(from, to),
{
    if to.x < from.x {
        Direction::Left
    } else if to.x > from.x {
        Direction::Right
    } else if to.y > from.y {
        Direction::Down
    } else {
        Direction::Up
    }
}

/// The pieces of the arrow that shows `path`.
pub fn draw_move_path(path: &Vec<Position>) -> (pieces: Vec<(ArrowPiece, Position)>)
    requires
        walkable(path@),
    ensures
        pieces@ == arrow_along(path@),
{
    let mut pieces: Vec<(ArrowPiece, Position)> = Vec::new();
    if path.len() < 2 {
        assert(pieces@ =~= arrow_along(path@));
        return pieces;
    }
    let mut i: usize = 0;
    while i < path.len() - 2
        invariant
            path@.len() >= 2,
            0 <= i <= path@.len() - 2,
            walkable(path@),
            pieces@.len() == i,
            forall|j: int| 0 <= j < i ==> #[trigger] pieces@[j] == arrow_along(path@)[j],
        decreases path@.len() - i,
    {
        let first = direction(path[i], path[i + 1]);
        let then = direction(path[i + 1], path[i + 2]);
        proof {
            assert(path@[i as int].adjacent(path@[i + 1]));
            assert(path@[i + 1].adjacent(path@[i + 2]));
            assert(path@[i as int] != path@[i + 2]);
        }
        let piece = match (first, then) {
            (Direction::Left, Direction::Left) | (Direction::Right, Direction::Right) => {
                ArrowPiece::WestEast
            },
            (Direction::Up, Direction::Up) | (Direction::Down, Direction::Down) => {
                ArrowPiece::NorthSouth
            },
            (Direction::Down, Direction::Right) | (Direction::Left, Direction::Up) => {
                ArrowPiece::NorthEast
            },
            (Direction::Up, Direction::Right) | (Direction::Left, Direction::Down) => {
                ArrowPiece::SouthEast
            },
            (Direction::Down, Direction::Left) | (Direction::Right, Direction::Up) => {
                ArrowPiece::WestNorth
            },
            (Direction::Up, Direction::Left) | (Direction::Right, Direction::Down) => {
                ArrowPiece::WestSouth
            },
            _ => vstd::pervasive::unreached(),
        };
        pieces.push((piece, path[i + 1]));
        i = i + 1;
    }
    let last = path.len() - 1;
    let head = match direction(path[last - 1], path[last]) {
        Direction::Left => ArrowPiece::HeadWest,
        Direction::Right => ArrowPiece::HeadEast,
        Direction::Down => ArrowPiece::HeadSouth,
        Direction::Up => ArrowPiece::HeadNorth,
    };
    pieces.push((head, path[last]));
    assert(pieces@ =~= arrow_along(path@));
    pieces
}

/// A path that climbs a field is walkable: its steps go between neighbours,
/// and it never comes back to a cell, since the values only rise.
pub proof fn lemma_climb_walkable(g: Grid<i32>, start: Position)
    requires
        g.wf(),
    ensures
        walkable(path_from(g, start)),
{
    let path = path_from(g, start);
    lemma_path_rises(g, start);
    assert forall|i: int| 0 <= i < path.len() - 2 implies #[trigger] path[i] != path[i + 2] by {
        assert(g.cell(path[i]) < g.cell(path[i + 1]));
        assert(g.cell(path[i + 1]) < g.cell(path[i + 2]));
    }
}

/// The cells of a field that hold a positive value, row by row: the cells to
/// mark when the field is shown as a move range.
pub open spec fn marked(data: Seq<i32>, width: int) -> Seq<Position>
    decreases data.len(),
{
    if data.len() == 0 {
        Seq::empty()
    } else if data.last() > 0 {
        marked(data.drop_last(), width).push(
            Position {
                x: ((data.len() - 1) % width) as i32,
                y: ((data.len() - 1) / width) as i32,
            },
        )
    } else {
        marked(data.drop_last(), width)
    }
}

/// The cells to mark when `grid` is shown: those that hold a positive value.
pub fn draw_move_range(grid: &Grid<i32>) -> (cells: Vec<Position>)
    requires
        grid.wf(),
    ensures
        cells@ == marked(grid.data@, grid.width as int),
{
    let all = grid.iter();
    let mut cells: Vec<Position> = Vec::new();
    let mut i: usize = 0;
    proof {
        assert(grid.data@.take(0).len() == 0);
    }
    while i < all.len()
        invariant
            0 <= i <= all@.len(),
            grid.wf(),
            all@.len() == grid.data@.len(),
            forall|j: int|
                0 <= j < all@.len() ==> {
                    &&& (#[trigger] all@[j]).0 == j % (grid.width as int)
                    &&& all@[j].1 == j / (grid.width as int)
                    &&& *all@[j].2 == grid.data@[j]
                },
            cells@ == marked(grid.data@.take(i as int), grid.width as int),
        decreases all@.len() - i,
    {
        let (x, y, v) = all[i];
        proof {
            assert(grid.data@.take(i + 1).drop_last() =~= grid.data@.take(i as int));
            assert(grid.data@.take(i + 1).last() == grid.data@[i as int]);
        }
        if *v > 0 {
            cells.push(Position { x, y });
        }
        i = i + 1;
    }
    proof {
        assert(grid.data@.take(grid.data@.len() as int) =~= grid.data@);
    }
    cells
}

/// The badge that shows the hit points of a unit: none for a unit in full
/// health, the number for 0 to 9 hit points, and a question mark for a number
/// that cannot be.
pub open spec fn badge_of(hp: int) -> Option<&'static str> {
    if hp >= HP_MAX {
        None
    } else if hp == 0 {
        Some("hp_0")
    } else if hp == 1 {
        Some("hp_1")
    } else if hp == 2 {
        Some("hp_2")
    } else if hp == 3 {
        Some("hp_3")
    } else if hp == 4 {
        Some("hp_4")
    } else if hp == 5 {
        Some("hp_5")
    } else if hp == 6 {
        Some("hp_6")
    } else if hp == 7 {
        Some("hp_7")
    } else if hp == 8 {
        Some("hp_8")
    } else if hp == 9 {
        Some("hp_9")
    } else {
        Some("hp_question")
    }
}

/// The name of the sprite that shows the hit points of a unit, if it is to
/// be shown.
pub fn hp_badge(hp: i32) -> (badge: Option<&'static str>)
    ensures
        badge == badge_of(hp as int),
{
    if hp < 10 {
        Some(
            match hp {
                0 => "hp_0",
                1 => "hp_1",
                2 => "hp_2",
                3 => "hp_3",
                4 => "hp_4",
                5 => "hp_5",
                6 => "hp_6",
                7 => "hp_7",
                8 => "hp_8",
                9 => "hp_9",
                _ => "hp_question",
            },
        )
    } else {
        None
    }
}

/// What is shown on one cell when a field is shown with its numbers: the
/// cell is shaded, and its value is written on it if it is positive.
pub open spec fn label_of(data: Seq<i32>, width: int, i: int) -> (Position, Option<i32>) {
    (
        Position { x: (i % width) as i32, y: (i / width) as i32 },
        if data[i] > 0 {
            Some(data[i])
        } else {
            None
        },
    )
}

/// Every cell of the field, row by row, with the number to write on it.
pub fn draw_dijkstra_map(grid: &Grid<i32>) -> (labels: Vec<(Position, Option<i32>)>)
    requires
        grid.wf(),
    ensures
        labels@.len() == grid.data@.len(),
        forall|i: int|
            0 <= i < labels@.len() ==> #[trigger] labels@[i] == label_of(
                grid.data@,
                grid.width as int,
                i,
            ),
{
    let all = grid.iter();
    let mut labels: Vec<(Position, Option<i32>)> = Vec::new();
    let mut i: usize = 0;
    while i < all.len()
        invariant
            0 <= i <= all@.len(),
            all@.len() == grid.data@.len(),
            forall|j: int|
                0 <= j < all@.len() ==> {
                    &&& (#[trigger] all@[j]).0 == j % (grid.width as int)
                    &&& all@[j].1 == j / (grid.width as int)
                    &&& *all@[j].2 == grid.data@[j]
                },
            labels@.len() == i,
            forall|j: int|
                0 <= j < i ==> #[trigger] labels@[j] == label_of(grid.data@, grid.width as int, j),
        decreases all@.len() - i,
    {
        let (x, y, v) = all[i];
        let label = if *v > 0 {
            Some(*v)
        } else {
            None
        };
        labels.push((Position { x, y }, label));
        i = i + 1;
    }
    labels
}

/// How one unit is shown.
#[derive(Debug, Clone, Copy, PartialEq, Eq)]
pub struct ActorPicture {
    pub key: ActorKey,
    /// Where the picture of the unit lies in the sprite sheet.
    pub sprite_coords: Position,
    /// Whether the unit is greyed out because it has used its turn.
    pub greyed: bool,
    /// The badge with its hit points, if one is shown.
    pub badge: Option<&'static str>,
}

/// How the unit `actor` with the handle `key` is shown.
pub open spec fn picture_of(key: ActorKey, actor: Actor) -> ActorPicture {
    ActorPicture {
        key,
        sprite_coords: actor.sprite_coords,
        greyed: actor.has_moved,
        badge: badge_of(actor.hp as int),
    }
}

/// How the units are shown, in the order of the directory.
pub fn draw_actors(s: &GameState) -> (pictures: Vec<ActorPicture>)
    ensures
        pictures@.len() == s.entities@.len(),
        forall|i: int|
            0 <= i < pictures@.len() ==> #[trigger] pictures@[i] == picture_of(
                s.entities@[i].0,
                s.entities@[i].1,
            ),
{
    let all = s.entities.iter();
    let mut pictures: Vec<ActorPicture> = Vec::new();
    let mut i: usize = 0;
    while i < all.len()
        invariant
            0 <= i <= all@.len(),
            all@ == s.entities@,
            pictures@.len() == i,
            forall|j: int|
                0 <= j < i ==> #[trigger] pictures@[j] == picture_of(all@[j].0, all@[j].1),
        decreases all@.len() - i,
    {
        let (key, actor) = all[i];
        pictures.push(
            ActorPicture {
                key,
                sprite_coords: actor.sprite_coords,
                greyed: actor.has_moved,
                badge: hp_badge(actor.hp),
            },
        );
        i = i + 1;
    }
    pictures
}

/// The command `a` is drawn before the command `b`: it lies on a lower
/// layer, or on the same layer and was buffered earlier.
pub open spec fn drawn_before(z_levels: Seq<i32>, a: int, b: int) -> bool {
    z_levels[a] < z_levels[b] || (z_levels[a] == z_levels[b] && a < b)
}

/// `order` lists every command of the buffer once, each before all that are
/// drawn after it.
pub open spec fn is_draw_order(z_levels: Seq<i32>, order: Seq<usize>) -> bool {
    &&& order.len() == z_levels.len()
    &&& forall|k: int| 0 <= k < order.len() ==> (#[trigger] order[k]) < z_levels.len()
    &&& forall|k: int, l: int|
        0 <= k < l < order.len() ==> drawn_before(z_levels, order[k] as int, order[l] as int)
    &&& forall|i: usize| i < z_levels.len() ==> #[trigger] order.contains(i)
}

/// The order in which the buffered commands are drawn, given the layer of
/// each: from the lowest layer to the highest, and within a layer in the
/// order in which they were buffered.
pub fn draw_order(z_levels: &Vec<i32>) -> (order: Vec<usize>)
    ensures
        is_draw_order(z_levels@, order@),
{
    let mut order: Vec<usize> = Vec::new();
    let mut i: usize = 0;
    while i < z_levels.len()
        invariant
            0 <= i <= z_levels@.len(),
            order@.len() == i,
            forall|k: int| 0 <= k < order@.len() ==> (#[trigger] order@[k]) < i,
            forall|k: int, l: int|
                0 <= k < l < order@.len() ==> drawn_before(
                    z_levels@,
                    order@[k] as int,
                    order@[l] as int,
                ),
            forall|j: usize| j < i ==> #[trigger] order@.contains(j),
        decreases z_levels@.len() - i,
    {
        // the new command goes behind the last one that is drawn before it
        let mut at: usize = order.len();
        while at > 0 && z_levels[order[at - 1]] > z_levels[i]
            invariant
                0 <= at <= order@.len(),
                order@.len() == i,
                i < z_levels@.len(),
                forall|k: int| 0 <= k < order@.len() ==> (#[trigger] order@[k]) < i,
                forall|k: int| at <= k < order@.len() ==> z_levels@[(#[trigger] order@[k]) as int]
                    > z_levels@[i as int],
            decreases at,
        {
            at = at - 1;
        }
        let ghost earlier = order@;
        order.insert(at, i);
        proof {
            assert forall|k: int| 0 <= k < order@.len() implies (#[trigger] order@[k]) < i + 1 by {
                if k < at {
                    assert(order@[k] == earlier[k]);
                } else if k > at {
                    assert(order@[k] == earlier[k - 1]);
                }
            }
            assert forall|k: int, l: int| 0 <= k < l < order@.len() implies drawn_before(
                z_levels@,
                order@[k] as int,
                order@[l] as int,
            ) by {
                if l < at {
                    assert(order@[k] == earlier[k] && order@[l] == earlier[l]);
                } else if k > at {
                    assert(order@[k] == earlier[k - 1] && order@[l] == earlier[l - 1]);
                } else if l == at {
                    assert(order@[k] == earlier[k]);
                    assert(earlier[k] < i);
                    if at > 0 {
                        assert(z_levels@[earlier[at - 1] as int] <= z_levels@[i as int]);
                        if k < at - 1 {
                            assert(drawn_before(
                                z_levels@,
                                earlier[k] as int,
                                earlier[at - 1] as int,
                            ));
                        }
                    }
                } else if k == at {
                    assert(order@[l] == earlier[l - 1]);
                } else {
                    assert(order@[k] == earlier[k] && order@[l] == earlier[l - 1]);
                }
            }
            assert forall|j: usize| j < i + 1 implies #[trigger] order@.contains(j) by {
                if j < i {
                    assert(earlier.contains(j));
                    let k = choose|k: int| 0 <= k < earlier.len() && earlier[k] == j;
                    if k < at {
                        assert(order@[k] == j);
                    } else {
                        assert(order@[k + 1] == j);
                    }
                } else {
                    assert(order@[at as int] == i);
                }
            }
        }
        i = i + 1;
    }
    order
}

} // verus!

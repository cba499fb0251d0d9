//! What a level file holds, and how a map and its units are made from it.

use vstd::prelude::*;
use crate::game::{Actor, GroundType, Team, TerrainType, UnitType, HP_MAX};
use crate::grid::{lemma_cell_index, Grid};
use crate::position::Position;

verus! {

/// Where the picture of a unit lies in the sprite sheet.
#[derive(Debug)]
pub struct SpriteData {
    pub x: i32,
    pub y: i32,
}

/// A kind of unit.
#[derive(Debug)]
pub struct EntityDef {
    pub sprite: SpriteData,
    pub team: Team,
    pub unit_type: UnitType,
}

/// A unit of the kind named `def` on the cell `pos` of the map.
#[derive(Debug)]
pub struct EntityOnMap {
    pub def: String,
    pub pos: [i32; 2],
}

/// One layer of a level: a code for every cell, row by row.
#[derive(Debug)]
pub struct Layer {
    pub id: String,
    pub int_grid: Vec<i32>,
    pub width: i32,
    pub height: i32,
}

#[derive(Debug)]
pub struct Level {
    pub layers: Vec<Layer>,
    pub pixel_width: i32,
    pub pixel_height: i32,
}

#[derive(Debug)]
pub struct LDTK {
    pub levels: Vec<Level>,
}

/// The ground that a code of the ground layer stands for.
pub open spec fn ground_of(code: int) -> Option<GroundType> {
    if code == 1 {
        Some(GroundType::Ground)
    } else if code == 2 {
        Some(GroundType::Water)
    } else {
        None
    }
}

/// The terrain that a code of the infrastructure layer stands for.
pub open spec fn terrain_of(code: int) -> Option<TerrainType> {
    if code == 0 {
        Some(TerrainType::Plain)
    } else if 1 <= code <= 4 {
        Some(TerrainType::Street)
    } else if code == 5 {
        Some(TerrainType::Forest)
    } else {
        None
    }
}

/// The ground that `code` stands for; nothing for a code that the ground
/// layer does not know.
pub fn ground_type(code: i32) -> (r: Option<GroundType>)
    ensures
        r == ground_of(code as int),
{
    match code {
        1 => Some(GroundType::Ground),
        2 => Some(GroundType::Water),
        _ => None,
    }
}

/// The terrain that `code` stands for; nothing for a code that the
/// infrastructure layer does not know.
pub fn terrain_type(code: i32) -> (r: Option<TerrainType>)
    ensures
        r == terrain_of(code as int),
{
    match code {
        0 => Some(TerrainType::Plain),
        1 | 2 | 3 | 4 => Some(TerrainType::Street),
        5 => Some(TerrainType::Forest),
        _ => None,
    }
}

/// The code that a layer holds for the cell at `(x, y)`.
pub open spec fn code_at(layer: Layer, x: i32, y: i32) -> i32 {
    layer.int_grid@[x + y * layer.width]
}

/// The grid of a layer: the cell at `(x, y)` holds what `converter` makes of
/// the code at `x + y * width`.
pub fn grid_from_layer<T: Clone, F: Fn(i32) -> T>(layer: &Layer, converter: F) -> (g: Grid<T>)
    requires
        0 <= layer.width,
        0 <= layer.height,
        layer.width * layer.height <= layer.int_grid@.len(),
        forall|i: int|
            0 <= i < layer.int_grid@.len() ==> converter.requires((#[trigger] layer.int_grid@[i],)),
    ensures
        g.wf(),
        g.width == layer.width,
        g.height == layer.height,
        forall|x: i32, y: i32|
            g.in_bounds(x as int, y as int) ==> converter.ensures(
                (code_at(*layer, x, y),),
                #[trigger] g.at(x as int, y as int),
            ),
{
    let width = layer.width;
    let height = layer.height;
    proof {
        assert(layer.int_grid.len() == layer.int_grid@.len());
    }
    let convert = &converter;
    let cell = |x: i32, y: i32| -> (v: T)
        requires
            0 <= x < width,
            0 <= y < height,
        ensures
            convert.ensures((code_at(*layer, x, y),), v),
        {
            proof {
                lemma_cell_index(width as int, height as int, x as int, y as int);
                assert(0 <= y * width) by (nonlinear_arith)
                    requires
                        0 <= y,
                        0 <= width,
                ;
            }
            let at: usize = x as usize + y as usize * width as usize;
            convert(layer.int_grid[at])
        };
    Grid::filled_with(width, height, cell)
}

/// A fresh unit of the kind `def` on the cell that `place` names: in full
/// health and with its turn still to come.
pub fn new_actor(def: &EntityDef, place: &EntityOnMap) -> (actor: Actor)
    ensures
        actor == (Actor {
            pos: Position { x: place.pos@[0], y: place.pos@[1] },
            sprite_coords: Position { x: def.sprite.x, y: def.sprite.y },
            team: def.team,
            unit_type: def.unit_type,
            hp: HP_MAX,
            has_moved: false,
        }),
{
    Actor {
        pos: Position { x: place.pos[0], y: place.pos[1] },
        sprite_coords: Position { x: def.sprite.x, y: def.sprite.y },
        team: def.team,
        unit_type: def.unit_type,
        hp: HP_MAX,
        has_moved: false,
    }
}

} // verus!

//! The units of the game, the ground they stand on, and who can reach whom.

use vstd::prelude::*;
use vstd::pervasive::unreached;
use crate::actors::{actor_of, distinct_keys, has_key, ActorDirectory, ActorKey};
use crate::dijkstra::{get_neighbors, neighbors_in};
use crate::grid::Grid;
use crate::position::Position;

verus! {

/// The side a unit fights for.
#[derive(Debug, Clone, Copy, PartialEq, Eq, Structural, Hash)]
pub enum Team {
    Blue,
    Red,
}

#[derive(Debug, Clone, Copy, PartialEq, Eq, Structural, Hash)]
pub enum UnitType {
    Infantry,
    Tank,
}

/// What a cell is made of; decides whether units can enter it at all.
#[derive(Debug, Clone, Copy, PartialEq, Eq, Structural, Hash)]
pub enum GroundType {
    Ground,
    Water,
}

/// What stands on a cell of ground; decides how costly it is to enter.
#[derive(Debug, Clone, Copy, PartialEq, Eq, Structural, Hash)]
pub enum TerrainType {
    /// Nothing stands on the cell.
    Plain,
    Street,
    Forest,
}

impl Default for GroundType {
    fn default() -> (g: GroundType)
        ensures
            g == GroundType::Ground,
    {
        GroundType::Ground
    }
}

impl Default for TerrainType {
    fn default() -> (t: TerrainType)
        ensures
            t == TerrainType::Plain,
    {
        TerrainType::Plain
    }
}

pub const ENEMY_TEAM: Team = Team::Red;

pub const PLAYER_TEAM: Team = Team::Blue;

/// The hit points of a unit that has taken no damage.
pub const HP_MAX: i32 = 10;

/// One unit on the map.
#[derive(Debug, Clone, Copy, PartialEq, Eq, Structural)]
pub struct Actor {
    /// The cell the unit stands on.
    pub pos: Position,
    /// Where the picture of the unit lies in the sprite sheet.
    pub sprite_coords: Position,
    pub team: Team,
    pub unit_type: UnitType,
    pub hp: i32,
    /// Whether the unit has used its turn in the running phase.
    pub has_moved: bool,
}

/// The two layers of the map. Both have the same dimensions.
#[derive(Debug)]
pub struct Grids {
    pub ground: Grid<GroundType>,
    pub terrain: Grid<TerrainType>,
}

impl Default for Grids {
    /// A map without cells.
    fn default() -> (g: Grids)
        ensures
            g.ground.wf(),
            g.terrain.wf(),
            g.ground.width == 0 && g.ground.height == 0,
            g.terrain.width == 0 && g.terrain.height == 0,
    {
        Grids {
            ground: Grid::new(0, 0, GroundType::Ground),
            terrain: Grid::new(0, 0, TerrainType::Plain),
        }
    }
}

/// Whose turn it is.
#[derive(Debug, Clone, Copy, PartialEq, Eq, Structural)]
pub enum GamePhase {
    PlayerPhase,
    EnemyPhase,
}

/// What the selected unit is doing.
#[derive(Debug, Clone, Copy, PartialEq, Eq, Structural)]
pub enum MoveState {
    /// Nothing yet: the unit can be given a path or told to stay.
    Idle,
    /// The unit is being moved along its path.
    Moving,
    /// The unit has arrived and waits for "wait" or "attack".
    Confirm,
    /// The player picks one of the enemies in range.
    ChooseAttack,
    /// The attack is being shown.
    Attacking,
}

/// What the player has selected.
pub struct UIState {
    pub draw_dijkstra_map: bool,
    pub draw_ai_map: bool,
    pub selected_entity: Option<ActorKey>,
    pub move_state: MoveState,
    /// Which of the enemies in range is picked, while one is being chosen.
    pub chosen_enemy: Option<usize>,
}

impl Default for UIState {
    fn default() -> (ui: UIState)
        ensures
            !ui.draw_dijkstra_map,
            !ui.draw_ai_map,
            ui.selected_entity is None,
            ui.move_state == MoveState::Idle,
            ui.chosen_enemy is None,
    {
        UIState {
            draw_dijkstra_map: false,
            draw_ai_map: false,
            selected_entity: None,
            move_state: MoveState::Idle,
            chosen_enemy: None,
        }
    }
}

impl UIState {
    /// Shows or hides the numbers of the field that the path climbs.
    pub fn toggle_dijkstra_map(&mut self)
        ensures
            final(self).draw_dijkstra_map == !old(self).draw_dijkstra_map,
            final(self).draw_ai_map == old(self).draw_ai_map,
            final(self).selected_entity == old(self).selected_entity,
            final(self).move_state == old(self).move_state,
            final(self).chosen_enemy == old(self).chosen_enemy,
    {
        self.draw_dijkstra_map = !self.draw_dijkstra_map;
    }

    /// Shows or hides the field of the scripted units.
    pub fn toggle_ai_map(&mut self)
        ensures
            final(self).draw_ai_map == !old(self).draw_ai_map,
            final(self).draw_dijkstra_map == old(self).draw_dijkstra_map,
            final(self).selected_entity == old(self).selected_entity,
            final(self).move_state == old(self).move_state,
            final(self).chosen_enemy == old(self).chosen_enemy,
    {
        self.draw_ai_map = !self.draw_ai_map;
    }
}

/// The map, the units on it, and the state of the turn.
pub struct GameState {
    pub ui: UIState,
    pub grids: Grids,
    pub entities: ActorDirectory,
    pub phase: GamePhase,
}

impl GameState {
    /// Both layers of the map are well formed and have the same dimensions.
    pub open spec fn wf(&self) -> bool {
        &&& self.grids.ground.wf()
        &&& self.grids.terrain.wf()
        &&& self.grids.ground.width == self.grids.terrain.width
        &&& self.grids.ground.height == self.grids.terrain.height
    }

    /// Every unit stands on a cell of the map.
    pub open spec fn actors_on_map(&self) -> bool {
        forall|i: int|
            0 <= i < self.entities@.len() ==> self.grids.ground.contains(
                (#[trigger] self.entities@[i]).1.pos,
            )
    }

    /// The state is fit to play on: the map is well formed, every unit stands
    /// on it under a handle of its own, and no unit has fewer than 0 or more
    /// than `HP_MAX` hit points.
    pub open spec fn playable(&self) -> bool {
        &&& self.wf()
        &&& self.actors_on_map()
        &&& distinct_keys(self.entities@)
        &&& forall|i: int|
            0 <= i < self.entities@.len() ==> 0 <= (#[trigger] self.entities@[i]).1.hp <= HP_MAX
    }

    /// Whether the state is fit to play on.
    pub fn is_playable(&self) -> (r: bool)
        ensures
            r == self.playable(),
    {
        let ground = &self.grids.ground;
        let terrain = &self.grids.terrain;
        if ground.width < 0 || ground.height < 0 || terrain.width != ground.width || terrain.height
            != ground.height {
            return false;
        }
        let w: u64 = ground.width as u64;
        let h: u64 = ground.height as u64;
        proof {
            assert(0 <= w * h <= 0x7fff_ffff * 0x7fff_ffff) by (nonlinear_arith)
                requires
                    0 <= w <= 0x7fff_ffff,
                    0 <= h <= 0x7fff_ffff,
            ;
            assert(w * h == ground.width * ground.height);
            assert(ground.data.len() == ground.data@.len());
            assert(terrain.data.len() == terrain.data@.len());
        }
        let cells: u64 = w * h;
        if ground.data.len() as u64 != cells || terrain.data.len() as u64 != cells {
            return false;
        }
        let all = self.entities.iter();
        let mut i: usize = 0;
        while i < all.len()
            invariant
                0 <= i <= all@.len(),
                all@ == self.entities@,
                self.wf(),
                *ground == self.grids.ground,
                forall|j: int|
                    0 <= j < i ==> ground.contains((#[trigger] all@[j]).1.pos) && 0 <= all@[j].1.hp
                        <= HP_MAX,
            decreases all@.len() - i,
        {
            let (_, actor) = all[i];
            let on_map = 0 <= actor.pos.x && actor.pos.x < ground.width && 0 <= actor.pos.y
                && actor.pos.y < ground.height;
            if !on_map || actor.hp < 0 || actor.hp > HP_MAX {
                proof {
                    let at_fault = self.entities@[i as int];
                    assert(at_fault.1 == actor);
                    if !on_map {
                        assert(!self.grids.ground.contains(at_fault.1.pos));
                        assert(!self.actors_on_map());
                    } else {
                        assert(!(0 <= at_fault.1.hp <= HP_MAX));
                    }
                }
                return false;
            }
            i = i + 1;
        }
        true
    }

    /// A game without map and units, at the start of the player's phase.
    pub fn new() -> (s: GameState)
        ensures
            s.wf(),
            s.entities@.len() == 0,
            s.grids.ground.width == 0 && s.grids.ground.height == 0,
            s.phase == GamePhase::PlayerPhase,
            s.ui.selected_entity is None,
            s.ui.move_state == MoveState::Idle,
            s.ui.chosen_enemy is None,
    {
        GameState {
            ui: UIState::default(),
            grids: Grids::default(),
            entities: ActorDirectory::new(),
            phase: GamePhase::PlayerPhase,
        }
    }
}

/// The place in `l` of the first unit that stands on `pos`, or the length of
/// `l` if none does.
pub open spec fn first_on(l: Seq<(ActorKey, Actor)>, pos: Position) -> int
    decreases l.len(),
{
    if l.len() == 0 {
        0
    } else if first_on(l.drop_last(), pos) < l.len() - 1 {
        first_on(l.drop_last(), pos)
    } else if l.last().1.pos == pos {
        l.len() - 1
    } else {
        l.len() as int
    }
}

/// `first_on` is the place of a unit on `pos` that no earlier unit shares the
/// cell with, or past the end if no unit stands there.
pub proof fn lemma_first_on(l: Seq<(ActorKey, Actor)>, pos: Position)
    ensures
        0 <= first_on(l, pos) <= l.len(),
        first_on(l, pos) < l.len() ==> l[first_on(l, pos)].1.pos == pos,
        forall|j: int| 0 <= j < first_on(l, pos) ==> (#[trigger] l[j]).1.pos != pos,
    decreases l.len(),
{
    if l.len() > 0 {
        lemma_first_on(l.drop_last(), pos);
        assert forall|j: int| 0 <= j < first_on(l, pos) implies (#[trigger] l[j]).1.pos != pos by {
            if j < l.len() - 1 {
                assert(l[j] == l.drop_last()[j]);
            }
        }
        if first_on(l.drop_last(), pos) < l.len() - 1 {
            assert(l[first_on(l, pos)] == l.drop_last()[first_on(l, pos)]);
        }
    }
}

/// The first unit in the walk of the directory that stands on `pos`.
pub fn actor_at_pos(s: &GameState, pos: Position) -> (r: Option<ActorKey>)
    ensures
        r is Some <==> first_on(s.entities@, pos) < s.entities@.len(),
        r is Some ==> r->0 == s.entities@[first_on(s.entities@, pos)].0,
{
    let all = s.entities.iter();
    let mut i: usize = 0;
    proof {
        assert(all@.take(0).len() == 0);
    }
    while i < all.len()
        invariant
            0 <= i <= all@.len(),
            all@ == s.entities@,
            first_on(all@.take(i as int), pos) == i,
        decreases all@.len() - i,
    {
        let (key, actor) = all[i];
        proof {
            assert(all@.take(i + 1).drop_last() =~= all@.take(i as int));
            assert(all@.take(i + 1).last() == all@[i as int]);
        }
        if actor.pos == pos {
            proof {
                lemma_first_on_stays(all@, pos, i + 1);
            }
            return Some(key);
        }
        i = i + 1;
    }
    proof {
        assert(all@.take(all@.len() as int) =~= all@);
    }
    None
}

/// Once a unit on `pos` is found among the first `n` units, it stays the
/// first however many more units follow.
proof fn lemma_first_on_stays(l: Seq<(ActorKey, Actor)>, pos: Position, n: int)
    requires
        0 <= n <= l.len(),
        first_on(l.take(n), pos) < n,
    ensures
        first_on(l, pos) == first_on(l.take(n), pos),
    decreases l.len() - n,
{
    if n < l.len() {
        assert(l.take(n + 1).drop_last() =~= l.take(n));
        lemma_first_on_stays(l, pos, n + 1);
    } else {
        assert(l.take(n) =~= l);
    }
}

/// Those units of `l` that stand on `cell` and do not belong to `team`, each
/// with the cell, in the order of `l`.
pub open spec fn foes_on(l: Seq<(ActorKey, Actor)>, cell: Position, team: Team) -> Seq<
    (ActorKey, Position),
>
    decreases l.len(),
{
    if l.len() == 0 {
        Seq::empty()
    } else if l.last().1.pos == cell && l.last().1.team != team {
        foes_on(l.drop_last(), cell, team).push((l.last().0, cell))
    } else {
        foes_on(l.drop_last(), cell, team)
    }
}

/// The units of `l` that stand on one of `cells` and do not belong to `team`,
/// cell by cell.
pub open spec fn foes_around(l: Seq<(ActorKey, Actor)>, cells: Seq<Position>, team: Team) -> Seq<
    (ActorKey, Position),
>
    decreases cells.len(),
{
    if cells.len() == 0 {
        Seq::empty()
    } else {
        foes_around(l, cells.drop_last(), team) + foes_on(l, cells.last(), team)
    }
}

/// The units of the other team that stand on a neighbouring cell of the unit
/// `me`, each with its cell: first those to the left, then those to the right,
/// below and above.
pub fn enemies_in_range(s: &GameState, me: ActorKey) -> (r: Vec<(ActorKey, Position)>)
    requires
        has_key(s.entities@, me),
    ensures
        distinct_keys(s.entities@),
        r@ == foes_around(
            s.entities@,
            neighbors_in(
                actor_of(s.entities@, me).pos,
                s.grids.ground.width as int,
                s.grids.ground.height as int,
            ),
            actor_of(s.entities@, me).team,
        ),
{
    let all = s.entities.iter();
    let mut r: Vec<(ActorKey, Position)> = Vec::new();
    let mine = match s.entities.get(me) {
        Some(a) => a,
        None => unreached(),
    };
    let cells = get_neighbors(mine.pos, &s.grids.ground);
    let mut c: usize = 0;
    proof {
        assert(cells@.take(0).len() == 0);
    }
    while c < cells.len()
        invariant
            0 <= c <= cells@.len(),
            all@ == s.entities@,
            r@ == foes_around(all@, cells@.take(c as int), mine.team),
        decreases cells@.len() - c,
    {
        let cell = cells[c];
        let ghost so_far = r@;
        let mut i: usize = 0;
        proof {
            assert(all@.take(0).len() == 0);
        }
        while i < all.len()
            invariant
                0 <= i <= all@.len(),
                r@ == so_far + foes_on(all@.take(i as int), cell, mine.team),
            decreases all@.len() - i,
        {
            let (key, actor) = all[i];
            proof {
                assert(all@.take(i + 1).drop_last() =~= all@.take(i as int));
                assert(all@.take(i + 1).last() == all@[i as int]);
            }
            if actor.pos == cell && actor.team != mine.team {
                r.push((key, cell));
            }
            proof {
                assert(r@ =~= so_far + foes_on(all@.take(i + 1), cell, mine.team));
            }
            i = i + 1;
        }
        proof {
            assert(all@.take(all@.len() as int) =~= all@);
            assert(cells@.take(c + 1).drop_last() =~= cells@.take(c as int));
            assert(cells@.take(c + 1).last() == cell);
        }
        c = c + 1;
    }
    proof {
        assert(cells@.take(cells@.len() as int) =~= cells@);
    }
    r
}

/// `foes_on` lists exactly the units of `l` that stand on `cell` and belong
/// to another team than `team`.
pub proof fn lemma_foes_on(l: Seq<(ActorKey, Actor)>, cell: Position, team: Team)
    ensures
        forall|key: ActorKey, c: Position|
            #![trigger foes_on(l, cell, team).contains((key, c))]
            foes_on(l, cell, team).contains((key, c)) <==> (c == cell && exists|i: int|
                0 <= i < l.len() && #[trigger] l[i].0 == key && l[i].1.pos == cell && l[i].1.team
                    != team),
    decreases l.len(),
{
    if l.len() > 0 {
        let front = l.drop_last();
        lemma_foes_on(front, cell, team);
        let found = foes_on(l, cell, team);
        let before = foes_on(front, cell, team);
        let counts = l.last().1.pos == cell && l.last().1.team != team;
        assert forall|key: ActorKey, c: Position|
            #![trigger found.contains((key, c))]
            found.contains((key, c)) implies (c == cell && exists|i: int|
            0 <= i < l.len() && #[trigger] l[i].0 == key && l[i].1.pos == cell && l[i].1.team
                != team) by {
            let n = choose|n: int| 0 <= n < found.len() && found[n] == (key, c);
            if counts && n == found.len() - 1 {
                assert(l[l.len() - 1].0 == key);
            } else {
                assert(before[n] == (key, c));
                assert(before.contains((key, c)));
                let i = choose|i: int|
                    0 <= i < front.len() && #[trigger] front[i].0 == key && front[i].1.pos == cell
                        && front[i].1.team != team;
                assert(l[i].0 == key);
            }
        }
        assert forall|key: ActorKey, c: Position|
            #![trigger found.contains((key, c))]
            (c == cell && exists|i: int|
                0 <= i < l.len() && #[trigger] l[i].0 == key && l[i].1.pos == cell && l[i].1.team
                    != team) implies found.contains((key, c)) by {
            let i = choose|i: int|
                0 <= i < l.len() && #[trigger] l[i].0 == key && l[i].1.pos == cell && l[i].1.team
                    != team;
            if i == l.len() - 1 {
                assert(found[found.len() - 1] == (key, c));
            } else {
                assert(front[i].0 == key);
                assert(before.contains((key, c)));
                let n = choose|n: int| 0 <= n < before.len() && before[n] == (key, c);
                assert(found[n] == (key, c));
            }
        }
    }
}

/// `foes_around` lists exactly the units of `l` that stand on one of `cells`
/// and belong to another team than `team`, each with its cell. Where no such
/// unit exists the list is empty.
pub proof fn lemma_foes_around(l: Seq<(ActorKey, Actor)>, cells: Seq<Position>, team: Team)
    ensures
        forall|key: ActorKey, c: Position|
            #![trigger foes_around(l, cells, team).contains((key, c))]
            foes_around(l, cells, team).contains((key, c)) <==> (cells.contains(c) && exists|
                i: int,
            |
                0 <= i < l.len() && #[trigger] l[i].0 == key && l[i].1.pos == c && l[i].1.team
                    != team),
        (forall|i: int|
            0 <= i < l.len() && (#[trigger] l[i]).1.team != team ==> !cells.contains(l[i].1.pos))
            ==> foes_around(l, cells, team).len() == 0,
    decreases cells.len(),
{
    let found = foes_around(l, cells, team);
    if cells.len() > 0 {
        let front = cells.drop_last();
        let cell = cells.last();
        lemma_foes_around(l, front, team);
        lemma_foes_on(l, cell, team);
        let before = foes_around(l, front, team);
        let here = foes_on(l, cell, team);
        assert(found == before + here);
        assert forall|key: ActorKey, c: Position|
            #![trigger found.contains((key, c))]
            found.contains((key, c)) implies (cells.contains(c) && exists|i: int|
            0 <= i < l.len() && #[trigger] l[i].0 == key && l[i].1.pos == c && l[i].1.team
                != team) by {
            let n = choose|n: int| 0 <= n < found.len() && found[n] == (key, c);
            if n < before.len() {
                assert(before[n] == (key, c));
                assert(before.contains((key, c)));
                let m = choose|m: int| 0 <= m < front.len() && front[m] == c;
                assert(cells[m] == c);
            } else {
                assert(here[n - before.len()] == (key, c));
                assert(here.contains((key, c)));
                assert(cells[cells.len() - 1] == c);
            }
        }
        assert forall|key: ActorKey, c: Position|
            #![trigger found.contains((key, c))]
            (cells.contains(c) && exists|i: int|
                0 <= i < l.len() && #[trigger] l[i].0 == key && l[i].1.pos == c && l[i].1.team
                    != team) implies found.contains((key, c)) by {
            let m = choose|m: int| 0 <= m < cells.len() && cells[m] == c;
            if m < cells.len() - 1 {
                assert(front[m] == c);
                assert(front.contains(c));
                assert(before.contains((key, c)));
                let n = choose|n: int| 0 <= n < before.len() && before[n] == (key, c);
                assert(found[n] == (key, c));
            } else {
                assert(here.contains((key, c)));
                let n = choose|n: int| 0 <= n < here.len() && here[n] == (key, c);
                assert(found[before.len() + n] == (key, c));
            }
        }
    }
    if forall|i: int|
        0 <= i < l.len() && (#[trigger] l[i]).1.team != team ==> !cells.contains(l[i].1.pos) {
        if found.len() > 0 {
            let e = found[0];
            assert(found.contains((e.0, e.1)));
            let i = choose|i: int|
                0 <= i < l.len() && #[trigger] l[i].0 == e.0 && l[i].1.pos == e.1 && l[i].1.team
                    != team;
            assert(!cells.contains(l[i].1.pos));
        }
    }
}

} // verus!

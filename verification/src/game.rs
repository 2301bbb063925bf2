use vstd::prelude::*;

verus! {

/// One cell of a level grid. `Wall`, `Floor` and `Target` describe the static
/// geometry; the remaining variants additionally record that a box or the
/// player currently occupies the cell.
#[derive(Clone, Copy, PartialEq, Eq, Structural, Debug)]
pub enum Tile {
    Wall,
    Floor,
    Target,
    Box,
    BoxOnTarget,
    Player,
    PlayerOnTarget,
}

/// A unit move of the player, each mapping to a (dx, dy) offset.
#[derive(Clone, Copy, PartialEq, Eq, Structural, Debug)]
pub enum Direction {
    Up,
    Down,
    Left,
    Right,
}

/// Column offset of a direction.
pub open spec fn dir_dx(d: Direction) -> int {
    match d {
        Direction::Up => 0,
        Direction::Down => 0,
        Direction::Left => -1,
        Direction::Right => 1,
    }
}

/// Row offset of a direction.
pub open spec fn dir_dy(d: Direction) -> int {
    match d {
        Direction::Up => -1,
        Direction::Down => 1,
        Direction::Left => 0,
        Direction::Right => 0,
    }
}

/// The direction that undoes a move of `d`.
pub open spec fn opposite(d: Direction) -> Direction {
    match d {
        Direction::Up => Direction::Down,
        Direction::Down => Direction::Up,
        Direction::Left => Direction::Right,
        Direction::Right => Direction::Left,
    }
}

/// The mathematical view of a grid: a sequence of rows of tiles. Rows may
/// have different lengths; all position checks are per row.
pub open spec fn grid_of(map: &Vec<Vec<Tile>>) -> Seq<Seq<Tile>> {
    Seq::new(map@.len(), |y: int| map@[y]@)
}

/// A coordinate pair lies on the grid: its row exists and its column lies
/// within that row.
pub open spec fn in_bounds(g: Seq<Seq<Tile>>, x: int, y: int) -> bool {
    0 <= y < g.len() && 0 <= x < g[y].len()
}

/// An `(x, y)` position lies on the grid.
pub open spec fn pos_in_bounds(g: Seq<Seq<Tile>>, p: (usize, usize)) -> bool {
    in_bounds(g, p.0 as int, p.1 as int)
}

/// The grid `g` with the cell at column `x`, row `y` replaced by `t`.
pub open spec fn set_cell(g: Seq<Seq<Tile>>, x: int, y: int, t: Tile) -> Seq<Seq<Tile>> {
    g.update(y, g[y].update(x, t))
}

/// The tile left behind when the player leaves a cell.
pub open spec fn vacated_tile(t: Tile) -> Tile {
    if t == Tile::PlayerOnTarget {
        Tile::Target
    } else {
        Tile::Floor
    }
}

/// What one player move does to a tile grid that carries box and player
/// markers in its cells: `None` when the move is blocked, otherwise the
/// updated grid and the new player position.
///
/// A step onto a free cell moves the player marker; a move into a box cell
/// pushes the box one cell further when that cell is free, and is blocked
/// otherwise.
pub open spec fn move_player_spec(g: Seq<Seq<Tile>>, pos: (usize, usize), d: Direction) -> Option<
    (Seq<Seq<Tile>>, (usize, usize)),
> {
    let px = pos.0 as int;
    let py = pos.1 as int;
    let nx = px + dir_dx(d);
    let ny = py + dir_dy(d);
    if !in_bounds(g, nx, ny) {
        None
    } else {
        let dest = g[ny][nx];
        if dest == Tile::Floor || dest == Tile::Target {
            let cleared = set_cell(g, px, py, vacated_tile(g[py][px]));
            let placed = set_cell(
                cleared,
                nx,
                ny,
                if dest == Tile::Target {
                    Tile::PlayerOnTarget
                } else {
                    Tile::Player
                },
            );
            Some((placed, (nx as usize, ny as usize)))
        } else if dest == Tile::Box || dest == Tile::BoxOnTarget {
            let bx = nx + dir_dx(d);
            let by = ny + dir_dy(d);
            if !in_bounds(g, bx, by) {
                None
            } else {
                let beyond = g[by][bx];
                if beyond == Tile::Floor || beyond == Tile::Target {
                    let cleared = set_cell(g, px, py, vacated_tile(g[py][px]));
                    let placed = set_cell(
                        cleared,
                        nx,
                        ny,
                        if dest == Tile::BoxOnTarget {
                            Tile::PlayerOnTarget
                        } else {
                            Tile::Player
                        },
                    );
                    let pushed = set_cell(
                        placed,
                        bx,
                        by,
                        if beyond == Tile::Target {
                            Tile::BoxOnTarget
                        } else {
                            Tile::Box
                        },
                    );
                    Some((pushed, (nx as usize, ny as usize)))
                } else {
                    None
                }
            }
        } else {
            None
        }
    }
}

/// No cell of the grid holds a box off a target.
pub open spec fn no_loose_box(g: Seq<Seq<Tile>>) -> bool {
    forall|y: int, x: int| in_bounds(g, x, y) ==> #[trigger] g[y][x] != Tile::Box
}

/// The position one cell away from `pos` in direction `d`, or `None` when it
/// falls off the grid.
pub fn step_from(map: &Vec<Vec<Tile>>, pos: (usize, usize), d: Direction) -> (r: Option<
    (usize, usize),
>)
    requires
        pos_in_bounds(grid_of(map), pos),
    ensures
        ({
            let nx = pos.0 + dir_dx(d);
            let ny = pos.1 + dir_dy(d);
            &&& (r is Some <==> in_bounds(grid_of(map), nx, ny))
            &&& (r matches Some(np) ==> np.0 == nx && np.1 == ny)
        }),
{
    let h = map.len();
    let w = map[pos.1].len();
    assert(pos.1 < h && pos.0 < w);
    let np: (usize, usize) = match d {
        Direction::Up => {
            if pos.1 == 0 {
                return None;
            }
            (pos.0, pos.1 - 1)
        },
        Direction::Down => (pos.0, pos.1 + 1),
        Direction::Left => {
            if pos.0 == 0 {
                return None;
            }
            (pos.0 - 1, pos.1)
        },
        Direction::Right => (pos.0 + 1, pos.1),
    };
    if np.1 >= map.len() {
        return None;
    }
    if np.0 >= map[np.1].len() {
        return None;
    }
    Some(np)
}

/// Writes one tile of the grid.
fn set_tile(map: &mut Vec<Vec<Tile>>, x: usize, y: usize, t: Tile)
    requires
        in_bounds(grid_of(old(map)), x as int, y as int),
    ensures
        grid_of(final(map)) == set_cell(grid_of(old(map)), x as int, y as int, t),
{
    let row = &mut map[y];
    row[x] = t;
    proof {
        assert(grid_of(map) =~~= set_cell(grid_of(old(map)), x as int, y as int, t));
    }
}

/// The interactive game state: the level number, the tile grid with its box
/// and player markers, the player position, and the number of moves made.
pub struct Game {
    pub level: usize,
    pub map: Vec<Vec<Tile>>,
    pub player_pos: (usize, usize),
    pub moves: u32,
}

impl Game {
    /// Whether every box sits on a target: no cell is a bare `Box`.
    pub fn is_win(&self) -> (win: bool)
        ensures
            win == no_loose_box(grid_of(&self.map)),
    {
        let ghost g = grid_of(&self.map);
        let mut y: usize = 0;
        while y < self.map.len()
            invariant
                y <= self.map.len(),
                g == grid_of(&self.map),
                forall|yy: int, xx: int|
                    0 <= yy < y && in_bounds(g, xx, yy) ==> #[trigger] g[yy][xx] != Tile::Box,
            decreases self.map.len() - y,
        {
            let row = &self.map[y];
            let mut x: usize = 0;
            while x < row.len()
                invariant
                    x <= row.len(),
                    y < self.map.len(),
                    g == grid_of(&self.map),
                    row@ == g[y as int],
                    forall|yy: int, xx: int|
                        0 <= yy < y && in_bounds(g, xx, yy) ==> #[trigger] g[yy][xx] != Tile::Box,
                    forall|xx: int| 0 <= xx < x ==> #[trigger] g[y as int][xx] != Tile::Box,
                decreases row.len() - x,
            {
                if row[x] == Tile::Box {
                    assert(in_bounds(g, x as int, y as int));
                    return false;
                }
                x = x + 1;
            }
            y = y + 1;
        }
        true
    }

    /// Attempts one player move, mutating the grid as `move_player_spec`
    /// describes, and reports whether the move was legal.
    pub fn move_player(&mut self, dir: Direction) -> (moved: bool)
        requires
            pos_in_bounds(grid_of(&old(self).map), old(self).player_pos),
            old(self).moves < u32::MAX,
        ensures
            moved == (move_player_spec(grid_of(&old(self).map), old(self).player_pos, dir)
                is Some),
            moved ==> (move_player_spec(grid_of(&old(self).map), old(self).player_pos, dir)
                matches Some(r) && grid_of(&final(self).map) == r.0 && final(self).player_pos
                == r.1),
            moved ==> final(self).moves == old(self).moves + 1,
            !moved ==> final(self).map@ == old(self).map@ && final(self).player_pos == old(
                self,
            ).player_pos && final(self).moves == old(self).moves,
            final(self).level == old(self).level,
    {
        let (px, py) = self.player_pos;
        let np = match step_from(&self.map, self.player_pos, dir) {
            None => {
                return false;
            },
            Some(p) => p,
        };
        let (nx, ny) = np;
        let dest = self.map[ny][nx];
        match dest {
            Tile::Wall => false,
            Tile::Floor | Tile::Target => {
                let was_on_target = self.map[py][px] == Tile::PlayerOnTarget;
                set_tile(
                    &mut self.map,
                    px,
                    py,
                    if was_on_target {
                        Tile::Target
                    } else {
                        Tile::Floor
                    },
                );
                set_tile(
                    &mut self.map,
                    nx,
                    ny,
                    if dest == Tile::Target {
                        Tile::PlayerOnTarget
                    } else {
                        Tile::Player
                    },
                );
                self.player_pos = (nx, ny);
                self.moves = self.moves + 1;
                true
            },
            Tile::Box | Tile::BoxOnTarget => {
                let bp = match step_from(&self.map, np, dir) {
                    None => {
                        return false;
                    },
                    Some(p) => p,
                };
                let (bx, by) = bp;
                let beyond = self.map[by][bx];
                match beyond {
                    Tile::Wall | Tile::Box | Tile::BoxOnTarget => false,
                    Tile::Floor | Tile::Target => {
                        let was_on_target = self.map[py][px] == Tile::PlayerOnTarget;
                        set_tile(
                            &mut self.map,
                            px,
                            py,
                            if was_on_target {
                                Tile::Target
                            } else {
                                Tile::Floor
                            },
                        );
                        set_tile(
                            &mut self.map,
                            nx,
                            ny,
                            if dest == Tile::BoxOnTarget {
                                Tile::PlayerOnTarget
                            } else {
                                Tile::Player
                            },
                        );
                        set_tile(
                            &mut self.map,
                            bx,
                            by,
                            if beyond == Tile::Target {
                                Tile::BoxOnTarget
                            } else {
                                Tile::Box
                            },
                        );
                        self.player_pos = (nx, ny);
                        self.moves = self.moves + 1;
                        true
                    },
                    _ => false,
                }
            },
            _ => false,
        }
    }
}

/// The tile a level-description character denotes; anything unknown is floor.
pub open spec fn tile_of_char(c: char) -> Tile {
    if c == '#' {
        Tile::Wall
    } else if c == '@' {
        Tile::Player
    } else if c == '$' {
        Tile::Box
    } else if c == '*' {
        Tile::BoxOnTarget
    } else if c == '+' {
        Tile::PlayerOnTarget
    } else if c == 'X' {
        Tile::Target
    } else {
        Tile::Floor
    }
}

/// A character that marks the player's starting cell.
pub open spec fn is_player_char(c: char) -> bool {
    c == '@' || c == '+'
}

/// The views of a sequence of level rows.
pub open spec fn rows_view(rows: Seq<&str>) -> Seq<Seq<char>> {
    Seq::new(rows.len(), |y: int| rows[y]@)
}

/// The grid decodes the given rows cell for cell.
pub open spec fn grid_matches_rows(rows: Seq<Seq<char>>, g: Seq<Seq<Tile>>) -> bool {
    &&& g.len() == rows.len()
    &&& forall|y: int| 0 <= y < rows.len() ==> #[trigger] g[y].len() == rows[y].len()
    &&& forall|y: int, x: int|
        0 <= y < rows.len() && 0 <= x < rows[y].len() ==> #[trigger] g[y][x] == tile_of_char(
            rows[y][x],
        )
}

/// Cell `(x, y)` is read after cell `(px, py)` in a row-major scan.
pub open spec fn later_in_scan(px: int, py: int, x: int, y: int) -> bool {
    y > py || (y == py && x > px)
}

/// Some cell of the rows carries a player mark.
pub open spec fn has_player_char(rows: Seq<Seq<char>>) -> bool {
    exists|y: int, x: int|
        0 <= y < rows.len() && 0 <= x < rows[y].len() && is_player_char(#[trigger] rows[y][x])
}

/// `p` is the player position the rows describe: the last player mark in a
/// row-major scan, or `(0, 0)` when the rows carry none.
pub open spec fn player_start_ok(rows: Seq<Seq<char>>, p: (usize, usize)) -> bool {
    if has_player_char(rows) {
        &&& (p.1 as int) < rows.len()
        &&& (p.0 as int) < rows[p.1 as int].len()
        &&& is_player_char(rows[p.1 as int][p.0 as int])
        &&& forall|y: int, x: int|
            0 <= y < rows.len() && 0 <= x < rows[y].len() && later_in_scan(
                p.0 as int,
                p.1 as int,
                x,
                y,
            ) ==> !is_player_char(#[trigger] rows[y][x])
    } else {
        p == (0usize, 0usize)
    }
}

/// Decodes level rows into a tile grid and the player's starting position.
fn parse_rows(rows: &Vec<&str>) -> (r: (Vec<Vec<Tile>>, (usize, usize)))
    ensures
        grid_matches_rows(rows_view(rows@), grid_of(&r.0)),
        player_start_ok(rows_view(rows@), r.1),
{
    let ghost rv = rows_view(rows@);
    let mut map: Vec<Vec<Tile>> = Vec::new();
    let mut player_pos: (usize, usize) = (0, 0);
    let mut found = false;
    let mut y: usize = 0;
    while y < rows.len()
        invariant
            y <= rows.len(),
            rv == rows_view(rows@),
            map@.len() == y,
            forall|yy: int| 0 <= yy < y ==> #[trigger] map@[yy]@.len() == rv[yy].len(),
            forall|yy: int, xx: int|
                0 <= yy < y && 0 <= xx < rv[yy].len() ==> #[trigger] map@[yy]@[xx] == tile_of_char(
                    rv[yy][xx],
                ),
            found ==> {
                &&& (player_pos.1 as int) < y
                &&& (player_pos.0 as int) < rv[player_pos.1 as int].len()
                &&& is_player_char(rv[player_pos.1 as int][player_pos.0 as int])
                &&& forall|yy: int, xx: int|
                    0 <= yy < y && 0 <= xx < rv[yy].len() && later_in_scan(
                        player_pos.0 as int,
                        player_pos.1 as int,
                        xx,
                        yy,
                    ) ==> !is_player_char(#[trigger] rv[yy][xx])
            },
            !found ==> {
                &&& player_pos == (0usize, 0usize)
                &&& forall|yy: int, xx: int|
                    0 <= yy < y && 0 <= xx < rv[yy].len() ==> !is_player_char(#[trigger] rv[yy][xx])
            },
        decreases rows.len() - y,
    {
        let row: &str = rows[y];
        let n = row.unicode_len();
        let mut map_row: Vec<Tile> = Vec::new();
        let mut x: usize = 0;
        while x < n
            invariant
                x <= n,
                y < rows.len(),
                rv == rows_view(rows@),
                row@ == rv[y as int],
                n == rv[y as int].len(),
                map@.len() == y,
                map_row@.len() == x,
                forall|yy: int| 0 <= yy < y ==> #[trigger] map@[yy]@.len() == rv[yy].len(),
                forall|yy: int, xx: int|
                    0 <= yy < y && 0 <= xx < rv[yy].len() ==> #[trigger] map@[yy]@[xx]
                        == tile_of_char(rv[yy][xx]),
                forall|xx: int|
                    0 <= xx < x ==> #[trigger] map_row@[xx] == tile_of_char(rv[y as int][xx]),
                found ==> {
                    &&& (player_pos.1 as int) <= y
                    &&& (player_pos.1 as int) < y || (player_pos.0 as int) < x
                    &&& (player_pos.0 as int) < rv[player_pos.1 as int].len()
                    &&& is_player_char(rv[player_pos.1 as int][player_pos.0 as int])
                    &&& forall|yy: int, xx: int|
                        0 <= yy < rows@.len() && 0 <= xx < rv[yy].len() && (yy < y || (yy == y && xx
                            < x)) && later_in_scan(
                            player_pos.0 as int,
                            player_pos.1 as int,
                            xx,
                            yy,
                        ) ==> !is_player_char(#[trigger] rv[yy][xx])
                },
                !found ==> {
                    &&& player_pos == (0usize, 0usize)
                    &&& forall|yy: int, xx: int|
                        0 <= yy < rows@.len() && 0 <= xx < rv[yy].len() && (yy < y || (yy == y && xx
                            < x)) ==> !is_player_char(#[trigger] rv[yy][xx])
                },
            decreases n - x,
        {
            let ch = row.get_char(x);
            let tile = if ch == '#' {
                Tile::Wall
            } else if ch == '@' {
                player_pos = (x, y);
                found = true;
                Tile::Player
            } else if ch == '$' {
                Tile::Box
            } else if ch == '*' {
                Tile::BoxOnTarget
            } else if ch == '+' {
                player_pos = (x, y);
                found = true;
                Tile::PlayerOnTarget
            } else if ch == 'X' {
                Tile::Target
            } else {
                Tile::Floor
            };
            map_row.push(tile);
            x = x + 1;
        }
        map.push(map_row);
        y = y + 1;
    }
    proof {
        if found {
            assert(has_player_char(rv));
        } else {
            if has_player_char(rv) {
                let (yy, xx) = choose|yy: int, xx: int|
                    0 <= yy < rv.len() && 0 <= xx < rv[yy].len() && is_player_char(
                        #[trigger] rv[yy][xx],
                    );
                assert(!is_player_char(rv[yy][xx]));
            }
        }
    }
    (map, player_pos)
}

/// The effective level number: an unknown level falls back to the first.
pub open spec fn effective_level(level: int) -> int {
    if level > 3 {
        1
    } else {
        level
    }
}

/// The built-in level descriptions, by effective level number.
pub open spec fn level_chars(level: int) -> Seq<Seq<char>> {
    if level == 2 {
        seq![
            "########"@,
            "#......#"@,
            "#.X.X..#"@,
            "#.@....#"@,
            "#.$.$..#"@,
            "#......#"@,
            "########"@,
        ]
    } else if level == 3 {
        seq![
            "########"@,
            "#......#"@,
            "#.X.X..#"@,
            "#......#"@,
            "#.@....#"@,
            "#.$.$..#"@,
            "#......#"@,
            "########"@,
        ]
    } else {
        seq!["#######"@, "#.X...#"@, "#.@...#"@, "#.$...#"@, "#.....#"@, "#######"@]
    }
}

impl Game {
    /// Builds the tile grid and player start of a built-in level; a level
    /// number past the last falls back to the first level.
    pub fn load_level(level: usize) -> (r: (Vec<Vec<Tile>>, (usize, usize)))
        requires
            1 <= level,
        ensures
            grid_matches_rows(level_chars(effective_level(level as int)), grid_of(&r.0)),
            player_start_ok(level_chars(effective_level(level as int)), r.1),
    {
        let lv: usize = if level > 3 {
            1
        } else {
            level
        };
        let rows: Vec<&str> = if lv == 2 {
            vec![
                "########",
                "#......#",
                "#.X.X..#",
                "#.@....#",
                "#.$.$..#",
                "#......#",
                "########",
            ]
        } else if lv == 3 {
            vec![
                "########",
                "#......#",
                "#.X.X..#",
                "#......#",
                "#.@....#",
                "#.$.$..#",
                "#......#",
                "########",
            ]
        } else {
            vec!["#######", "#.X...#", "#.@...#", "#.$...#", "#.....#", "#######"]
        };
        proof {
            assert(rows_view(rows@) =~~= level_chars(effective_level(level as int)));
        }
        parse_rows(&rows)
    }

    /// A fresh game on the given level, with no moves made yet.
    pub fn new(level: usize) -> (game: Game)
        requires
            1 <= level,
        ensures
            game.level == level,
            game.moves == 0,
            grid_matches_rows(level_chars(effective_level(level as int)), grid_of(&game.map)),
            player_start_ok(level_chars(effective_level(level as int)), game.player_pos),
    {
        let (map, player_pos) = Self::load_level(level);
        Game { level, map, player_pos, moves: 0 }
    }

    /// Reloads the current level and clears the move counter.
    pub fn reset(&mut self)
        requires
            1 <= old(self).level,
        ensures
            final(self).level == old(self).level,
            final(self).moves == 0,
            grid_matches_rows(
                level_chars(effective_level(old(self).level as int)),
                grid_of(&final(self).map),
            ),
            player_start_ok(
                level_chars(effective_level(old(self).level as int)),
                final(self).player_pos,
            ),
    {
        let (map, player_pos) = Self::load_level(self.level);
        self.map = map;
        self.player_pos = player_pos;
        self.moves = 0;
    }
}

} // verus!

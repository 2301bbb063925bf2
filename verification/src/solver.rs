use vstd::prelude::*;

use vstd::arithmetic::div_mod::lemma_fundamental_div_mod_converse;
use vstd::arithmetic::power::{lemma_pow_positive, pow};
use vstd::set_lib::{lemma_int_range, lemma_len_subset, set_int_range};

use crate::game::{
    Tile, Direction, dir_dx, dir_dy, grid_of, in_bounds, opposite, pos_in_bounds, step_from,
};

verus! {

// ---------------------------------------------------------------------------
// The search model: static geometry, box sets, and the transition relation.
// ---------------------------------------------------------------------------

/// A tile whose cell is a win condition.
pub open spec fn is_target_tile(t: Tile) -> bool {
    t == Tile::Target || t == Tile::BoxOnTarget || t == Tile::PlayerOnTarget
}

/// A tile whose cell initially holds a box.
pub open spec fn is_box_tile(t: Tile) -> bool {
    t == Tile::Box || t == Tile::BoxOnTarget
}

/// The cell at `p` is a win condition.
pub open spec fn target_pos(g: Seq<Seq<Tile>>, p: (usize, usize)) -> bool {
    pos_in_bounds(g, p) && is_target_tile(g[p.1 as int][p.0 as int])
}

/// The cell at `p` initially holds a box.
pub open spec fn box_pos(g: Seq<Seq<Tile>>, p: (usize, usize)) -> bool {
    pos_in_bounds(g, p) && is_box_tile(g[p.1 as int][p.0 as int])
}

/// The positions of the grid that are win conditions; fixed for a search.
pub open spec fn target_set(g: Seq<Seq<Tile>>) -> Set<(usize, usize)> {
    Set::new(|p: (usize, usize)| target_pos(g, p))
}

/// The positions of the grid that initially hold a box.
pub open spec fn box_set(g: Seq<Seq<Tile>>) -> Set<(usize, usize)> {
    Set::new(|p: (usize, usize)| box_pos(g, p))
}

/// A configuration wins when every box sits on a target.
pub open spec fn winning(boxes: Set<(usize, usize)>, targets: Set<(usize, usize)>) -> bool {
    boxes.subset_of(targets)
}

/// A cell the player or a box can never enter: off the grid, or a wall.
/// The grid boundary is treated exactly like a wall.
pub open spec fn blocked_cell(g: Seq<Seq<Tile>>, x: int, y: int) -> bool {
    !in_bounds(g, x, y) || g[y][x] == Tile::Wall
}

/// The transition model of the search: what one move in direction `d` does
/// to a configuration of player position and box set, or `None` when the
/// move is blocked.
///
/// Only walls and the box set decide legality; the box and player marks that
/// the grid's tiles may carry are ignored. A move into a free cell is a step
/// that leaves the boxes alone; a move into a box pushes that box one cell
/// further, and is blocked when that cell is blocked or holds another box.
pub open spec fn apply_move_spec(
    g: Seq<Seq<Tile>>,
    player: (usize, usize),
    boxes: Set<(usize, usize)>,
    d: Direction,
) -> Option<((usize, usize), Set<(usize, usize)>)> {
    let nx = player.0 + dir_dx(d);
    let ny = player.1 + dir_dy(d);
    if blocked_cell(g, nx, ny) {
        None
    } else {
        let np = (nx as usize, ny as usize);
        if !boxes.contains(np) {
            Some((np, boxes))
        } else {
            let bx = nx + dir_dx(d);
            let by = ny + dir_dy(d);
            if blocked_cell(g, bx, by) || boxes.contains((bx as usize, by as usize)) {
                None
            } else {
                Some((np, boxes.remove(np).insert((bx as usize, by as usize))))
            }
        }
    }
}

/// The configuration a sequence of moves leads to, or `None` as soon as one
/// of them is blocked.
pub open spec fn path_result(
    g: Seq<Seq<Tile>>,
    player: (usize, usize),
    boxes: Set<(usize, usize)>,
    path: Seq<Direction>,
) -> Option<((usize, usize), Set<(usize, usize)>)>
    decreases path.len(),
{
    if path.len() == 0 {
        Some((player, boxes))
    } else {
        match apply_move_spec(g, player, boxes, path[0]) {
            None => None,
            Some(c) => path_result(g, c.0, c.1, path.drop_first()),
        }
    }
}

/// The sequence of moves is legal from the given configuration and ends with
/// every box on a target.
pub open spec fn winning_path(
    g: Seq<Seq<Tile>>,
    player: (usize, usize),
    boxes: Set<(usize, usize)>,
    path: Seq<Direction>,
) -> bool {
    match path_result(g, player, boxes, path) {
        Some(c) => winning(c.1, target_set(g)),
        None => false,
    }
}

/// Some sequence of exactly `n` moves solves the configuration.
pub open spec fn solvable_in(
    g: Seq<Seq<Tile>>,
    player: (usize, usize),
    boxes: Set<(usize, usize)>,
    n: nat,
) -> bool {
    exists|path: Seq<Direction>| path.len() == n && winning_path(g, player, boxes, path)
}

/// Appending one move to a legal path applies `apply_move_spec` at its end.
pub proof fn lemma_path_snoc(
    g: Seq<Seq<Tile>>,
    player: (usize, usize),
    boxes: Set<(usize, usize)>,
    path: Seq<Direction>,
    d: Direction,
)
    requires
        path_result(g, player, boxes, path) is Some,
        apply_move_spec(
            g,
            (path_result(g, player, boxes, path)->0).0,
            (path_result(g, player, boxes, path)->0).1,
            d,
        ) is Some,
    ensures
        path_result(g, player, boxes, path.push(d)) == apply_move_spec(
            g,
            (path_result(g, player, boxes, path)->0).0,
            (path_result(g, player, boxes, path)->0).1,
            d,
        ),
    decreases path.len(),
{
    reveal_with_fuel(path_result, 3);
    if path.len() == 0 {
        assert(path_result(g, player, boxes, path) == Some((player, boxes)));
        assert(path.push(d)[0] == d);
        assert(path.push(d).drop_first() =~= Seq::<Direction>::empty());
        assert(path_result(g, player, boxes, path.push(d)) == apply_move_spec(
            g,
            player,
            boxes,
            d,
        ));
    } else {
        assert(apply_move_spec(g, player, boxes, path[0]) is Some);
        let c = apply_move_spec(g, player, boxes, path[0])->0;
        assert(path_result(g, player, boxes, path) == path_result(g, c.0, c.1, path.drop_first()));
        assert(path.push(d)[0] == path[0]);
        assert(path.push(d).drop_first() =~= path.drop_first().push(d));
        lemma_path_snoc(g, c.0, c.1, path.drop_first(), d);
        assert(path_result(g, player, boxes, path.push(d)) == path_result(
            g,
            c.0,
            c.1,
            path.push(d).drop_first(),
        ));
    }
}

/// A plain step — a legal move that enters a cell without a box — is undone
/// exactly by the opposite move: the player returns to where it stood and
/// the boxes never changed. (A push has no such inverse: the pushed box
/// stays where it went.)
pub proof fn lemma_step_inverse(
    g: Seq<Seq<Tile>>,
    player: (usize, usize),
    boxes: Set<(usize, usize)>,
    d: Direction,
)
    requires
        grid_dims_ok(g),
        !blocked_cell(g, player.0 as int, player.1 as int),
        !boxes.contains(player),
        apply_move_spec(g, player, boxes, d) is Some,
        !boxes.contains((apply_move_spec(g, player, boxes, d)->0).0),
    ensures
        apply_move_spec(g, player, boxes, d)->0 == ((apply_move_spec(g, player, boxes, d)->0).0, boxes),
        apply_move_spec(
            g,
            (apply_move_spec(g, player, boxes, d)->0).0,
            boxes,
            opposite(d),
        ) == Some((player, boxes)),
{
    let nx = player.0 + dir_dx(d);
    let ny = player.1 + dir_dy(d);
    let np = (nx as usize, ny as usize);
    assert(!blocked_cell(g, nx, ny));
    assert(np.0 == nx && np.1 == ny);
    assert(np.0 + dir_dx(opposite(d)) == player.0 as int);
    assert(np.1 + dir_dy(opposite(d)) == player.1 as int);
}

// ---------------------------------------------------------------------------
// Sorted, duplicate-free position vectors: the canonical box representation.
// ---------------------------------------------------------------------------

/// Strict lexicographic order on positions, as Rust orders pairs.
pub open spec fn pos_lt(a: (usize, usize), b: (usize, usize)) -> bool {
    a.0 < b.0 || (a.0 == b.0 && a.1 < b.1)
}

/// Non-strict lexicographic order on positions.
pub open spec fn pos_le(a: (usize, usize), b: (usize, usize)) -> bool {
    pos_lt(a, b) || a == b
}

/// The sequence is sorted by `pos_le`.
pub open spec fn sorted_positions(s: Seq<(usize, usize)>) -> bool {
    forall|i: int, j: int| 0 <= i < j < s.len() ==> pos_le(#[trigger] s[i], #[trigger] s[j])
}

/// Strict lexicographic comparison of two positions.
fn pos_lt_exec(a: (usize, usize), b: (usize, usize)) -> (r: bool)
    ensures
        r == pos_lt(a, b),
{
    a.0 < b.0 || (a.0 == b.0 && a.1 < b.1)
}

/// Whether the vector holds the given position.
fn contains_pos(v: &Vec<(usize, usize)>, p: (usize, usize)) -> (r: bool)
    ensures
        r == v@.contains(p),
{
    let mut i: usize = 0;
    while i < v.len()
        invariant
            i <= v.len(),
            forall|k: int| 0 <= k < i ==> v@[k] != p,
        decreases v.len() - i,
    {
        if v[i].0 == p.0 && v[i].1 == p.1 {
            assert(v@[i as int] == p);
            return true;
        }
        i = i + 1;
    }
    assert(!v@.contains(p));
    false
}

/// A copy of a position vector.
fn clone_positions(v: &Vec<(usize, usize)>) -> (r: Vec<(usize, usize)>)
    ensures
        r@ == v@,
{
    let mut r: Vec<(usize, usize)> = Vec::new();
    let mut i: usize = 0;
    while i < v.len()
        invariant
            i <= v.len(),
            r@ =~= v@.subrange(0, i as int),
        decreases v.len() - i,
    {
        r.push(v[i]);
        i = i + 1;
    }
    proof {
        assert(r@ =~= v@);
    }
    r
}

/// Removes the (single) occurrence of `p` from a sorted duplicate-free
/// position vector.
fn remove_pos(v: &mut Vec<(usize, usize)>, p: (usize, usize))
    requires
        sorted_positions(old(v)@),
        old(v)@.no_duplicates(),
        old(v)@.contains(p),
    ensures
        sorted_positions(final(v)@),
        final(v)@.no_duplicates(),
        final(v)@.to_set() == old(v)@.to_set().remove(p),
        final(v)@.len() == old(v)@.len() - 1,
{
    let ghost s = v@;
    let mut i: usize = 0;
    while i < v.len() && !(v[i].0 == p.0 && v[i].1 == p.1)
        invariant
            i <= v.len(),
            v@ == s,
            forall|k: int| 0 <= k < i ==> v@[k] != p,
        decreases v.len() - i,
    {
        i = i + 1;
    }
    assert(i < v.len() && v@[i as int] == p) by {
        if i == v@.len() {
            assert(!s.contains(p));
        }
    }
    v.remove(i);
    proof {
        s.remove_ensures(i as int);
        assert(final(v)@ == v@);
        assert forall|a: (usize, usize)| v@.to_set().contains(a) implies s.to_set().remove(
            p,
        ).contains(a) by {
            let k = choose|k: int| 0 <= k < v@.len() && v@[k] == a;
            if k < i {
                assert(s[k] == a);
                assert(s.contains(a));
            } else {
                assert(s[k + 1] == a);
                assert(s.contains(a));
            }
            assert(a != p);
        }
        assert forall|a: (usize, usize)| s.to_set().remove(p).contains(a) implies v@
            .to_set().contains(a) by {
            let k = choose|k: int| 0 <= k < s.len() && s[k] == a;
            if k < i {
                assert(v@[k] == a);
            } else {
                assert(k != i);
                assert(v@[k - 1] == a);
            }
            assert(v@.contains(a));
        }
        assert(v@.to_set() =~= s.to_set().remove(p));
    }
}

/// Inserts a fresh position into a sorted duplicate-free position vector,
/// keeping it sorted.
fn insert_pos_sorted(v: &mut Vec<(usize, usize)>, p: (usize, usize))
    requires
        sorted_positions(old(v)@),
        old(v)@.no_duplicates(),
        !old(v)@.contains(p),
    ensures
        sorted_positions(final(v)@),
        final(v)@.no_duplicates(),
        final(v)@.to_set() == old(v)@.to_set().insert(p),
        final(v)@.len() == old(v)@.len() + 1,
{
    let ghost s = v@;
    let mut j: usize = 0;
    while j < v.len() && pos_lt_exec(v[j], p)
        invariant
            j <= v.len(),
            v@ == s,
            forall|k: int| 0 <= k < j ==> pos_lt(#[trigger] s[k], p),
        decreases v.len() - j,
    {
        j = j + 1;
    }
    assert(forall|k: int| j <= k < s.len() ==> pos_le(p, #[trigger] s[k])) by {
        if j < s.len() {
            assert(!pos_lt(s[j as int], p));
            assert(s[j as int] != p);
        }
    }
    v.insert(j, p);
    proof {
        s.insert_ensures(j as int, p);
        assert(sorted_positions(v@)) by {
            assert forall|a: int, b: int| 0 <= a < b < v@.len() implies pos_le(
                #[trigger] v@[a],
                #[trigger] v@[b],
            ) by {
                if a < j && b < j {
                } else if a < j && b == j {
                } else if a < j && b > j {
                } else if a == j {
                    assert(v@[b] == s[b - 1]);
                } else {
                    assert(v@[a] == s[a - 1]);
                    assert(v@[b] == s[b - 1]);
                }
            }
        }
        assert(v@.no_duplicates()) by {
            assert forall|a: int, b: int|
                0 <= a < v@.len() && 0 <= b < v@.len() && a != b implies #[trigger] v@[a]
                != #[trigger] v@[b] by {
                if a != j && b != j {
                } else if a == j {
                    assert(v@[a] == p);
                    if b < j {
                        assert(v@[b] == s[b]);
                        assert(s.contains(s[b]));
                    } else {
                        assert(v@[b] == s[b - 1]);
                        assert(s.contains(s[b - 1]));
                    }
                } else {
                    assert(v@[b] == p);
                    if a < j {
                        assert(v@[a] == s[a]);
                        assert(s.contains(s[a]));
                    } else {
                        assert(v@[a] == s[a - 1]);
                        assert(s.contains(s[a - 1]));
                    }
                }
            }
        }
        assert forall|a: (usize, usize)| v@.to_set().contains(a) implies s.to_set().insert(
            p,
        ).contains(a) by {
            let k = choose|k: int| 0 <= k < v@.len() && v@[k] == a;
            if k < j {
                assert(s[k] == a);
                assert(s.contains(a));
            } else if k == j {
            } else {
                assert(s[k - 1] == a);
                assert(s.contains(a));
            }
        }
        assert forall|a: (usize, usize)| s.to_set().insert(p).contains(a) implies v@
            .to_set().contains(a) by {
            if a == p {
                assert(v@[j as int] == p);
                assert(v@.contains(a));
            } else {
                let k = choose|k: int| 0 <= k < s.len() && s[k] == a;
                if k < j {
                    assert(v@[k] == a);
                } else {
                    assert(v@[k + 1] == a);
                }
                assert(v@.contains(a));
            }
        }
        assert(v@.to_set() =~= s.to_set().insert(p));
    }
}

// ---------------------------------------------------------------------------
// The executable transition model.
// ---------------------------------------------------------------------------

/// Applies one move of the search's transition model: `None` when the move
/// is blocked, otherwise the new player position and the new canonical
/// (sorted, duplicate-free) box vector.
pub fn apply_move(
    map: &Vec<Vec<Tile>>,
    player: (usize, usize),
    boxes: &Vec<(usize, usize)>,
    dir: Direction,
) -> (r: Option<((usize, usize), Vec<(usize, usize)>)>)
    requires
        pos_in_bounds(grid_of(map), player),
        sorted_positions(boxes@),
        boxes@.no_duplicates(),
    ensures
        (r is Some) == (apply_move_spec(grid_of(map), player, boxes@.to_set(), dir) is Some),
        r matches Some((np, nb)) ==> (apply_move_spec(grid_of(map), player, boxes@.to_set(), dir)
            matches Some(c) && np == c.0 && nb@.to_set() == c.1 && sorted_positions(nb@)
            && nb@.no_duplicates() && nb@.len() == boxes@.len()),
{
    let ghost g = grid_of(map);
    let np = match step_from(map, player, dir) {
        None => {
            return None;
        },
        Some(p) => p,
    };
    if map[np.1][np.0] == Tile::Wall {
        return None;
    }
    assert(!blocked_cell(g, player.0 + dir_dx(dir), player.1 + dir_dy(dir)));
    if !contains_pos(boxes, np) {
        let nb = clone_positions(boxes);
        return Some((np, nb));
    }
    let bp = match step_from(map, np, dir) {
        None => {
            return None;
        },
        Some(p) => p,
    };
    if map[bp.1][bp.0] == Tile::Wall {
        return None;
    }
    if contains_pos(boxes, bp) {
        return None;
    }
    assert(!blocked_cell(g, np.0 + dir_dx(dir), np.1 + dir_dy(dir)));
    let mut nb = clone_positions(boxes);
    remove_pos(&mut nb, np);
    proof {
        assert(!nb@.to_set().contains(bp));
        if nb@.contains(bp) {
            assert(nb@.to_set().contains(bp));
        }
    }
    insert_pos_sorted(&mut nb, bp);
    Some((np, nb))
}

// ---------------------------------------------------------------------------
// Deriving the search inputs from a grid.
// ---------------------------------------------------------------------------

/// A cell `(x, y)` of the grid was scanned before reaching column `x0` of
/// row `y0` in a row-major scan.
pub open spec fn scanned_before(x: int, y: int, x0: int, y0: int) -> bool {
    y < y0 || (y == y0 && x < x0)
}

/// The cell at `p` carries the wanted mark: boxes when `want_boxes`,
/// targets otherwise.
pub open spec fn marked_pos(g: Seq<Seq<Tile>>, p: (usize, usize), want_boxes: bool) -> bool {
    if want_boxes {
        box_pos(g, p)
    } else {
        target_pos(g, p)
    }
}

/// The set `collect_marked` gathers: the grid's boxes or its targets.
pub open spec fn marked_set(g: Seq<Seq<Tile>>, want_boxes: bool) -> Set<(usize, usize)> {
    if want_boxes {
        box_set(g)
    } else {
        target_set(g)
    }
}

/// Collects every marked position of the grid in row-major order, without
/// duplicates: the initial boxes when `want_boxes`, the targets otherwise.
fn collect_marked(map: &Vec<Vec<Tile>>, want_boxes: bool) -> (r: Vec<(usize, usize)>)
    ensures
        r@.to_set() == marked_set(grid_of(map), want_boxes),
        r@.no_duplicates(),
{
    let ghost g = grid_of(map);
    let mut r: Vec<(usize, usize)> = Vec::new();
    let mut y: usize = 0;
    while y < map.len()
        invariant
            y <= map.len(),
            g == grid_of(map),
            r@.no_duplicates(),
            forall|k: int|
                0 <= k < r@.len() ==> marked_pos(g, #[trigger] r@[k], want_boxes)
                    && scanned_before(r@[k].0 as int, r@[k].1 as int, 0, y as int),
            forall|p: (usize, usize)|
                #[trigger] marked_pos(g, p, want_boxes) && scanned_before(
                    p.0 as int,
                    p.1 as int,
                    0,
                    y as int,
                ) ==> r@.contains(p),
        decreases map.len() - y,
    {
        let row_len = map[y].len();
        let mut x: usize = 0;
        while x < row_len
            invariant
                x <= row_len,
                y < map.len(),
                g == grid_of(map),
                row_len == g[y as int].len(),
                r@.no_duplicates(),
                forall|k: int|
                    0 <= k < r@.len() ==> marked_pos(g, #[trigger] r@[k], want_boxes)
                        && scanned_before(r@[k].0 as int, r@[k].1 as int, x as int, y as int),
                forall|p: (usize, usize)|
                    #[trigger] marked_pos(g, p, want_boxes) && scanned_before(
                        p.0 as int,
                        p.1 as int,
                        x as int,
                        y as int,
                    ) ==> r@.contains(p),
            decreases row_len - x,
        {
            let t = map[y][x];
            let hit = if want_boxes {
                t == Tile::Box || t == Tile::BoxOnTarget
            } else {
                t == Tile::Target || t == Tile::BoxOnTarget || t == Tile::PlayerOnTarget
            };
            let ghost old_r = r@;
            proof {
                assert(g[y as int][x as int] == t);
                assert(hit == marked_pos(g, (x, y), want_boxes));
            }
            if hit {
                proof {
                    assert(!old_r.contains((x, y))) by {
                        if old_r.contains((x, y)) {
                            let k = choose|k: int| 0 <= k < old_r.len() && old_r[k] == (x, y);
                            assert(marked_pos(g, old_r[k], want_boxes));
                            assert(scanned_before(x as int, y as int, x as int, y as int));
                        }
                    }
                    lemma_push_fresh(old_r, (x, y));
                }
                r.push((x, y));
            }
            proof {
                assert forall|k: int| 0 <= k < r@.len() implies marked_pos(
                    g,
                    #[trigger] r@[k],
                    want_boxes,
                ) && scanned_before(r@[k].0 as int, r@[k].1 as int, x + 1, y as int) by {
                    if k < old_r.len() {
                        assert(r@[k] == old_r[k]);
                    } else {
                        assert(r@[k] == (x, y));
                    }
                }
                assert forall|p: (usize, usize)|
                    #[trigger] marked_pos(g, p, want_boxes) && scanned_before(
                        p.0 as int,
                        p.1 as int,
                        x + 1,
                        y as int,
                    ) implies r@.contains(p) by {
                    if p.1 as int == y as int && p.0 as int == x as int {
                        assert(p == (x, y));
                        assert(r@[r@.len() - 1] == p);
                    } else {
                        assert(scanned_before(p.0 as int, p.1 as int, x as int, y as int));
                        assert(old_r.contains(p));
                        let k = choose|k: int| 0 <= k < old_r.len() && old_r[k] == p;
                        assert(r@[k] == p);
                    }
                }
            }
            x = x + 1;
        }
        proof {
            assert forall|p: (usize, usize)|
                #[trigger] marked_pos(g, p, want_boxes) && scanned_before(
                    p.0 as int,
                    p.1 as int,
                    0,
                    y + 1,
                ) implies r@.contains(p) by {
                if p.1 as int == y as int {
                    assert((p.0 as int) < g[y as int].len());
                    assert(scanned_before(p.0 as int, p.1 as int, row_len as int, y as int));
                } else {
                    assert(scanned_before(p.0 as int, p.1 as int, row_len as int, y as int));
                }
            }
        }
        y = y + 1;
    }
    proof {
        assert forall|p: (usize, usize)|
            r@.to_set().contains(p) == #[trigger] marked_set(g, want_boxes).contains(p) by {
            assert(marked_set(g, want_boxes).contains(p) == marked_pos(g, p, want_boxes));
            assert(r@.to_set().contains(p) == r@.contains(p));
            if r@.contains(p) {
                let k = choose|k: int| 0 <= k < r@.len() && r@[k] == p;
                assert(marked_pos(g, r@[k], want_boxes));
            }
            if marked_pos(g, p, want_boxes) {
                assert((p.1 as int) < g.len());
                assert(scanned_before(p.0 as int, p.1 as int, 0, map@.len() as int));
            }
        }
        assert(r@.to_set() =~= marked_set(g, want_boxes));
    }
    r
}

/// Pushing an element a sequence does not hold keeps it duplicate-free.
proof fn lemma_push_fresh(s: Seq<(usize, usize)>, a: (usize, usize))
    requires
        s.no_duplicates(),
        !s.contains(a),
    ensures
        s.push(a).no_duplicates(),
{
    assert forall|i: int, j: int|
        0 <= i < s.push(a).len() && 0 <= j < s.push(a).len() && i != j implies #[trigger] s.push(
        a,
    )[i] != #[trigger] s.push(a)[j] by {
        if i < s.len() && j < s.len() {
            assert(s.push(a)[i] == s[i]);
            assert(s.push(a)[j] == s[j]);
        } else if i == s.len() {
            assert(s.push(a)[i] == a);
            assert(s.push(a)[j] == s[j]);
            assert(s.contains(s[j]));
        } else {
            assert(s.push(a)[j] == a);
            assert(s.push(a)[i] == s[i]);
            assert(s.contains(s[i]));
        }
    }
}

/// Sorts a duplicate-free position vector into canonical order.
fn sort_positions(v: &mut Vec<(usize, usize)>)
    requires
        old(v)@.no_duplicates(),
    ensures
        sorted_positions(final(v)@),
        final(v)@.no_duplicates(),
        final(v)@.to_set() == old(v)@.to_set(),
        final(v)@.len() == old(v)@.len(),
{
    let ghost s = v@;
    let mut out: Vec<(usize, usize)> = Vec::new();
    let mut i: usize = 0;
    while i < v.len()
        invariant
            i <= v.len(),
            v@ == s,
            s.no_duplicates(),
            sorted_positions(out@),
            out@.no_duplicates(),
            out@.len() == i,
            forall|k: int| 0 <= k < i ==> out@.contains(#[trigger] s[k]),
            forall|k: int|
                0 <= k < out@.len() ==> exists|j: int| 0 <= j < i && s[j] == #[trigger] out@[k],
        decreases v.len() - i,
    {
        let ghost old_out = out@;
        proof {
            assert(!old_out.contains(s[i as int])) by {
                if old_out.contains(s[i as int]) {
                    let k = choose|k: int| 0 <= k < old_out.len() && old_out[k] == s[i as int];
                    let j = choose|j: int| 0 <= j < i && s[j] == old_out[k];
                    assert(s[j] == s[i as int]);
                }
            }
        }
        insert_pos_sorted(&mut out, v[i]);
        i = i + 1;
        proof {
            assert(out@.to_set() == old_out.to_set().insert(s[i - 1]));
            assert forall|k: int| 0 <= k < i implies out@.contains(#[trigger] s[k]) by {
                if k < i - 1 {
                    assert(old_out.contains(s[k]));
                    assert(old_out.to_set().contains(s[k]));
                    assert(out@.to_set().contains(s[k]));
                } else {
                    assert(out@.to_set().contains(s[k]));
                }
                assert(out@.contains(s[k]));
            }
            assert forall|k: int| 0 <= k < out@.len() implies exists|j: int|
                0 <= j < i && s[j] == #[trigger] out@[k] by {
                assert(out@.contains(out@[k]));
                assert(out@.to_set().contains(out@[k]));
                if out@[k] == s[i - 1] {
                    assert(0 <= i - 1 < i && s[i - 1] == out@[k]);
                } else {
                    assert(old_out.to_set().contains(out@[k]));
                    assert(old_out.contains(out@[k]));
                    let k2 = choose|k2: int| 0 <= k2 < old_out.len() && old_out[k2] == out@[k];
                    let j = choose|j: int| 0 <= j < i - 1 && s[j] == old_out[k2];
                    assert(0 <= j < i && s[j] == out@[k]);
                }
            }
        }
    }
    proof {
        assert forall|a: (usize, usize)|
            out@.to_set().contains(a) == #[trigger] s.to_set().contains(a) by {
            assert(out@.to_set().contains(a) == out@.contains(a));
            assert(s.to_set().contains(a) == s.contains(a));
            if out@.contains(a) {
                let k = choose|k: int| 0 <= k < out@.len() && out@[k] == a;
                let j = choose|j: int| 0 <= j < s.len() && s[j] == #[trigger] out@[k];
                assert(s.contains(a));
            }
            if s.contains(a) {
                let j = choose|j: int| 0 <= j < s.len() && s[j] == a;
                assert(out@.contains(s[j]));
            }
        }
        assert(out@.to_set() =~= s.to_set());
    }
    *v = out;
}


// ---------------------------------------------------------------------------
// Corner deadlock detection.
// ---------------------------------------------------------------------------

/// A box on `p` can never move again and `p` is no target: the cell has
/// walls (or the grid boundary) on two orthogonally adjacent sides.
pub open spec fn corner_deadlock_spec(
    g: Seq<Seq<Tile>>,
    p: (usize, usize),
    targets: Set<(usize, usize)>,
) -> bool {
    let x = p.0 as int;
    let y = p.1 as int;
    &&& !targets.contains(p)
    &&& {
        ||| (blocked_cell(g, x, y - 1) && blocked_cell(g, x - 1, y))
        ||| (blocked_cell(g, x, y - 1) && blocked_cell(g, x + 1, y))
        ||| (blocked_cell(g, x, y + 1) && blocked_cell(g, x - 1, y))
        ||| (blocked_cell(g, x, y + 1) && blocked_cell(g, x + 1, y))
    }
}

/// Conservative static deadlock test for a box freshly pushed onto
/// `(x, y)`: true when that cell is no target and sits in a wall corner.
/// The grid boundary counts as a wall; boxes never do.
pub fn is_corner_deadlock(
    map: &Vec<Vec<Tile>>,
    x: usize,
    y: usize,
    targets: &Vec<(usize, usize)>,
) -> (r: bool)
    requires
        in_bounds(grid_of(map), x as int, y as int),
    ensures
        r == corner_deadlock_spec(grid_of(map), (x, y), targets@.to_set()),
{
    let ghost g = grid_of(map);
    if contains_pos(targets, (x, y)) {
        return false;
    }
    let h = map.len();
    let w = map[y].len();
    assert(y < h && x < w);
    let up = y == 0 || x >= map[y - 1].len() || map[y - 1][x] == Tile::Wall;
    let down = y + 1 >= h || x >= map[y + 1].len() || map[y + 1][x] == Tile::Wall;
    let left = x == 0 || map[y][x - 1] == Tile::Wall;
    let right = x + 1 >= w || map[y][x + 1] == Tile::Wall;
    proof {
        assert(up == blocked_cell(g, x as int, y - 1));
        assert(down == blocked_cell(g, x as int, y + 1));
        assert(left == blocked_cell(g, x - 1, y as int));
        assert(right == blocked_cell(g, x + 1, y as int));
    }
    (up && left) || (up && right) || (down && left) || (down && right)
}

// ---------------------------------------------------------------------------
// Canonical state keys for the visited set.
// ---------------------------------------------------------------------------

/// The canonical key of a search configuration: the player position and the
/// sorted box vector, without the move count.
pub struct StateKey {
    pub player: (usize, usize),
    pub boxes: Vec<(usize, usize)>,
}

/// Two keys denote the same configuration.
pub open spec fn key_eq(a: StateKey, b: StateKey) -> bool {
    a.player == b.player && a.boxes@ == b.boxes@
}

/// Builds the canonical key of a configuration.
pub fn get_state_key(player: (usize, usize), boxes: &Vec<(usize, usize)>) -> (k: StateKey)
    ensures
        k.player == player,
        k.boxes@ == boxes@,
{
    StateKey { player, boxes: clone_positions(boxes) }
}

/// Structural comparison of two keys.
fn keys_match(a: &StateKey, b: &StateKey) -> (r: bool)
    ensures
        r == key_eq(*a, *b),
{
    if a.player.0 != b.player.0 || a.player.1 != b.player.1 {
        return false;
    }
    if a.boxes.len() != b.boxes.len() {
        assert(a.boxes@ != b.boxes@);
        return false;
    }
    let mut i: usize = 0;
    while i < a.boxes.len()
        invariant
            i <= a.boxes@.len(),
            a.boxes@.len() == b.boxes@.len(),
            forall|k: int| 0 <= k < i ==> a.boxes@[k] == b.boxes@[k],
        decreases a.boxes@.len() - i,
    {
        if a.boxes[i].0 != b.boxes[i].0 || a.boxes[i].1 != b.boxes[i].1 {
            assert(a.boxes@[i as int] != b.boxes@[i as int]);
            return false;
        }
        i = i + 1;
    }
    proof {
        assert(a.boxes@ =~= b.boxes@);
    }
    true
}

/// Whether the visited set already holds a key of the same configuration.
fn visited_contains(visited: &Vec<StateKey>, k: &StateKey) -> (r: bool)
    ensures
        r == exists|i: int| 0 <= i < visited@.len() && key_eq(#[trigger] visited@[i], *k),
{
    let mut i: usize = 0;
    while i < visited.len()
        invariant
            i <= visited@.len(),
            forall|j: int| 0 <= j < i ==> !key_eq(#[trigger] visited@[j], *k),
        decreases visited@.len() - i,
    {
        if keys_match(&visited[i], k) {
            assert(key_eq(visited@[i as int], *k));
            return true;
        }
        i = i + 1;
    }
    false
}

/// Whether every box of the vector sits on one of the targets.
fn all_on_targets(boxes: &Vec<(usize, usize)>, targets: &Vec<(usize, usize)>) -> (r: bool)
    ensures
        r == boxes@.to_set().subset_of(targets@.to_set()),
{
    let mut i: usize = 0;
    while i < boxes.len()
        invariant
            i <= boxes@.len(),
            forall|k: int| 0 <= k < i ==> targets@.contains(#[trigger] boxes@[k]),
        decreases boxes@.len() - i,
    {
        if !contains_pos(targets, boxes[i]) {
            proof {
                assert(boxes@.to_set().contains(boxes@[i as int]));
                assert(!targets@.to_set().contains(boxes@[i as int]));
            }
            return false;
        }
        i = i + 1;
    }
    proof {
        assert forall|a: (usize, usize)| #[trigger]
            boxes@.to_set().contains(a) implies targets@.to_set().contains(a) by {
            let k = choose|k: int| 0 <= k < boxes@.len() && boxes@[k] == a;
            assert(targets@.contains(boxes@[k]));
        }
    }
    true
}

/// The outcome of a search: whether the level is solvable, and when it is,
/// the minimal number of player moves.
pub struct SolveResult {
    pub solvable: bool,
    pub min_steps: Option<u32>,
}

// ---------------------------------------------------------------------------
// A bound on the number of distinct configurations, which makes the breadth-
// first search terminate: every canonical key encodes injectively into a
// bounded range of integers.
// ---------------------------------------------------------------------------

/// The length of the grid's widest row.
pub open spec fn max_width(g: Seq<Seq<Tile>>) -> int
    decreases g.len(),
{
    if g.len() == 0 {
        0
    } else {
        let rest = max_width(g.drop_last());
        if g.last().len() > rest {
            g.last().len() as int
        } else {
            rest
        }
    }
}

/// An upper bound on the number of cells: every position of the grid
/// encodes below it.
pub open spec fn cell_count(g: Seq<Seq<Tile>>) -> int {
    g.len() * max_width(g)
}

/// Every row is at most as long as the widest one.
proof fn lemma_row_le_max_width(g: Seq<Seq<Tile>>, y: int)
    requires
        0 <= y < g.len(),
    ensures
        max_width(g) >= 0,
        g[y].len() <= max_width(g),
    decreases g.len(),
{
    if y == g.len() - 1 {
        if g.len() > 1 {
            lemma_row_le_max_width(g.drop_last(), 0);
        }
    } else {
        lemma_row_le_max_width(g.drop_last(), y);
        assert(g.drop_last()[y] == g[y]);
    }
}

/// The integer a position encodes to.
pub open spec fn encode_pos(g: Seq<Seq<Tile>>, p: (usize, usize)) -> int {
    p.1 * max_width(g) + p.0
}

/// A position on the grid encodes into `[0, cell_count(g))`.
proof fn lemma_encode_pos_bounds(g: Seq<Seq<Tile>>, p: (usize, usize))
    requires
        pos_in_bounds(g, p),
    ensures
        0 <= encode_pos(g, p) < cell_count(g),
{
    lemma_row_le_max_width(g, p.1 as int);
    let w = max_width(g);
    let h = g.len() as int;
    let x = p.0 as int;
    let y = p.1 as int;
    assert(0 <= y * w + x < h * w) by (nonlinear_arith)
        requires
            0 <= y < h,
            0 <= x < w,
    ;
}

/// Distinct in-bounds positions encode to distinct integers.
proof fn lemma_encode_pos_injective(g: Seq<Seq<Tile>>, p1: (usize, usize), p2: (usize, usize))
    requires
        pos_in_bounds(g, p1),
        pos_in_bounds(g, p2),
        encode_pos(g, p1) == encode_pos(g, p2),
    ensures
        p1 == p2,
{
    lemma_row_le_max_width(g, p1.1 as int);
    lemma_row_le_max_width(g, p2.1 as int);
    let w = max_width(g);
    let e = encode_pos(g, p1);
    lemma_fundamental_div_mod_converse(e, w, p1.1 as int, p1.0 as int);
    lemma_fundamental_div_mod_converse(e, w, p2.1 as int, p2.0 as int);
}

/// Every position of the sequence lies on the grid.
pub open spec fn boxes_in_bounds(g: Seq<Seq<Tile>>, s: Seq<(usize, usize)>) -> bool {
    forall|k: int| 0 <= k < s.len() ==> pos_in_bounds(g, #[trigger] s[k])
}

/// Dropping the first element keeps a box vector on the grid.
proof fn lemma_boxes_drop(g: Seq<Seq<Tile>>, s: Seq<(usize, usize)>)
    requires
        s.len() > 0,
        boxes_in_bounds(g, s),
    ensures
        boxes_in_bounds(g, s.drop_first()),
{
    assert forall|k: int| 0 <= k < s.drop_first().len() implies pos_in_bounds(
        g,
        #[trigger] s.drop_first()[k],
    ) by {
        assert(s.drop_first()[k] == s[k + 1]);
    }
}

/// Base-`cell_count` encoding of a box vector.
pub open spec fn encode_boxes(g: Seq<Seq<Tile>>, s: Seq<(usize, usize)>) -> int
    decreases s.len(),
{
    if s.len() == 0 {
        0
    } else {
        encode_pos(g, s[0]) + cell_count(g) * encode_boxes(g, s.drop_first())
    }
}

/// A box vector on the grid encodes into `[0, cell_count ^ len)`.
proof fn lemma_encode_boxes_bounds(g: Seq<Seq<Tile>>, s: Seq<(usize, usize)>)
    requires
        boxes_in_bounds(g, s),
        cell_count(g) >= 1,
    ensures
        0 <= encode_boxes(g, s) < pow(cell_count(g), s.len() as nat),
    decreases s.len(),
{
    let c = cell_count(g);
    if s.len() == 0 {
        vstd::arithmetic::power::lemma_pow0(c);
    } else {
        lemma_boxes_drop(g, s);
        lemma_encode_pos_bounds(g, s[0]);
        lemma_encode_boxes_bounds(g, s.drop_first());
        let e0 = encode_pos(g, s[0]);
        let rest = encode_boxes(g, s.drop_first());
        let p1 = pow(c, (s.len() - 1) as nat);
        vstd::arithmetic::power::lemma_pow1(c);
        vstd::arithmetic::power::lemma_pow_adds(c, 1, (s.len() - 1) as nat);
        assert(pow(c, s.len() as nat) == c * p1);
        assert(0 <= e0 + c * rest < c * p1) by (nonlinear_arith)
            requires
                0 <= e0 < c,
                0 <= rest < p1,
        ;
    }
}

/// Box vectors of equal length with equal encodings are equal.
proof fn lemma_encode_boxes_injective(
    g: Seq<Seq<Tile>>,
    s1: Seq<(usize, usize)>,
    s2: Seq<(usize, usize)>,
)
    requires
        boxes_in_bounds(g, s1),
        boxes_in_bounds(g, s2),
        s1.len() == s2.len(),
        cell_count(g) >= 1,
        encode_boxes(g, s1) == encode_boxes(g, s2),
    ensures
        s1 == s2,
    decreases s1.len(),
{
    let c = cell_count(g);
    if s1.len() == 0 {
        assert(s1 =~= s2);
    } else {
        lemma_boxes_drop(g, s1);
        lemma_boxes_drop(g, s2);
        lemma_encode_pos_bounds(g, s1[0]);
        lemma_encode_pos_bounds(g, s2[0]);
        lemma_encode_boxes_bounds(g, s1.drop_first());
        lemma_encode_boxes_bounds(g, s2.drop_first());
        let e = encode_boxes(g, s1);
        assert(e == encode_pos(g, s1[0]) + c * encode_boxes(g, s1.drop_first()));
        assert(encode_boxes(g, s2) == encode_pos(g, s2[0]) + c * encode_boxes(
            g,
            s2.drop_first(),
        ));
        assert(c * encode_boxes(g, s1.drop_first()) == encode_boxes(g, s1.drop_first()) * c)
            by (nonlinear_arith);
        assert(c * encode_boxes(g, s2.drop_first()) == encode_boxes(g, s2.drop_first()) * c)
            by (nonlinear_arith);
        lemma_fundamental_div_mod_converse(
            e,
            c,
            encode_boxes(g, s1.drop_first()),
            encode_pos(g, s1[0]),
        );
        lemma_fundamental_div_mod_converse(
            e,
            c,
            encode_boxes(g, s2.drop_first()),
            encode_pos(g, s2[0]),
        );
        lemma_encode_pos_injective(g, s1[0], s2[0]);
        lemma_encode_boxes_injective(g, s1.drop_first(), s2.drop_first());
        assert(s1 =~= s2) by {
            assert forall|k: int| 0 <= k < s1.len() implies s1[k] == s2[k] by {
                if k > 0 {
                    assert(s1.drop_first()[k - 1] == s1[k]);
                    assert(s2.drop_first()[k - 1] == s2[k]);
                }
            }
        }
    }
}

/// A key the search can produce: the player on the grid, and a box vector
/// of the fixed cardinality, all on the grid.
pub open spec fn key_wf(g: Seq<Seq<Tile>>, k: StateKey, nboxes: nat) -> bool {
    pos_in_bounds(g, k.player) && k.boxes@.len() == nboxes && boxes_in_bounds(g, k.boxes@)
}

/// The integer a whole key encodes to.
pub open spec fn encode_key(g: Seq<Seq<Tile>>, k: StateKey) -> int {
    encode_pos(g, k.player) + cell_count(g) * encode_boxes(g, k.boxes@)
}

/// A well-formed key encodes into `[0, cell_count ^ (nboxes + 1))`.
proof fn lemma_encode_key_bounds(g: Seq<Seq<Tile>>, k: StateKey, nboxes: nat)
    requires
        key_wf(g, k, nboxes),
        cell_count(g) >= 1,
    ensures
        0 <= encode_key(g, k) < pow(cell_count(g), nboxes + 1),
{
    let c = cell_count(g);
    lemma_encode_pos_bounds(g, k.player);
    lemma_encode_boxes_bounds(g, k.boxes@);
    let e0 = encode_pos(g, k.player);
    let rest = encode_boxes(g, k.boxes@);
    let p1 = pow(c, nboxes);
    vstd::arithmetic::power::lemma_pow1(c);
    vstd::arithmetic::power::lemma_pow_adds(c, 1, nboxes);
    assert(pow(c, nboxes + 1) == c * p1);
    assert(0 <= e0 + c * rest < c * p1) by (nonlinear_arith)
        requires
            0 <= e0 < c,
            0 <= rest < p1,
    ;
}

/// Well-formed keys with equal encodings denote the same configuration.
proof fn lemma_encode_key_injective(g: Seq<Seq<Tile>>, k1: StateKey, k2: StateKey, nboxes: nat)
    requires
        key_wf(g, k1, nboxes),
        key_wf(g, k2, nboxes),
        cell_count(g) >= 1,
        encode_key(g, k1) == encode_key(g, k2),
    ensures
        key_eq(k1, k2),
{
    let c = cell_count(g);
    lemma_encode_pos_bounds(g, k1.player);
    lemma_encode_pos_bounds(g, k2.player);
    lemma_encode_boxes_bounds(g, k1.boxes@);
    lemma_encode_boxes_bounds(g, k2.boxes@);
    let e = encode_key(g, k1);
    lemma_fundamental_div_mod_converse(
        e,
        c,
        encode_boxes(g, k1.boxes@),
        encode_pos(g, k1.player),
    );
    lemma_fundamental_div_mod_converse(
        e,
        c,
        encode_boxes(g, k2.boxes@),
        encode_pos(g, k2.player),
    );
    let e = encode_key(g, k1);
    assert(c * encode_boxes(g, k1.boxes@) == encode_boxes(g, k1.boxes@) * c) by (nonlinear_arith);
    assert(c * encode_boxes(g, k2.boxes@) == encode_boxes(g, k2.boxes@) * c) by (nonlinear_arith);
    lemma_encode_pos_injective(g, k1.player, k2.player);
    lemma_encode_boxes_injective(g, k1.boxes@, k2.boxes@);
}

/// A sequence of pairwise different well-formed keys is no longer than the
/// number of possible encodings.
proof fn lemma_distinct_keys_bound(g: Seq<Seq<Tile>>, ks: Seq<StateKey>, nboxes: nat)
    requires
        cell_count(g) >= 1,
        forall|i: int| 0 <= i < ks.len() ==> key_wf(g, #[trigger] ks[i], nboxes),
        forall|i: int, j: int|
            0 <= i < j < ks.len() ==> !key_eq(#[trigger] ks[i], #[trigger] ks[j]),
    ensures
        ks.len() <= pow(cell_count(g), nboxes + 1),
{
    let n = pow(cell_count(g), nboxes + 1);
    let es = Seq::new(ks.len(), |i: int| encode_key(g, ks[i]));
    assert forall|i: int, j: int|
        0 <= i < es.len() && 0 <= j < es.len() && i != j implies #[trigger] es[i]
        != #[trigger] es[j] by {
        let a = if i < j {
            i
        } else {
            j
        };
        let b = if i < j {
            j
        } else {
            i
        };
        if es[a] == es[b] {
            lemma_encode_key_injective(g, ks[a], ks[b], nboxes);
        }
    }
    es.unique_seq_to_set();
    assert forall|e: int| #[trigger] es.to_set().contains(e) implies set_int_range(
        0,
        n,
    ).contains(e) by {
        let i = choose|i: int| 0 <= i < es.len() && es[i] == e;
        lemma_encode_key_bounds(g, ks[i], nboxes);
    }
    lemma_pow_positive(cell_count(g), nboxes + 1);
    lemma_int_range(0, n);
    lemma_len_subset(es.to_set(), set_int_range(0, n));
}

// ---------------------------------------------------------------------------
// The pruned transition relation that the search actually explores: legal
// moves, minus pushes whose box lands on a corner-deadlocked cell.
// ---------------------------------------------------------------------------

/// The cell a push in direction `d` sends a box to: two cells from the
/// player.
pub open spec fn push_target(player: (usize, usize), d: Direction) -> (usize, usize) {
    ((player.0 + 2 * dir_dx(d)) as usize, (player.1 + 2 * dir_dy(d)) as usize)
}

/// One transition of the pruned search: a legal move, unless it is a push
/// onto a corner-deadlocked cell, which the search discards.
pub open spec fn search_move(
    g: Seq<Seq<Tile>>,
    player: (usize, usize),
    boxes: Set<(usize, usize)>,
    d: Direction,
) -> Option<((usize, usize), Set<(usize, usize)>)> {
    match apply_move_spec(g, player, boxes, d) {
        None => None,
        Some(c) => {
            if boxes.contains(c.0) && corner_deadlock_spec(g, push_target(player, d), target_set(g)) {
                None
            } else {
                Some(c)
            }
        },
    }
}

/// The configuration a sequence of pruned-search moves leads to.
pub open spec fn search_path_result(
    g: Seq<Seq<Tile>>,
    player: (usize, usize),
    boxes: Set<(usize, usize)>,
    path: Seq<Direction>,
) -> Option<((usize, usize), Set<(usize, usize)>)>
    decreases path.len(),
{
    if path.len() == 0 {
        Some((player, boxes))
    } else {
        match search_move(g, player, boxes, path[0]) {
            None => None,
            Some(c) => search_path_result(g, c.0, c.1, path.drop_first()),
        }
    }
}

/// Appending one pruned-search move to a legal pruned-search path applies
/// `search_move` at its end.
proof fn lemma_search_path_snoc(
    g: Seq<Seq<Tile>>,
    player: (usize, usize),
    boxes: Set<(usize, usize)>,
    path: Seq<Direction>,
    d: Direction,
)
    requires
        search_path_result(g, player, boxes, path) is Some,
    ensures
        search_path_result(g, player, boxes, path.push(d)) == search_move(
            g,
            (search_path_result(g, player, boxes, path)->0).0,
            (search_path_result(g, player, boxes, path)->0).1,
            d,
        ),
    decreases path.len(),
{
    reveal_with_fuel(search_path_result, 3);
    if path.len() == 0 {
        assert(path.push(d)[0] == d);
        assert(path.push(d).drop_first() =~= Seq::<Direction>::empty());
        match search_move(g, player, boxes, d) {
            None => {
                assert(search_path_result(g, player, boxes, path.push(d)) is None);
            },
            Some(c2) => {
                assert(search_path_result(g, c2.0, c2.1, path.push(d).drop_first()) == Some(c2));
            },
        }
    } else {
        assert(search_move(g, player, boxes, path[0]) is Some);
        let c = search_move(g, player, boxes, path[0])->0;
        assert(search_path_result(g, player, boxes, path) == search_path_result(
            g,
            c.0,
            c.1,
            path.drop_first(),
        ));
        assert(path.push(d)[0] == path[0]);
        assert(path.push(d).drop_first() =~= path.drop_first().push(d));
        lemma_search_path_snoc(g, c.0, c.1, path.drop_first(), d);
        assert(search_path_result(g, player, boxes, path.push(d)) == search_path_result(
            g,
            c.0,
            c.1,
            path.push(d).drop_first(),
        ));
    }
}

/// Every prefix of a legal pruned-search path is legal.
proof fn lemma_search_path_prefix(
    g: Seq<Seq<Tile>>,
    player: (usize, usize),
    boxes: Set<(usize, usize)>,
    path: Seq<Direction>,
    i: int,
)
    requires
        search_path_result(g, player, boxes, path) is Some,
        0 <= i <= path.len(),
    ensures
        search_path_result(g, player, boxes, path.take(i)) is Some,
    decreases path.len(),
{
    if i == 0 {
        assert(path.take(0) =~= Seq::<Direction>::empty());
    } else {
        assert(search_move(g, player, boxes, path[0]) is Some);
        let c = search_move(g, player, boxes, path[0])->0;
        lemma_search_path_prefix(g, c.0, c.1, path.drop_first(), i - 1);
        assert(path.take(i)[0] == path[0]);
        assert(path.take(i).drop_first() =~= path.drop_first().take(i - 1));
        assert(search_path_result(g, player, boxes, path.take(i)) == search_path_result(
            g,
            c.0,
            c.1,
            path.take(i).drop_first(),
        ));
    }
}

/// A winning path never makes a pruned move: pushing a box onto a
/// corner-deadlocked cell forfeits the game, so a path that wins is a path
/// of the pruned search too.
pub proof fn lemma_winning_path_not_pruned(
    g: Seq<Seq<Tile>>,
    player: (usize, usize),
    boxes: Set<(usize, usize)>,
    path: Seq<Direction>,
)
    requires
        grid_dims_ok(g),
        !blocked_cell(g, player.0 as int, player.1 as int),
        winning_path(g, player, boxes, path),
    ensures
        search_path_result(g, player, boxes, path) == path_result(g, player, boxes, path),
    decreases path.len(),
{
    if path.len() != 0 {
        assert(apply_move_spec(g, player, boxes, path[0]) is Some);
        let c = apply_move_spec(g, player, boxes, path[0])->0;
        let nx = player.0 + dir_dx(path[0]);
        let ny = player.1 + dir_dy(path[0]);
        assert(!blocked_cell(g, nx, ny));
        assert(c.0.0 == nx && c.0.1 == ny);
        assert(winning_path(g, c.0, c.1, path.drop_first()));
        if boxes.contains(c.0) && corner_deadlock_spec(g, push_target(player, path[0]), target_set(g)) {
            let q = push_target(player, path[0]);
            assert(q.0 == nx + dir_dx(path[0]) && q.1 == ny + dir_dy(path[0]));
            assert(c.1.contains(q));
            lemma_corner_deadlock_sound(g, c.0, c.1, q, path.drop_first());
            assert(false);
        }
        lemma_winning_path_not_pruned(g, c.0, c.1, path.drop_first());
    }
}

// ---------------------------------------------------------------------------
// The breadth-first search engine.
// ---------------------------------------------------------------------------

/// The caller-supplied start: a position that carries the player mark.
pub open spec fn valid_player_start(g: Seq<Seq<Tile>>, p: (usize, usize)) -> bool {
    &&& pos_in_bounds(g, p)
    &&& (g[p.1 as int][p.0 as int] == Tile::Player || g[p.1 as int][p.0 as int]
        == Tile::PlayerOnTarget)
}

/// One frontier entry: a configuration and its distance from the start.
struct Node {
    player: (usize, usize),
    boxes: Vec<(usize, usize)>,
    steps: u32,
}

/// The node's data is a canonical configuration on the grid with the fixed
/// box cardinality.
spec fn node_wf(g: Seq<Seq<Tile>>, n: Node, nboxes: nat) -> bool {
    &&& pos_in_bounds(g, n.player)
    &&& sorted_positions(n.boxes@)
    &&& n.boxes@.no_duplicates()
    &&& n.boxes@.len() == nboxes
    &&& boxes_in_bounds(g, n.boxes@)
}

/// Some path of exactly `n` moves leads from the initial configuration to
/// the given one.
pub open spec fn reaches_cfg(
    g: Seq<Seq<Tile>>,
    p0: (usize, usize),
    b0: Set<(usize, usize)>,
    p: (usize, usize),
    bs: Set<(usize, usize)>,
    n: nat,
) -> bool {
    exists|path: Seq<Direction>|
        path.len() == n && path_result(g, p0, b0, path) == Some((p, bs))
}

/// The node's configuration is reachable in exactly its recorded number of
/// moves.
spec fn node_reached(g: Seq<Seq<Tile>>, p0: (usize, usize), b0: Set<(usize, usize)>, n: Node) -> bool {
    reaches_cfg(g, p0, b0, n.player, n.boxes@.to_set(), n.steps as nat)
}

/// The grid's dimensions fit the machine: true of the view of any actual
/// grid value.
pub open spec fn grid_dims_ok(g: Seq<Seq<Tile>>) -> bool {
    g.len() <= usize::MAX && forall|y: int| 0 <= y < g.len() ==> #[trigger] g[y].len() <= usize::MAX
}

/// A legal move leads to an on-grid player position and keeps every box on
/// the grid.
proof fn lemma_move_keeps_bounds(
    g: Seq<Seq<Tile>>,
    player: (usize, usize),
    boxes: Set<(usize, usize)>,
    d: Direction,
)
    requires
        grid_dims_ok(g),
        apply_move_spec(g, player, boxes, d) is Some,
        forall|p: (usize, usize)| #[trigger] boxes.contains(p) ==> pos_in_bounds(g, p),
    ensures
        pos_in_bounds(g, (apply_move_spec(g, player, boxes, d)->0).0),
        forall|p: (usize, usize)| #[trigger]
            (apply_move_spec(g, player, boxes, d)->0).1.contains(p) ==> pos_in_bounds(g, p),
{
    let nx = player.0 + dir_dx(d);
    let ny = player.1 + dir_dy(d);
    let np = (nx as usize, ny as usize);
    assert(!blocked_cell(g, nx, ny));
    assert(np.0 == nx && np.1 == ny);
    if boxes.contains(np) {
        let bx = nx + dir_dx(d);
        let by = ny + dir_dy(d);
        assert(!blocked_cell(g, bx, by));
        let q = (bx as usize, by as usize);
        assert(q.0 == bx && q.1 == by);
        assert forall|p: (usize, usize)| #[trigger]
            (apply_move_spec(g, player, boxes, d)->0).1.contains(p) implies pos_in_bounds(
            g,
            p,
        ) by {
            if p != q {
                assert(boxes.contains(p));
            }
        }
    }
}

/// Some node of the queue carries configuration `c` at a recorded distance
/// of at most `limit` moves.
spec fn cfg_in_queue(
    q: Seq<Node>,
    c: ((usize, usize), Set<(usize, usize)>),
    limit: int,
) -> bool {
    exists|j2: int|
        0 <= j2 < q.len() && (#[trigger] q[j2]).player == c.0 && q[j2].boxes@.to_set() == c.1
            && q[j2].steps <= limit
}

/// Every pruned-search successor of node `j` stands somewhere in the queue,
/// at most one move further from the start than node `j` itself.
spec fn succ_covered(g: Seq<Seq<Tile>>, q: Seq<Node>, j: int, d: Direction) -> bool {
    search_move(g, q[j].player, q[j].boxes@.to_set(), d) matches Some(c) ==> cfg_in_queue(
        q,
        c,
        q[j].steps + 1,
    )
}

/// The key's configuration stands somewhere in the queue.
spec fn key_in_queue(q: Seq<Node>, k: StateKey) -> bool {
    exists|j2: int|
        0 <= j2 < q.len() && (#[trigger] q[j2]).player == k.player && q[j2].boxes@ == k.boxes@
}

/// Appending nodes to the queue preserves successor coverage of the
/// processed prefix.
proof fn lemma_covered_grows(g: Seq<Seq<Tile>>, q1: Seq<Node>, q2: Seq<Node>, head: int)
    requires
        q1.len() <= q2.len(),
        forall|i: int| 0 <= i < q1.len() ==> q2[i] == q1[i],
        0 <= head <= q1.len(),
        forall|j: int, d: Direction|
            0 <= j < head && q1[j].steps < u32::MAX ==> #[trigger] succ_covered(g, q1, j, d),
    ensures
        forall|j: int, d: Direction|
            0 <= j < head && q2[j].steps < u32::MAX ==> #[trigger] succ_covered(g, q2, j, d),
{
    assert forall|j: int, d: Direction|
        0 <= j < head && q2[j].steps < u32::MAX implies #[trigger] succ_covered(g, q2, j, d) by {
        assert(q2[j] == q1[j]);
        assert(succ_covered(g, q1, j, d));
        match search_move(g, q2[j].player, q2[j].boxes@.to_set(), d) {
            None => {},
            Some(c) => {
                let j2 = choose|j2: int|
                    0 <= j2 < q1.len() && (#[trigger] q1[j2]).player == c.0 && q1[j2].boxes@.to_set()
                        == c.1 && q1[j2].steps <= q1[j].steps + 1;
                assert(q2[j2] == q1[j2]);
                assert(cfg_in_queue(q2, c, q2[j].steps + 1));
            },
        }
    }
}

/// Appending nodes to the queue preserves key coverage.
proof fn lemma_key_in_queue_grows(q1: Seq<Node>, q2: Seq<Node>, k: StateKey)
    requires
        q1.len() <= q2.len(),
        forall|i: int| 0 <= i < q1.len() ==> q2[i] == q1[i],
        key_in_queue(q1, k),
    ensures
        key_in_queue(q2, k),
{
    let j2 = choose|j2: int|
        0 <= j2 < q1.len() && (#[trigger] q1[j2]).player == k.player && q1[j2].boxes@ == k.boxes@;
    assert(q2[j2] == q1[j2]);
}

/// The heart of the minimality argument: while the queue front stands at
/// distance `s` and every strictly closer node has been processed with all
/// its pruned-search successors recorded, the endpoint of any pruned-search
/// path of fewer than `s` moves stands in the queue, no further from the
/// start than the path is long.
proof fn lemma_short_search_path_covered(
    g: Seq<Seq<Tile>>,
    p0: (usize, usize),
    b0: Set<(usize, usize)>,
    q: Seq<Node>,
    head: int,
    s: int,
    path: Seq<Direction>,
    i: int,
)
    requires
        0 <= head <= q.len(),
        q.len() >= 1,
        q[0].player == p0,
        q[0].boxes@.to_set() == b0,
        q[0].steps == 0,
        forall|a: int, b: int|
            0 <= a <= b < q.len() ==> (#[trigger] q[a]).steps <= (#[trigger] q[b]).steps,
        forall|j: int| head <= j < q.len() ==> (#[trigger] q[j]).steps >= s,
        forall|j: int, d: Direction|
            0 <= j < head && q[j].steps < u32::MAX ==> #[trigger] succ_covered(g, q, j, d),
        search_path_result(g, p0, b0, path) is Some,
        path.len() < s,
        s <= u32::MAX + 1,
        0 <= i <= path.len(),
    ensures
        cfg_in_queue(q, search_path_result(g, p0, b0, path.take(i))->0, i),
    decreases i,
{
    lemma_search_path_prefix(g, p0, b0, path, i);
    if i == 0 {
        assert(path.take(0) =~= Seq::<Direction>::empty());
        assert(search_path_result(g, p0, b0, path.take(0)) == Some((p0, b0)));
        assert(0 <= 0 < q.len() && q[0].player == p0 && q[0].boxes@.to_set() == b0
            && q[0].steps <= 0);
        assert(cfg_in_queue(q, (p0, b0), 0));
    } else {
        lemma_short_search_path_covered(g, p0, b0, q, head, s, path, i - 1);
        lemma_search_path_prefix(g, p0, b0, path, i - 1);
        let cprev = search_path_result(g, p0, b0, path.take(i - 1))->0;
        let j = choose|j2: int|
            0 <= j2 < q.len() && (#[trigger] q[j2]).player == cprev.0 && q[j2].boxes@.to_set()
                == cprev.1 && q[j2].steps <= i - 1;
        assert(q[j].steps <= i - 1 < s);
        assert(j < head) by {
            if j >= head {
                assert(q[j].steps >= s);
            }
        }
        assert(q[j].steps < u32::MAX);
        assert(path.take(i) =~= path.take(i - 1).push(path[i - 1]));
        lemma_search_path_snoc(g, p0, b0, path.take(i - 1), path[i - 1]);
        let ci = search_path_result(g, p0, b0, path.take(i))->0;
        assert(search_move(g, cprev.0, cprev.1, path[i - 1]) == Some(ci));
        assert(succ_covered(g, q, j, path[i - 1]));
        assert(search_move(g, q[j].player, q[j].boxes@.to_set(), path[i - 1]) == Some(ci));
        let j2 = choose|j2: int|
            0 <= j2 < q.len() && (#[trigger] q[j2]).player == ci.0 && q[j2].boxes@.to_set() == ci.1
                && q[j2].steps <= q[j].steps + 1;
        assert(q[j2].steps <= i);
        assert(cfg_in_queue(q, ci, i));
    }
}

/// Breadth-first search over the configurations reachable from the given
/// start, with corner-deadlock pruning and a visited set of canonical keys.
///
/// When the result reports a move count, some sequence of exactly that many
/// legal moves brings every box onto a target; a level whose boxes already
/// all sit on targets is reported solvable in zero moves.
/// Whether a search outcome is the right answer for the given start:
/// a reported move count is achievable and minimal, and a negative answer
/// means no achievable path of any representable length exists.
pub open spec fn solve_result_ok(g: Seq<Seq<Tile>>, p0: (usize, usize), res: SolveResult) -> bool {
    &&& res.solvable == (res.min_steps is Some)
    &&& (res.min_steps matches Some(n) ==> solvable_in(g, p0, box_set(g), n as nat) && (forall|
        m: nat,
    |
        m < n as nat ==> !solvable_in(g, p0, box_set(g), m)))
    &&& (!res.solvable ==> forall|m: nat|
        m <= u32::MAX as nat ==> !solvable_in(g, p0, box_set(g), m))
}

/// The search's answer is a function of the grid and the start alone: any
/// two correct outcomes on the same inputs agree, so two runs of the solver
/// return the same result.
pub proof fn lemma_solve_deterministic(
    g: Seq<Seq<Tile>>,
    p0: (usize, usize),
    r1: SolveResult,
    r2: SolveResult,
)
    requires
        solve_result_ok(g, p0, r1),
        solve_result_ok(g, p0, r2),
    ensures
        r1.solvable == r2.solvable,
        r1.min_steps == r2.min_steps,
{
    match (r1.min_steps, r2.min_steps) {
        (Some(n1), Some(n2)) => {
            if n1 < n2 {
                assert(solvable_in(g, p0, box_set(g), n1 as nat));
                assert(!solvable_in(g, p0, box_set(g), n1 as nat));
            } else if n2 < n1 {
                assert(solvable_in(g, p0, box_set(g), n2 as nat));
                assert(!solvable_in(g, p0, box_set(g), n2 as nat));
            }
        },
        (Some(n1), None) => {
            assert(solvable_in(g, p0, box_set(g), n1 as nat));
            assert(n1 as nat <= u32::MAX as nat);
            assert(!solvable_in(g, p0, box_set(g), n1 as nat));
        },
        (None, Some(n2)) => {
            assert(solvable_in(g, p0, box_set(g), n2 as nat));
            assert(n2 as nat <= u32::MAX as nat);
            assert(!solvable_in(g, p0, box_set(g), n2 as nat));
        },
        (None, None) => {},
    }
}

/// The position of a direction in the order the search tries them.
spec fn dir_index(d: Direction) -> int {
    match d {
        Direction::Up => 0,
        Direction::Down => 1,
        Direction::Left => 2,
        Direction::Right => 3,
    }
}

/// Breadth-first search over the configurations reachable from the given
/// start, with corner-deadlock pruning and a visited set of canonical keys.
///
/// The result is exact: a reported move count is achieved by
/// some sequence of legal moves and no shorter sequence wins, and a level
/// reported unsolvable admits no winning sequence at all. A level whose
/// boxes already all sit on targets is solvable in zero moves.
#[verifier::loop_isolation(false)]
#[verifier::rlimit(100)]
pub fn solve(map: &Vec<Vec<Tile>>, player_pos: (usize, usize)) -> (res: SolveResult)
    requires
        valid_player_start(grid_of(map), player_pos),
    ensures
        solve_result_ok(grid_of(map), player_pos, res),
        winning(box_set(grid_of(map)), target_set(grid_of(map))) ==> res.solvable
            && res.min_steps == Some(0u32),
{
    let ghost g = grid_of(map);
    let ghost tset = target_set(g);
    let ghost b0 = box_set(g);

    let targets = collect_marked(map, false);
    let mut boxes0 = collect_marked(map, true);
    sort_positions(&mut boxes0);
    let nboxes = boxes0.len();

    proof {
        assert(grid_dims_ok(g)) by {
            assert(vstd::std_specs::vec::spec_vec_len(map) == map@.len());
            assert forall|y: int| 0 <= y < g.len() implies #[trigger] g[y].len() <= usize::MAX by {
                assert(g[y] == map@[y]@);
                assert(vstd::std_specs::vec::spec_vec_len(&map@[y]) == map@[y]@.len());
            }
        }
        assert(targets@.to_set() == tset);
        assert(boxes0@.to_set() == b0);
        assert(boxes_in_bounds(g, boxes0@)) by {
            assert forall|k: int| 0 <= k < boxes0@.len() implies pos_in_bounds(
                g,
                #[trigger] boxes0@[k],
            ) by {
                assert(boxes0@.contains(boxes0@[k]));
                assert(boxes0@.to_set().contains(boxes0@[k]));
                assert(box_pos(g, boxes0@[k]));
            }
        }
        lemma_row_le_max_width(g, player_pos.1 as int);
        assert(cell_count(g) >= 1) by (nonlinear_arith)
            requires
                g.len() >= 1,
                max_width(g) >= 1,
        ;
        lemma_pow_positive(cell_count(g), (nboxes + 1) as nat);
    }
    let ghost nn = pow(cell_count(g), (nboxes + 1) as nat);

    let mut visited: Vec<StateKey> = Vec::new();
    let mut queue: Vec<Node> = Vec::new();
    let mut head: usize = 0;

    let key0 = get_state_key(player_pos, &boxes0);
    visited.push(key0);
    queue.push(Node { player: player_pos, boxes: boxes0, steps: 0 });

    proof {
        let path0 = Seq::<Direction>::empty();
        assert(path_result(g, player_pos, b0, path0) == Some((player_pos, b0)));
        assert(node_reached(g, player_pos, b0, queue@[0]));
        assert(key_in_queue(queue@, visited@[0]));
    }

    while head < queue.len()
        invariant
            head <= queue@.len(),
            queue@.len() >= 1,
            queue@[0].steps == 0,
            queue@[0].player == player_pos,
            queue@[0].boxes@.to_set() == b0,
            visited@.len() <= nn,
            forall|i: int|
                0 <= i < visited@.len() ==> key_wf(g, #[trigger] visited@[i], nboxes as nat),
            forall|i: int, j: int|
                0 <= i < j < visited@.len() ==> !key_eq(
                    #[trigger] visited@[i],
                    #[trigger] visited@[j],
                ),
            forall|i: int| 0 <= i < queue@.len() ==> node_wf(g, #[trigger] queue@[i], nboxes as nat),
            forall|i: int| 0 <= i < queue@.len() ==> node_reached(g, player_pos, b0, #[trigger] queue@[i]),
            forall|a: int, b: int|
                0 <= a <= b < queue@.len() ==> (#[trigger] queue@[a]).steps <= (
                #[trigger] queue@[b]).steps,
            head == 0 ==> forall|i: int| 0 <= i < queue@.len() ==> (#[trigger] queue@[i]).steps == 0,
            head > 0 ==> forall|i: int|
                0 <= i < queue@.len() ==> (#[trigger] queue@[i]).steps <= queue@[head - 1].steps
                    + 1,
            forall|j: int|
                0 <= j < head ==> !winning((#[trigger] queue@[j]).boxes@.to_set(), tset),
            forall|j: int, d: Direction|
                0 <= j < head && queue@[j].steps < u32::MAX ==> #[trigger] succ_covered(
                    g,
                    queue@,
                    j,
                    d,
                ),
            forall|i: int| 0 <= i < visited@.len() ==> key_in_queue(queue@, #[trigger] visited@[i]),
        decreases nn - visited@.len(), queue@.len() - head,
    {
        let ghost h0 = head as int;
        let player = queue[head].player;
        let steps = queue[head].steps;
        let boxes = clone_positions(&queue[head].boxes);
        proof {
            assert(node_wf(g, queue@[h0], nboxes as nat));
            assert(node_reached(g, player_pos, b0, queue@[h0]));
            assert(boxes@ == queue@[h0].boxes@);
            assert(reaches_cfg(g, player_pos, b0, player, boxes@.to_set(), steps as nat));
            assert(!blocked_cell(g, player_pos.0 as int, player_pos.1 as int));
        }
        head = head + 1;

        if all_on_targets(&boxes, &targets) {
            proof {
                let path = choose|path: Seq<Direction>|
                    path.len() == steps as nat && path_result(g, player_pos, b0, path) == Some(
                        (player, boxes@.to_set()),
                    );
                assert(winning_path(g, player_pos, b0, path));
                assert(solvable_in(g, player_pos, b0, steps as nat));
                assert forall|m: nat| m < steps as nat implies !solvable_in(
                    g,
                    player_pos,
                    b0,
                    m,
                ) by {
                    if solvable_in(g, player_pos, b0, m) {
                        let wpath = choose|wpath: Seq<Direction>|
                            wpath.len() == m && winning_path(g, player_pos, b0, wpath);
                        lemma_winning_path_not_pruned(g, player_pos, b0, wpath);
                        assert forall|j: int| h0 <= j < queue@.len() implies (
                        #[trigger] queue@[j]).steps >= steps as int by {
                            assert(queue@[h0].steps <= queue@[j].steps);
                        }
                        lemma_short_search_path_covered(
                            g,
                            player_pos,
                            b0,
                            queue@,
                            h0,
                            steps as int,
                            wpath,
                            m as int,
                        );
                        assert(wpath.take(m as int) =~= wpath);
                        let cend = search_path_result(g, player_pos, b0, wpath)->0;
                        let j2 = choose|j2: int|
                            0 <= j2 < queue@.len() && (#[trigger] queue@[j2]).player == cend.0
                                && queue@[j2].boxes@.to_set() == cend.1 && queue@[j2].steps
                                <= m as int;
                        assert(j2 < h0) by {
                            if j2 >= h0 {
                                assert(queue@[h0].steps <= queue@[j2].steps);
                            }
                        }
                        assert(!winning(queue@[j2].boxes@.to_set(), tset));
                        assert(winning(cend.1, tset));
                        assert(false);
                    }
                }
                if winning(b0, tset) {
                    let path0 = Seq::<Direction>::empty();
                    assert(path_result(g, player_pos, b0, path0) == Some((player_pos, b0)));
                    assert(winning_path(g, player_pos, b0, path0));
                    assert(solvable_in(g, player_pos, b0, 0));
                    assert(steps == 0);
                }
            }
            return SolveResult { solvable: true, min_steps: Some(steps) };
        }

        let ghost q_start = queue@.len();
        let ghost v_start = visited@.len();
        let mut di: usize = 0;
        while di < 4
            invariant
                di <= 4,
                head <= queue@.len(),
                q_start <= queue@.len(),
                queue@.len() - q_start == visited@.len() - v_start,
                queue@.len() >= 1,
                queue@[0].steps == 0,
                queue@[0].player == player_pos,
                queue@[0].boxes@.to_set() == b0,
                queue@[h0].player == player,
                queue@[h0].boxes@ == boxes@,
                queue@[h0].steps == steps,
                visited@.len() <= nn,
                forall|i: int|
                    0 <= i < visited@.len() ==> key_wf(g, #[trigger] visited@[i], nboxes as nat),
                forall|i: int, j: int|
                    0 <= i < j < visited@.len() ==> !key_eq(
                        #[trigger] visited@[i],
                        #[trigger] visited@[j],
                    ),
                forall|i: int|
                    0 <= i < queue@.len() ==> node_wf(g, #[trigger] queue@[i], nboxes as nat),
                forall|i: int|
                    0 <= i < queue@.len() ==> node_reached(g, player_pos, b0, #[trigger] queue@[i]),
                forall|a: int, b: int|
                    0 <= a <= b < queue@.len() ==> (#[trigger] queue@[a]).steps <= (
                    #[trigger] queue@[b]).steps,
                forall|i: int|
                    0 <= i < queue@.len() ==> (#[trigger] queue@[i]).steps <= steps + 1,
                forall|j: int|
                    0 <= j < h0 ==> !winning((#[trigger] queue@[j]).boxes@.to_set(), tset),
                forall|j: int, d: Direction|
                    0 <= j < h0 && queue@[j].steps < u32::MAX ==> #[trigger] succ_covered(
                        g,
                        queue@,
                        j,
                        d,
                    ),
                forall|d: Direction|
                    steps < u32::MAX && dir_index(d) < di ==> #[trigger] succ_covered(
                        g,
                        queue@,
                        h0,
                        d,
                    ),
                forall|i: int|
                    0 <= i < visited@.len() ==> key_in_queue(queue@, #[trigger] visited@[i]),
            decreases 4 - di,
        {
            let dir = if di == 0 {
                Direction::Up
            } else if di == 1 {
                Direction::Down
            } else if di == 2 {
                Direction::Left
            } else {
                Direction::Right
            };
            proof {
                assert(dir_index(dir) == di as int);
            }
            if steps < u32::MAX {
                match apply_move(map, player, &boxes, dir) {
                    None => {
                        proof {
                            assert(apply_move_spec(g, player, boxes@.to_set(), dir) is None);
                            assert(succ_covered(g, queue@, h0, dir));
                        }
                    },
                    Some((np, nb)) => {
                        let ghost c = apply_move_spec(g, player, boxes@.to_set(), dir)->0;
                        proof {
                            assert forall|p: (usize, usize)| #[trigger]
                                boxes@.to_set().contains(p) implies pos_in_bounds(g, p) by {
                                let k = choose|k: int| 0 <= k < boxes@.len() && boxes@[k] == p;
                            }
                            lemma_move_keeps_bounds(g, player, boxes@.to_set(), dir);
                            assert(np == c.0 && nb@.to_set() == c.1);
                            assert(pos_in_bounds(g, np));
                            assert(boxes_in_bounds(g, nb@)) by {
                                assert forall|k: int| 0 <= k < nb@.len() implies pos_in_bounds(
                                    g,
                                    #[trigger] nb@[k],
                                ) by {
                                    assert(nb@.contains(nb@[k]));
                                    assert(nb@.to_set().contains(nb@[k]));
                                }
                            }
                        }
                        let is_push = contains_pos(&boxes, np);
                        let mut skip = false;
                        if is_push {
                            proof {
                                assert(boxes@.to_set().contains(np));
                            }
                            let bp = match step_from(map, np, dir) {
                                None => {
                                    proof {
                                        assert(!blocked_cell(
                                            g,
                                            np.0 + dir_dx(dir),
                                            np.1 + dir_dy(dir),
                                        ));
                                        assert(false);
                                    }
                                    (0, 0)
                                },
                                Some(p) => p,
                            };
                            proof {
                                assert((bp.0, bp.1) == push_target(player, dir));
                            }
                            if is_corner_deadlock(map, bp.0, bp.1, &targets) {
                                skip = true;
                                proof {
                                    assert(corner_deadlock_spec(
                                        g,
                                        push_target(player, dir),
                                        tset,
                                    ));
                                    assert(search_move(g, player, boxes@.to_set(), dir) is None);
                                    assert(succ_covered(g, queue@, h0, dir));
                                }
                            }
                        }
                        proof {
                            if !(boxes@.to_set().contains(c.0) && corner_deadlock_spec(
                                g,
                                push_target(player, dir),
                                tset,
                            )) {
                                assert(search_move(g, player, boxes@.to_set(), dir) == Some(c));
                            }
                        }
                        if !skip {
                            proof {
                                assert(search_move(g, player, boxes@.to_set(), dir) == Some(c));
                            }
                            let key = get_state_key(np, &nb);
                            if !visited_contains(&visited, &key) {
                                let ghost old_visited = visited@;
                                let ghost old_queue = queue@;
                                visited.push(key);
                                queue.push(Node { player: np, boxes: nb, steps: steps + 1 });
                                proof {
                                    assert(queue@[0] == old_queue[0]);
                                    assert(queue@[h0] == old_queue[h0]);
                                    assert forall|i: int|
                                        0 <= i < visited@.len() implies key_wf(
                                        g,
                                        #[trigger] visited@[i],
                                        nboxes as nat,
                                    ) by {
                                        if i < old_visited.len() {
                                            assert(visited@[i] == old_visited[i]);
                                        } else {
                                            assert(visited@[i] == key);
                                        }
                                    }
                                    assert forall|i: int, j: int|
                                        0 <= i < j < visited@.len() implies !key_eq(
                                        #[trigger] visited@[i],
                                        #[trigger] visited@[j],
                                    ) by {
                                        if j < old_visited.len() {
                                            assert(visited@[i] == old_visited[i]);
                                            assert(visited@[j] == old_visited[j]);
                                        } else {
                                            assert(visited@[j] == key);
                                            assert(visited@[i] == old_visited[i]);
                                        }
                                    }
                                    lemma_distinct_keys_bound(g, visited@, nboxes as nat);
                                    let path = choose|path: Seq<Direction>|
                                        path.len() == steps as nat && path_result(
                                            g,
                                            player_pos,
                                            b0,
                                            path,
                                        ) == Some((player, boxes@.to_set()));
                                    lemma_path_snoc(g, player_pos, b0, path, dir);
                                    assert(path_result(g, player_pos, b0, path.push(dir))
                                        == Some(c));
                                    assert(path.push(dir).len() == steps + 1);
                                    assert(reaches_cfg(
                                        g,
                                        player_pos,
                                        b0,
                                        np,
                                        nb@.to_set(),
                                        (steps + 1) as nat,
                                    ));
                                    assert forall|i: int|
                                        0 <= i < queue@.len() implies node_wf(
                                        g,
                                        #[trigger] queue@[i],
                                        nboxes as nat,
                                    ) by {
                                        if i < old_queue.len() {
                                            assert(queue@[i] == old_queue[i]);
                                        }
                                    }
                                    assert forall|i: int|
                                        0 <= i < queue@.len() implies node_reached(
                                        g,
                                        player_pos,
                                        b0,
                                        #[trigger] queue@[i],
                                    ) by {
                                        if i < old_queue.len() {
                                            assert(queue@[i] == old_queue[i]);
                                        } else {
                                            assert(queue@[i].player == np);
                                            assert(queue@[i].boxes@ == nb@);
                                            assert(queue@[i].steps == steps + 1);
                                        }
                                    }
                                    assert forall|a: int, b: int|
                                        0 <= a <= b < queue@.len() implies (
                                    #[trigger] queue@[a]).steps <= (#[trigger] queue@[b]).steps by {
                                        if b < old_queue.len() {
                                            assert(queue@[a] == old_queue[a]);
                                            assert(queue@[b] == old_queue[b]);
                                        } else if a < old_queue.len() {
                                            assert(queue@[a] == old_queue[a]);
                                            assert(old_queue[a].steps <= steps + 1);
                                        }
                                    }
                                    assert forall|i: int|
                                        0 <= i < queue@.len() implies (
                                    #[trigger] queue@[i]).steps <= steps + 1 by {
                                        if i < old_queue.len() {
                                            assert(queue@[i] == old_queue[i]);
                                        }
                                    }
                                    assert forall|j: int|
                                        0 <= j < h0 implies !winning(
                                        (#[trigger] queue@[j]).boxes@.to_set(),
                                        tset,
                                    ) by {
                                        assert(queue@[j] == old_queue[j]);
                                    }
                                    lemma_covered_grows(g, old_queue, queue@, h0);
                                    assert forall|d2: Direction|
                                        steps < u32::MAX && dir_index(d2)
                                            < di implies #[trigger] succ_covered(
                                        g,
                                        queue@,
                                        h0,
                                        d2,
                                    ) by {
                                        assert(succ_covered(g, old_queue, h0, d2));
                                        match search_move(
                                            g,
                                            queue@[h0].player,
                                            queue@[h0].boxes@.to_set(),
                                            d2,
                                        ) {
                                            None => {},
                                            Some(c2) => {
                                                let j2 = choose|j2: int|
                                                    0 <= j2 < old_queue.len() && (
                                                    #[trigger] old_queue[j2]).player == c2.0
                                                        && old_queue[j2].boxes@.to_set() == c2.1
                                                        && old_queue[j2].steps <= old_queue[h0].steps
                                                        + 1;
                                                assert(queue@[j2] == old_queue[j2]);
                                                assert(cfg_in_queue(
                                                    queue@,
                                                    c2,
                                                    queue@[h0].steps + 1,
                                                ));
                                            },
                                        }
                                    }
                                    assert(queue@[queue@.len() - 1].player == np);
                                    assert(queue@[queue@.len() - 1].boxes@.to_set() == c.1);
                                    assert(queue@[queue@.len() - 1].steps <= steps + 1);
                                    assert(cfg_in_queue(queue@, c, queue@[h0].steps + 1));
                                    assert(succ_covered(g, queue@, h0, dir));
                                    assert forall|i: int|
                                        0 <= i < visited@.len() implies key_in_queue(
                                        queue@,
                                        #[trigger] visited@[i],
                                    ) by {
                                        if i < old_visited.len() {
                                            assert(visited@[i] == old_visited[i]);
                                            lemma_key_in_queue_grows(
                                                old_queue,
                                                queue@,
                                                visited@[i],
                                            );
                                        } else {
                                            assert(visited@[i] == key);
                                            assert(queue@[queue@.len() - 1].player == key.player);
                                            assert(queue@[queue@.len() - 1].boxes@ == key.boxes@);
                                            assert(key_in_queue(queue@, key));
                                        }
                                    }
                                }
                            } else {
                                proof {
                                    let vi = choose|vi: int|
                                        0 <= vi < visited@.len() && key_eq(
                                            #[trigger] visited@[vi],
                                            key,
                                        );
                                    assert(key_in_queue(queue@, visited@[vi]));
                                    let j2 = choose|j2: int|
                                        0 <= j2 < queue@.len() && (#[trigger] queue@[j2]).player
                                            == visited@[vi].player && queue@[j2].boxes@
                                            == visited@[vi].boxes@;
                                    assert(queue@[j2].player == np);
                                    assert(queue@[j2].boxes@.to_set() == nb@.to_set());
                                    assert(queue@[j2].steps <= steps + 1);
                                    assert(cfg_in_queue(queue@, c, queue@[h0].steps + 1));
                                    assert(succ_covered(g, queue@, h0, dir));
                                }
                            }
                        }
                    },
                }
            }
            di = di + 1;
        }
        proof {
            assert(!winning(queue@[h0].boxes@.to_set(), tset));
            assert forall|j: int, d: Direction|
                0 <= j < head && queue@[j].steps < u32::MAX implies #[trigger] succ_covered(
                g,
                queue@,
                j,
                d,
            ) by {
                if j < h0 {
                } else {
                    assert(j == h0);
                    assert(dir_index(d) < 4) by {
                        match d {
                            Direction::Up => {},
                            Direction::Down => {},
                            Direction::Left => {},
                            Direction::Right => {},
                        }
                    }
                    assert(queue@[h0].steps == steps);
                    assert(succ_covered(g, queue@, h0, d));
                }
            }
        }
    }
    proof {
        assert(head == queue@.len());
        assert forall|m: nat| m <= u32::MAX as nat implies !solvable_in(g, player_pos, b0, m) by {
            if solvable_in(g, player_pos, b0, m) {
                let wpath = choose|wpath: Seq<Direction>|
                    wpath.len() == m && winning_path(g, player_pos, b0, wpath);
                assert(!blocked_cell(g, player_pos.0 as int, player_pos.1 as int));
                lemma_winning_path_not_pruned(g, player_pos, b0, wpath);
                lemma_short_search_path_covered(
                    g,
                    player_pos,
                    b0,
                    queue@,
                    queue@.len() as int,
                    m as int + 1,
                    wpath,
                    m as int,
                );
                assert(wpath.take(m as int) =~= wpath);
                let cend = search_path_result(g, player_pos, b0, wpath)->0;
                let j2 = choose|j2: int|
                    0 <= j2 < queue@.len() && (#[trigger] queue@[j2]).player == cend.0
                        && queue@[j2].boxes@.to_set() == cend.1 && queue@[j2].steps <= m as int;
                assert(!winning(queue@[j2].boxes@.to_set(), tset));
                assert(winning(cend.1, tset));
                assert(false);
            }
        }
        if winning(b0, tset) {
            let path0 = Seq::<Direction>::empty();
            assert(path_result(g, player_pos, b0, path0) == Some((player_pos, b0)));
            assert(winning_path(g, player_pos, b0, path0));
            assert(solvable_in(g, player_pos, b0, 0));
            assert(false);
        }
    }
    SolveResult { solvable: false, min_steps: None }
}

// ---------------------------------------------------------------------------
// Soundness of corner-deadlock pruning: a box on a corner-deadlocked cell
// never moves again, so no pruned branch can hold a solution.
// ---------------------------------------------------------------------------

/// One legal move from a configuration whose player stands on an open cell
/// keeps a corner-deadlocked box where it is, and moves the player to
/// another open cell.
proof fn lemma_cornered_box_stays(
    g: Seq<Seq<Tile>>,
    player: (usize, usize),
    boxes: Set<(usize, usize)>,
    b: (usize, usize),
    d: Direction,
)
    requires
        grid_dims_ok(g),
        !blocked_cell(g, player.0 as int, player.1 as int),
        boxes.contains(b),
        corner_deadlock_spec(g, b, target_set(g)),
        apply_move_spec(g, player, boxes, d) is Some,
    ensures
        (apply_move_spec(g, player, boxes, d)->0).1.contains(b),
        !blocked_cell(
            g,
            (apply_move_spec(g, player, boxes, d)->0).0.0 as int,
            (apply_move_spec(g, player, boxes, d)->0).0.1 as int,
        ),
{
    let nx = player.0 + dir_dx(d);
    let ny = player.1 + dir_dy(d);
    let np = (nx as usize, ny as usize);
    assert(!blocked_cell(g, nx, ny));
    assert(np.0 == nx && np.1 == ny);
    if boxes.contains(np) {
        let bx = nx + dir_dx(d);
        let by = ny + dir_dy(d);
        let q = (bx as usize, by as usize);
        assert(!blocked_cell(g, bx, by));
        if np == b {
            // A push of the cornered box itself is impossible: whichever
            // direction it comes from, either the cell beyond the box or the
            // player's own cell is one of the two blocked corner sides.
            match d {
                Direction::Up => {
                    assert(!blocked_cell(g, b.0 as int, b.1 - 1));
                    assert(!blocked_cell(g, b.0 as int, b.1 + 1));
                },
                Direction::Down => {
                    assert(!blocked_cell(g, b.0 as int, b.1 + 1));
                    assert(!blocked_cell(g, b.0 as int, b.1 - 1));
                },
                Direction::Left => {
                    assert(!blocked_cell(g, b.0 - 1, b.1 as int));
                    assert(!blocked_cell(g, b.0 + 1, b.1 as int));
                },
                Direction::Right => {
                    assert(!blocked_cell(g, b.0 + 1, b.1 as int));
                    assert(!blocked_cell(g, b.0 - 1, b.1 as int));
                },
            }
            assert(false);
        } else {
            assert(!boxes.contains(q));
            assert(b != q);
            assert((apply_move_spec(g, player, boxes, d)->0).1 == boxes.remove(np).insert(q));
        }
    }
}

/// Soundness of the pruning: from any configuration whose player stands on
/// an open cell and that holds a box on a corner-deadlocked cell, no
/// sequence of moves reaches a winning configuration. Discarding such
/// configurations can therefore never discard a solution.
pub proof fn lemma_corner_deadlock_sound(
    g: Seq<Seq<Tile>>,
    player: (usize, usize),
    boxes: Set<(usize, usize)>,
    b: (usize, usize),
    path: Seq<Direction>,
)
    requires
        grid_dims_ok(g),
        !blocked_cell(g, player.0 as int, player.1 as int),
        boxes.contains(b),
        corner_deadlock_spec(g, b, target_set(g)),
    ensures
        !winning_path(g, player, boxes, path),
    decreases path.len(),
{
    let tset = target_set(g);
    assert(!tset.contains(b));
    if path.len() == 0 {
        assert(path_result(g, player, boxes, path) == Some((player, boxes)));
        if winning(boxes, tset) {
            assert(tset.contains(b));
        }
    } else {
        match apply_move_spec(g, player, boxes, path[0]) {
            None => {
                assert(path_result(g, player, boxes, path) is None);
            },
            Some(c) => {
                lemma_cornered_box_stays(g, player, boxes, b, path[0]);
                lemma_corner_deadlock_sound(g, c.0, c.1, b, path.drop_first());
                assert(path_result(g, player, boxes, path) == path_result(
                    g,
                    c.0,
                    c.1,
                    path.drop_first(),
                ));
            },
        }
    }
}

} // verus!

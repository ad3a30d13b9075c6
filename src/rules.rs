use vstd::prelude::*;
use crate::grid::{cell_index, lemma_cell_index, lemma_cell_index_injective, on_border, Pixel, PixelInfo, PixelMap};

verus! {

/// 1 where the cell at `(x, y)` counts towards its neighbours' scores, else 0.
pub open spec fn alive_count(g: PixelMap, x: int, y: int) -> int {
    if g.at(x, y).alive() {
        1
    } else {
        0
    }
}

/// The number of the eight cells around `(x, y)` that are alive and not on
/// the border.
pub open spec fn neighborhood_score(g: PixelMap, x: int, y: int) -> int {
    alive_count(g, x - 1, y - 1) + alive_count(g, x - 1, y) + alive_count(g, x - 1, y + 1)
        + alive_count(g, x, y - 1) + alive_count(g, x, y + 1) + alive_count(g, x + 1, y - 1)
        + alive_count(g, x + 1, y) + alive_count(g, x + 1, y + 1)
}

/// Conway's transition: a live cell survives with two or three live
/// neighbours, a dead cell comes alive with exactly three.
pub open spec fn conway_rule(living: bool, score: int) -> bool {
    if living {
        score == 2 || score == 3
    } else {
        score == 3
    }
}

/// The next state that [`set_next_state`] stages at `(x, y)` of `g` for the
/// coordinate list `keys`: the rule's verdict for an interior cell that the
/// list names, and the staged state left as it was for any other cell.
pub open spec fn staged_state(g: PixelMap, keys: Seq<Pixel>, x: int, y: int) -> bool {
    if !g.at(x, y).boundry && keys.contains(Pixel { x: x as i32, y: y as i32 }) {
        conway_rule(g.at(x, y).living, neighborhood_score(g, x, y))
    } else {
        g.at(x, y).next_state
    }
}

/// `after` is the grid that [`set_next_state`] leaves from `before` and
/// `keys`: only staged states change, each to its [`staged_state`].
pub open spec fn computed_from(before: PixelMap, keys: Seq<Pixel>, after: PixelMap) -> bool {
    &&& after.wf()
    &&& after.xlen == before.xlen
    &&& after.ylen == before.ylen
    &&& forall|x: int, y: int|
        before.in_range(x, y) ==> #[trigger] after.at(x, y) == (PixelInfo {
            next_state: staged_state(before, keys, x, y),
            ..before.at(x, y)
        })
}

/// A cell after the commit: an interior cell takes its staged state as its
/// living state and clears the staged one; a border cell is left alone.
pub open spec fn committed(c: PixelInfo) -> PixelInfo {
    if c.boundry {
        c
    } else {
        PixelInfo { living: c.next_state, boundry: c.boundry, next_state: false }
    }
}

/// `after` is the grid that [`cycle_next`] leaves from `before`.
pub open spec fn committed_from(before: PixelMap, after: PixelMap) -> bool {
    &&& after.wf()
    &&& after.xlen == before.xlen
    &&& after.ylen == before.ylen
    &&& forall|x: int, y: int|
        before.in_range(x, y) ==> #[trigger] after.at(x, y) == committed(before.at(x, y))
}

/// Grids that agree on which cells live and which lie on the border give
/// every interior cell the same score.
pub proof fn lemma_score_depends_on_living(a: PixelMap, b: PixelMap, x: int, y: int)
    requires
        a.xlen == b.xlen,
        a.ylen == b.ylen,
        a.interior(x, y),
        forall|p: int, q: int|
            a.in_range(p, q) ==> (#[trigger] a.at(p, q)).living == b.at(p, q).living
                && a.at(p, q).boundry == b.at(p, q).boundry,
    ensures
        neighborhood_score(a, x, y) == neighborhood_score(b, x, y),
{
    assert(a.in_range(x - 1, y - 1) && a.in_range(x - 1, y) && a.in_range(x - 1, y + 1));
    assert(a.in_range(x, y - 1) && a.in_range(x, y + 1));
    assert(a.in_range(x + 1, y - 1) && a.in_range(x + 1, y) && a.in_range(x + 1, y + 1));
}

/// 1 where the cell at `(x, y)` is alive and not on the border, else 0.
fn neighbor_alive(x: i32, y: i32, pixmap: &PixelMap) -> (r: i32)
    requires
        pixmap.wf(),
        pixmap.in_range(x as int, y as int),
    ensures
        r == alive_count(*pixmap, x as int, y as int),
{
    let i = pixmap.index_of(x, y);
    if pixmap.cells[i].report_living() {
        1
    } else {
        0
    }
}

/// Counts the live, non-border cells among the eight neighbours of the
/// interior cell `(x, y)`.
pub fn get_neighborhood_score(x: i32, y: i32, pixmap: &PixelMap) -> (r: i32)
    requires
        pixmap.wf(),
        pixmap.interior(x as int, y as int),
    ensures
        r == neighborhood_score(*pixmap, x as int, y as int),
        0 <= r <= 8,
{
    let mut count: i32 = 0;
    count = count + neighbor_alive(x - 1, y - 1, pixmap);
    count = count + neighbor_alive(x - 1, y, pixmap);
    count = count + neighbor_alive(x - 1, y + 1, pixmap);
    count = count + neighbor_alive(x, y - 1, pixmap);
    count = count + neighbor_alive(x, y + 1, pixmap);
    count = count + neighbor_alive(x + 1, y - 1, pixmap);
    count = count + neighbor_alive(x + 1, y, pixmap);
    count = count + neighbor_alive(x + 1, y + 1, pixmap);
    count
}

/// Membership in a prefix one longer.
proof fn lemma_prefix_contains(keys: Seq<Pixel>, k: int, p: Pixel)
    requires
        0 <= k < keys.len(),
    ensures
        keys.subrange(0, k + 1).contains(p) == (keys.subrange(0, k).contains(p) || keys[k] == p),
{
    let longer = keys.subrange(0, k + 1);
    let shorter = keys.subrange(0, k);
    if shorter.contains(p) {
        let j = choose|j: int| 0 <= j < shorter.len() && shorter[j] == p;
        assert(longer[j] == p);
    }
    if keys[k] == p {
        assert(longer[k] == p);
    }
    if longer.contains(p) {
        let j = choose|j: int| 0 <= j < longer.len() && longer[j] == p;
        if j < k {
            assert(shorter[j] == p);
        }
    }
}

/// Stages the next state of every interior cell that `keyvec` names, from
/// the living states of the grid as it was on entry. Coordinates outside the
/// grid and border cells are skipped; living states and border flags are
/// left untouched, so each score is read from the same generation whatever
/// the order of `keyvec`.
pub fn set_next_state(pixmap: &mut PixelMap, keyvec: &Vec<Pixel>)
    requires
        old(pixmap).wf(),
    ensures
        computed_from(*old(pixmap), keyvec@, *final(pixmap)),
{
    let ghost start = *pixmap;
    let xlen = pixmap.xlen;
    let ylen = pixmap.ylen;
    let mut k: usize = 0;
    while k < keyvec.len()
        invariant
            start.wf(),
            computed_from(start, keyvec@.subrange(0, k as int), *pixmap),
            xlen == start.xlen,
            ylen == start.ylen,
            0 <= k <= keyvec@.len(),
        decreases keyvec@.len() - k,
    {
        let key = keyvec[k];
        let ghost seen = keyvec@.subrange(0, k as int);
        let ghost before = *pixmap;
        proof {
            assert forall|x: int, y: int| start.in_range(x, y) implies #[trigger] keyvec@.subrange(
                0,
                k + 1,
            ).contains(Pixel { x: x as i32, y: y as i32 }) == (seen.contains(
                Pixel { x: x as i32, y: y as i32 },
            ) || key == Pixel { x: x as i32, y: y as i32 }) by {
                lemma_prefix_contains(keyvec@, k as int, Pixel { x: x as i32, y: y as i32 });
            }
        }
        if 0 <= key.x && key.x <= xlen && 0 <= key.y && key.y <= ylen {
            let i = pixmap.index_of(key.x, key.y);
            let info = pixmap.cells[i];
            if !info.boundry {
                assert(info == pixmap.at(key.x as int, key.y as int));
                assert(pixmap.interior(key.x as int, key.y as int));
                proof {
                    lemma_score_depends_on_living(start, before, key.x as int, key.y as int);
                }
                let score = get_neighborhood_score(key.x, key.y, pixmap);
                let next_state = if info.living {
                    score == 2 || score == 3
                } else {
                    score == 3
                };
                pixmap.cells.set(i, PixelInfo { next_state: next_state, ..info });
                proof {
                    assert forall|a: int, b: int|
                        start.in_range(a, b) && (a != key.x || b != key.y) implies #[trigger] pixmap.at(
                            a,
                            b,
                        ) == before.at(a, b) by {
                        lemma_cell_index(xlen as int, ylen as int, a, b);
                        if cell_index(ylen as int, a, b) == i {
                            lemma_cell_index_injective(ylen as int, a, b, key.x as int, key.y as int);
                        }
                    }
                    assert forall|a: int, b: int| start.in_range(a, b) implies #[trigger] pixmap.at(
                        a,
                        b,
                    ) == (PixelInfo {
                        next_state: staged_state(start, keyvec@.subrange(0, k + 1), a, b),
                        ..start.at(a, b)
                    }) by {
                        if a != key.x || b != key.y {
                            assert(pixmap.at(a, b) == before.at(a, b));
                        } else {
                            assert(key == Pixel { x: a as i32, y: b as i32 });
                            assert(keyvec@.subrange(0, k + 1).contains(key));
                            assert(before.at(a, b) == info);
                        }
                    }
                }
            } else {
                proof {
                    assert forall|a: int, b: int| start.in_range(a, b) implies #[trigger] pixmap.at(
                        a,
                        b,
                    ) == (PixelInfo {
                        next_state: staged_state(start, keyvec@.subrange(0, k + 1), a, b),
                        ..start.at(a, b)
                    }) by {
                        assert(pixmap.at(a, b) == before.at(a, b));
                    }
                }
            }
        } else {
            proof {
                assert forall|a: int, b: int| start.in_range(a, b) implies #[trigger] pixmap.at(
                    a,
                    b,
                ) == (PixelInfo {
                    next_state: staged_state(start, keyvec@.subrange(0, k + 1), a, b),
                    ..start.at(a, b)
                }) by {
                    assert(pixmap.at(a, b) == before.at(a, b));
                }
            }
        }
        k = k + 1;
    }
    assert(keyvec@.subrange(0, keyvec@.len() as int) =~= keyvec@);
}

/// Commits the staged states: every interior cell takes its staged state as
/// its living state and clears the staged one. Border cells are untouched.
pub fn cycle_next(pixmap: &mut PixelMap)
    requires
        old(pixmap).wf(),
    ensures
        committed_from(*old(pixmap), *final(pixmap)),
{
    let ghost start = *pixmap;
    let n = pixmap.cells.len();
    let mut i: usize = 0;
    while i < n
        invariant
            start.wf(),
            pixmap.xlen == start.xlen,
            pixmap.ylen == start.ylen,
            n == start.cells@.len(),
            pixmap.cells@.len() == n,
            0 <= i <= n,
            forall|j: int| 0 <= j < i ==> #[trigger] pixmap.cells@[j] == committed(start.cells@[j]),
            forall|j: int| i <= j < n ==> #[trigger] pixmap.cells@[j] == start.cells@[j],
        decreases n - i,
    {
        let val = pixmap.cells[i];
        if !val.boundry {
            pixmap.cells.set(i, PixelInfo { living: val.next_state, boundry: val.boundry, next_state: false });
        }
        i = i + 1;
    }
    proof {
        assert forall|x: int, y: int| start.in_range(x, y) implies #[trigger] pixmap.at(x, y)
            == committed(start.at(x, y)) by {
            lemma_cell_index(start.xlen as int, start.ylen as int, x, y);
        }
        assert forall|x: int, y: int| pixmap.in_range(x, y) implies #[trigger] pixmap.at(x, y).boundry
            == on_border(pixmap.xlen as int, pixmap.ylen as int, x, y) by {
            assert(pixmap.at(x, y) == committed(start.at(x, y)));
        }
    }
}

} // verus!

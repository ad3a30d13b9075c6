use vstd::prelude::*;
use crate::grid::{on_border, Pixel, PixelMap};
use crate::render::{frame_text, row_text};
use crate::rules::{
    committed_from, computed_from, conway_rule, lemma_score_depends_on_living, neighborhood_score,
};

verus! {

/// One generation, staging with `keys` and then committing, keeps a dead
/// outer ring dead.
pub proof fn lemma_generation_keeps_border_dead(
    before: PixelMap,
    keys: Seq<Pixel>,
    staged: PixelMap,
    after: PixelMap,
)
    requires
        before.wf(),
        before.borders_dead(),
        computed_from(before, keys, staged),
        committed_from(staged, after),
    ensures
        after.wf(),
        after.borders_dead(),
{
    assert forall|x: int, y: int|
        after.in_range(x, y) && on_border(after.xlen as int, after.ylen as int, x, y) implies !(
        #[trigger] after.at(x, y)).living by {
        assert(staged.at(x, y).living == before.at(x, y).living);
        assert(staged.at(x, y).boundry == before.at(x, y).boundry);
    }
}

/// Border invariance: in a run that starts from a well-formed grid whose
/// outer ring is dead and advances generation after generation (staging with
/// any coordinate list, then committing), every cell of the outer ring is
/// dead in every generation.
pub proof fn lemma_border_invariance(
    generations: Seq<PixelMap>,
    staged: Seq<PixelMap>,
    keys: Seq<Seq<Pixel>>,
)
    requires
        generations.len() == staged.len() + 1,
        keys.len() == staged.len(),
        generations[0].wf(),
        generations[0].borders_dead(),
        forall|i: int|
            0 <= i < staged.len() ==> computed_from(generations[i], keys[i], #[trigger] staged[i])
                && committed_from(staged[i], generations[i + 1]),
    ensures
        forall|i: int| 0 <= i < generations.len() ==> (#[trigger] generations[i]).borders_dead(),
    decreases staged.len(),
{
    if staged.len() > 0 {
        let n = staged.len() - 1;
        lemma_border_invariance(generations.subrange(0, n + 1), staged.subrange(0, n), keys.subrange(0, n));
        assert(generations.subrange(0, n + 1)[n] == generations[n]);
        lemma_generation_wf(generations.subrange(0, n + 1), staged.subrange(0, n), keys.subrange(0, n));
        lemma_generation_keeps_border_dead(generations[n], keys[n], staged[n], generations[n + 1]);
        assert forall|i: int| 0 <= i < generations.len() implies (
        #[trigger] generations[i]).borders_dead() by {
            if i <= n {
                assert(generations.subrange(0, n + 1)[i] == generations[i]);
            }
        }
    }
}

/// Every generation of a run that starts from a well-formed grid is
/// well-formed.
proof fn lemma_generation_wf(generations: Seq<PixelMap>, staged: Seq<PixelMap>, keys: Seq<Seq<Pixel>>)
    requires
        generations.len() == staged.len() + 1,
        keys.len() == staged.len(),
        generations[0].wf(),
        forall|i: int|
            0 <= i < staged.len() ==> computed_from(generations[i], keys[i], #[trigger] staged[i])
                && committed_from(staged[i], generations[i + 1]),
    ensures
        generations[generations.len() - 1].wf(),
{
    if staged.len() > 0 {
        let n = staged.len() - 1;
        assert(computed_from(generations[n], keys[n], staged[n]));
        assert(committed_from(staged[n], generations[n + 1]));
    }
}

/// Idempotent border exclusion: staging with any coordinate list and then
/// committing leaves the living state of every border cell as it was.
pub proof fn lemma_border_untouched(
    before: PixelMap,
    keys: Seq<Pixel>,
    staged: PixelMap,
    after: PixelMap,
)
    requires
        before.wf(),
        computed_from(before, keys, staged),
        committed_from(staged, after),
    ensures
        forall|x: int, y: int|
            before.in_range(x, y) && on_border(before.xlen as int, before.ylen as int, x, y)
                ==> (#[trigger] after.at(x, y)).living == before.at(x, y).living,
{
    assert forall|x: int, y: int|
        before.in_range(x, y) && on_border(before.xlen as int, before.ylen as int, x, y) implies (
        #[trigger] after.at(x, y)).living == before.at(x, y).living by {
        assert(staged.at(x, y).boundry == before.at(x, y).boundry);
    }
}

/// The next generation follows the rule: when the coordinate list names
/// every interior cell, each interior cell's living state after staging and
/// committing is Conway's verdict on its current living state and its
/// current neighbour count, and on nothing else.
pub proof fn lemma_next_generation_rule(
    before: PixelMap,
    keys: Seq<Pixel>,
    staged: PixelMap,
    after: PixelMap,
)
    requires
        before.wf(),
        forall|x: int, y: int|
            before.interior(x, y) ==> #[trigger] keys.contains(Pixel { x: x as i32, y: y as i32 }),
        computed_from(before, keys, staged),
        committed_from(staged, after),
    ensures
        forall|x: int, y: int|
            before.interior(x, y) ==> (#[trigger] after.at(x, y)).living == conway_rule(
                before.at(x, y).living,
                neighborhood_score(before, x, y),
            ),
{
    assert forall|x: int, y: int| before.interior(x, y) implies (#[trigger] after.at(
        x,
        y,
    )).living == conway_rule(before.at(x, y).living, neighborhood_score(before, x, y)) by {
        assert(before.in_range(x, y));
        assert(keys.contains(Pixel { x: x as i32, y: y as i32 }));
        assert(staged.at(x, y).boundry == before.at(x, y).boundry);
    }
}

/// Staging is order-independent: staging the same grid with a coordinate
/// list and with any reordering of it gives identical grids, and committing
/// them gives identical next generations.
pub proof fn lemma_order_independence(
    before: PixelMap,
    keys: Seq<Pixel>,
    shuffled: Seq<Pixel>,
    staged1: PixelMap,
    staged2: PixelMap,
    after1: PixelMap,
    after2: PixelMap,
)
    requires
        before.wf(),
        keys.to_multiset() == shuffled.to_multiset(),
        computed_from(before, keys, staged1),
        computed_from(before, shuffled, staged2),
        committed_from(staged1, after1),
        committed_from(staged2, after2),
    ensures
        staged1.same_grid(staged2),
        after1.same_grid(after2),
{
    broadcast use vstd::seq_lib::to_multiset_contains;

    assert forall|x: int, y: int| staged1.in_range(x, y) implies #[trigger] staged1.at(x, y)
        == staged2.at(x, y) by {
        let p = Pixel { x: x as i32, y: y as i32 };
        assert(keys.contains(p) == (keys.to_multiset().count(p) > 0));
        assert(shuffled.contains(p) == (shuffled.to_multiset().count(p) > 0));
    }
    assert forall|x: int, y: int| after1.in_range(x, y) implies #[trigger] after1.at(x, y)
        == after2.at(x, y) by {
        assert(staged1.at(x, y) == staged2.at(x, y));
    }
}

/// Equal grids render to equal frames.
pub proof fn lemma_same_grid_same_frame(a: PixelMap, b: PixelMap, width: int, height: int)
    requires
        a.same_grid(b),
        0 <= width <= a.xlen + 1,
        height <= a.ylen + 1,
    ensures
        frame_text(a, width, height) == frame_text(b, width, height),
    decreases height,
{
    if height > 0 {
        lemma_same_grid_same_frame(a, b, width, height - 1);
        assert(row_text(a, height - 1, width) =~= row_text(b, height - 1, width)) by {
            assert forall|x: int| 0 <= x < width implies #[trigger] a.at(x, height - 1) == b.at(
                x,
                height - 1,
            ) by {
                assert(a.in_range(x, height - 1));
            }
        }
    }
}

/// One generation from equal grids with the same coordinate list gives
/// equal grids.
pub proof fn lemma_generation_deterministic(
    a: PixelMap,
    b: PixelMap,
    keys: Seq<Pixel>,
    staged_a: PixelMap,
    staged_b: PixelMap,
    after_a: PixelMap,
    after_b: PixelMap,
)
    requires
        a.wf(),
        a.same_grid(b),
        computed_from(a, keys, staged_a),
        computed_from(b, keys, staged_b),
        committed_from(staged_a, after_a),
        committed_from(staged_b, after_b),
    ensures
        after_a.same_grid(after_b),
{
    assert forall|x: int, y: int| staged_a.in_range(x, y) implies #[trigger] staged_a.at(x, y)
        == staged_b.at(x, y) by {
        if a.interior(x, y) {
            lemma_score_depends_on_living(a, b, x, y);
        }
    }
    assert forall|x: int, y: int| after_a.in_range(x, y) implies #[trigger] after_a.at(x, y)
        == after_b.at(x, y) by {
        assert(staged_a.at(x, y) == staged_b.at(x, y));
    }
}

/// Determinism: two runs that start from identical grids and stage each
/// generation with the same coordinate list render identical frames in every
/// generation.
pub proof fn lemma_deterministic_frames(
    run1: Seq<PixelMap>,
    staged1: Seq<PixelMap>,
    run2: Seq<PixelMap>,
    staged2: Seq<PixelMap>,
    keys: Seq<Seq<Pixel>>,
    width: int,
    height: int,
)
    requires
        run1.len() == staged1.len() + 1,
        run2.len() == staged2.len() + 1,
        staged1.len() == staged2.len(),
        keys.len() == staged1.len(),
        run1[0].wf(),
        run1[0].same_grid(run2[0]),
        0 <= width <= run1[0].xlen + 1,
        height <= run1[0].ylen + 1,
        forall|i: int|
            0 <= i < staged1.len() ==> computed_from(run1[i], keys[i], #[trigger] staged1[i])
                && committed_from(staged1[i], run1[i + 1]),
        forall|i: int|
            0 <= i < staged2.len() ==> computed_from(run2[i], keys[i], #[trigger] staged2[i])
                && committed_from(staged2[i], run2[i + 1]),
    ensures
        forall|i: int|
            0 <= i < run1.len() ==> frame_text(#[trigger] run1[i], width, height) == frame_text(
                run2[i],
                width,
                height,
            ),
    decreases staged1.len(),
{
    if staged1.len() > 0 {
        let n = staged1.len() - 1;
        let r1 = run1.subrange(0, n + 1);
        let r2 = run2.subrange(0, n + 1);
        let s1 = staged1.subrange(0, n);
        let s2 = staged2.subrange(0, n);
        let k = keys.subrange(0, n);
        lemma_deterministic_frames(r1, s1, r2, s2, k, width, height);
        lemma_same_runs(r1, s1, r2, s2, k);
        assert(r1[n] == run1[n] && r2[n] == run2[n]);
        assert(computed_from(run1[n], keys[n], staged1[n]));
        assert(computed_from(run2[n], keys[n], staged2[n]));
        lemma_generation_wf(r1, s1, k);
        lemma_generation_deterministic(
            run1[n],
            run2[n],
            keys[n],
            staged1[n],
            staged2[n],
            run1[n + 1],
            run2[n + 1],
        );
        lemma_same_grid_same_frame(run1[n + 1], run2[n + 1], width, height);
        assert forall|i: int| 0 <= i < run1.len() implies frame_text(
            #[trigger] run1[i],
            width,
            height,
        ) == frame_text(run2[i], width, height) by {
            if i <= n {
                assert(r1[i] == run1[i] && r2[i] == run2[i]);
            }
        }
    } else {
        lemma_same_grid_same_frame(run1[0], run2[0], width, height);
    }
}

/// The last generations of two runs as in [`lemma_deterministic_frames`]
/// are identical, with the dimensions of the first.
proof fn lemma_same_runs(
    run1: Seq<PixelMap>,
    staged1: Seq<PixelMap>,
    run2: Seq<PixelMap>,
    staged2: Seq<PixelMap>,
    keys: Seq<Seq<Pixel>>,
)
    requires
        run1.len() == staged1.len() + 1,
        run2.len() == staged2.len() + 1,
        staged1.len() == staged2.len(),
        keys.len() == staged1.len(),
        run1[0].wf(),
        run1[0].same_grid(run2[0]),
        forall|i: int|
            0 <= i < staged1.len() ==> computed_from(run1[i], keys[i], #[trigger] staged1[i])
                && committed_from(staged1[i], run1[i + 1]),
        forall|i: int|
            0 <= i < staged2.len() ==> computed_from(run2[i], keys[i], #[trigger] staged2[i])
                && committed_from(staged2[i], run2[i + 1]),
    ensures
        run1[run1.len() - 1].same_grid(run2[run2.len() - 1]),
        run1[run1.len() - 1].xlen == run1[0].xlen,
        run1[run1.len() - 1].ylen == run1[0].ylen,
    decreases staged1.len(),
{
    if staged1.len() > 0 {
        let n = staged1.len() - 1;
        let r1 = run1.subrange(0, n + 1);
        let r2 = run2.subrange(0, n + 1);
        let s1 = staged1.subrange(0, n);
        let s2 = staged2.subrange(0, n);
        let k = keys.subrange(0, n);
        lemma_same_runs(r1, s1, r2, s2, k);
        lemma_generation_wf(r1, s1, k);
        assert(r1[n] == run1[n] && r2[n] == run2[n]);
        assert(computed_from(run1[n], keys[n], staged1[n]));
        assert(computed_from(run2[n], keys[n], staged2[n]));
        lemma_generation_deterministic(
            run1[n],
            run2[n],
            keys[n],
            staged1[n],
            staged2[n],
            run1[n + 1],
            run2[n + 1],
        );
    }
}

} // verus!

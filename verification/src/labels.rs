//! Connected solid objects of a grid stored in Morton order: each group of
//! solid cells joined through their sides gets its own number.
use vstd::prelude::*;
use crate::morton::{
    morton_code,
    morton_coords,
    morton_decode,
    morton_encode,
    lemma_morton_code_bound,
    lemma_morton_coords_bound,
    lemma_decode_encode,
    lemma_encode_decode,
};

verus! {

/// A grid `w` cells wide and `h` cells high whose cells are stored in Morton
/// order: the points of the rectangle and the indices below `w * h`
/// correspond one to one through the Morton code.
pub open spec fn morton_rect(w: usize, h: usize) -> bool {
    &&& w * h < usize::MAX
    &&& forall|x: usize, y: usize|
        x < w && y < h ==> #[trigger] morton_code(x, y) < w * h && morton_coords(morton_code(x, y))
            == (x, y)
    &&& forall|z: usize|
        z < w * h ==> (#[trigger] morton_coords(z)).0 < w && morton_coords(z).1 < h && morton_code(
            morton_coords(z).0,
            morton_coords(z).1,
        ) == z
}

/// A rectangle `2^kx` wide and `2^ky` high, with `ky <= kx <= ky + 1`, is
/// stored in Morton order on exactly its first `2^(kx + ky)` indices.
pub proof fn lemma_morton_rect(kx: usize, ky: usize)
    requires
        ky <= kx <= ky + 1,
        kx + ky < 31,
    ensures
        morton_rect(1usize << kx, 1usize << ky),
        (1usize << kx) * (1usize << ky) == (1usize << (kx + ky)),
{
    let w = 1usize << kx;
    let h = 1usize << ky;
    assert(w * h == (1usize << (kx + ky)) && (1usize << (kx + ky)) < 0x8000_0000usize && kx < 16) by (bit_vector)
        requires
            w == 1usize << kx,
            h == 1usize << ky,
            ky <= kx <= ky + 1,
            kx + ky < 31,
    ;
    assert forall|x: usize, y: usize| x < w && y < h implies #[trigger] morton_code(x, y) < w * h
        && morton_coords(morton_code(x, y)) == (x, y) by {
        lemma_morton_code_bound(x, y, kx, ky);
        assert(x < 0x1_0000 && y < 0x1_0000) by (bit_vector)
            requires
                x < w,
                y < h,
                w == 1usize << kx,
                h == 1usize << ky,
                ky <= kx,
                kx < 16,
        ;
        lemma_decode_encode(x, y);
    }
    assert forall|z: usize| z < w * h implies (#[trigger] morton_coords(z)).0 < w && morton_coords(z).1 < h
        && morton_code(morton_coords(z).0, morton_coords(z).1) == z by {
        lemma_morton_coords_bound(z, kx, ky);
        lemma_encode_decode(z);
    }
}

/// Cells `a` and `b` of the grid share a side.
pub open spec fn adjacent(w: usize, h: usize, a: usize, b: usize) -> bool {
    let (ax, ay) = morton_coords(a);
    let (bx, by) = morton_coords(b);
    &&& a < w * h
    &&& b < w * h
    &&& ((ax == bx && (ay + 1 == by || by + 1 == ay)) || (ay == by && (ax + 1 == bx || bx + 1 == ax)))
}

/// `p` is a walk through solid cells, each sharing a side with the next.
pub open spec fn is_path(solid: Seq<bool>, w: usize, h: usize, p: Seq<usize>) -> bool {
    &&& p.len() >= 1
    &&& forall|i: int| 0 <= i < p.len() ==> (#[trigger] p[i]) < solid.len() && solid[p[i] as int]
    &&& forall|i: int| 0 <= i < p.len() - 1 ==> adjacent(w, h, #[trigger] p[i], p[i + 1])
}

/// Solid cells `a` and `b` are joined by a walk through solid cells.
pub open spec fn connected(solid: Seq<bool>, w: usize, h: usize, a: usize, b: usize) -> bool {
    exists|p: Seq<usize>| #[trigger] is_path(solid, w, h, p) && p[0] == a && p.last() == b
}

/// `r` is the first index that carries the number `id`.
pub open spec fn first_with(ids: Seq<usize>, r: usize, id: usize) -> bool {
    &&& r < ids.len()
    &&& ids[r as int] == id
    &&& forall|q: int| 0 <= q < r ==> #[trigger] ids[q] != id
}

/// Empty cells carry 0 and solid cells carry a positive number.
pub open spec fn labels_mark_solid(solid: Seq<bool>, ids: Seq<usize>) -> bool {
    &&& ids.len() == solid.len()
    &&& forall|k: int| 0 <= k < ids.len() ==> (#[trigger] ids[k] == 0 <==> !solid[k])
}

/// Solid cells that share a side carry the same number.
pub open spec fn labels_agree_on_sides(solid: Seq<bool>, w: usize, h: usize, ids: Seq<usize>) -> bool {
    forall|a: usize, b: usize|
        #![trigger adjacent(w, h, a, b), ids[a as int], ids[b as int]]
        adjacent(w, h, a, b) && a < ids.len() && b < ids.len() && solid[a as int] && solid[b as int]
            ==> ids[a as int] == ids[b as int]
}

/// Every solid cell is joined to the first cell that carries its number.
pub open spec fn labels_joined_to_first(solid: Seq<bool>, w: usize, h: usize, ids: Seq<usize>) -> bool {
    forall|k: usize|
        k < ids.len() && solid[k as int] ==> exists|r: usize|
            r <= k && #[trigger] first_with(ids, r, ids[k as int]) && connected(solid, w, h, r, k)
}

/// Numbers are given from 1 on, in the order in which they first appear:
/// before any cell numbered `n > 1` some cell is numbered `n - 1`.
pub open spec fn labels_in_order(ids: Seq<usize>) -> bool {
    forall|k: int|
        0 <= k < ids.len() && ids[k] > 1 ==> exists|q: int| 0 <= q < k && #[trigger] ids[q] == ids[k] - 1
}

/// `ids` numbers the objects of the grid: empty cells get 0; solid cells
/// that share a side get the same number; every solid cell is joined to the
/// first cell that carries its number; and the numbers are given from 1 in
/// the order in which objects first appear in the index order.
pub open spec fn labels_objects(solid: Seq<bool>, w: usize, h: usize, ids: Seq<usize>) -> bool {
    &&& labels_mark_solid(solid, ids)
    &&& labels_agree_on_sides(solid, w, h, ids)
    &&& labels_joined_to_first(solid, w, h, ids)
    &&& labels_in_order(ids)
}

/// How many entries of `s` are not 0.
pub open spec fn labeled_count(s: Seq<usize>) -> nat
    decreases s.len(),
{
    if s.len() == 0 {
        0
    } else {
        labeled_count(s.drop_last()) + if s.last() != 0 {
            1nat
        } else {
            0nat
        }
    }
}

proof fn lemma_labeled_count_bound(s: Seq<usize>)
    ensures
        labeled_count(s) <= s.len(),
    decreases s.len(),
{
    if s.len() > 0 {
        lemma_labeled_count_bound(s.drop_last());
    }
}

proof fn lemma_labeled_count_update(s: Seq<usize>, k: int, v: usize)
    requires
        0 <= k < s.len(),
        s[k] == 0,
        v != 0,
    ensures
        labeled_count(s.update(k, v)) == labeled_count(s) + 1,
    decreases s.len(),
{
    let t = s.update(k, v);
    if k < s.len() - 1 {
        assert(t.drop_last() =~= s.drop_last().update(k, v));
        lemma_labeled_count_update(s.drop_last(), k, v);
    } else {
        assert(t.drop_last() =~= s.drop_last());
    }
}

/// Walking back along a path is a path.
proof fn lemma_path_reverse(solid: Seq<bool>, w: usize, h: usize, p: Seq<usize>)
    requires
        is_path(solid, w, h, p),
    ensures
        is_path(solid, w, h, p.reverse()),
        p.reverse()[0] == p.last(),
        p.reverse().last() == p[0],
{
    let r = p.reverse();
    assert forall|i: int| 0 <= i < r.len() implies (#[trigger] r[i]) < solid.len() && solid[r[i] as int] by {
        assert(r[i] == p[p.len() - 1 - i]);
    }
    assert forall|i: int| 0 <= i < r.len() - 1 implies adjacent(w, h, #[trigger] r[i], r[i + 1]) by {
        let j = p.len() - 2 - i;
        assert(r[i] == p[j + 1]);
        assert(r[i + 1] == p[j]);
        assert(adjacent(w, h, p[j], p[j + 1]));
    }
}

/// Two paths where the first ends where the second starts join into one.
proof fn lemma_path_join(solid: Seq<bool>, w: usize, h: usize, p: Seq<usize>, q: Seq<usize>)
    requires
        is_path(solid, w, h, p),
        is_path(solid, w, h, q),
        p.last() == q[0],
    ensures
        is_path(solid, w, h, p + q.drop_first()),
        (p + q.drop_first())[0] == p[0],
        (p + q.drop_first()).last() == q.last(),
{
    let j = p + q.drop_first();
    assert forall|i: int| 0 <= i < j.len() implies (#[trigger] j[i]) < solid.len() && solid[j[i] as int] by {
        if i >= p.len() {
            assert(j[i] == q[i - p.len() + 1]);
        }
    }
    assert forall|i: int| 0 <= i < j.len() - 1 implies adjacent(w, h, #[trigger] j[i], j[i + 1]) by {
        if i < p.len() - 1 {
            assert(j[i] == p[i] && j[i + 1] == p[i + 1]);
        } else if i == p.len() - 1 {
            assert(j[i] == q[0] && j[i + 1] == q[1]);
        } else {
            let m = i - p.len() + 1;
            assert(j[i] == q[m] && j[i + 1] == q[m + 1]);
        }
    }
    if q.len() == 1 {
        assert(j =~= p);
    } else {
        assert(j.last() == q[q.len() - 1]);
    }
}

/// Being joined is symmetric and transitive.
pub proof fn lemma_connected_join(solid: Seq<bool>, w: usize, h: usize, a: usize, b: usize, c: usize)
    requires
        connected(solid, w, h, b, a),
        connected(solid, w, h, b, c),
    ensures
        connected(solid, w, h, a, c),
{
    let p = choose|p: Seq<usize>| #[trigger] is_path(solid, w, h, p) && p[0] == b && p.last() == a;
    let q = choose|q: Seq<usize>| #[trigger] is_path(solid, w, h, q) && q[0] == b && q.last() == c;
    lemma_path_reverse(solid, w, h, p);
    lemma_path_join(solid, w, h, p.reverse(), q);
    assert(is_path(solid, w, h, p.reverse() + q.drop_first()));
}

/// Following a path, the numbers never change: cells that are joined carry
/// the same number.
proof fn lemma_path_same_label(solid: Seq<bool>, w: usize, h: usize, ids: Seq<usize>, p: Seq<usize>)
    requires
        ids.len() == solid.len(),
        labels_agree_on_sides(solid, w, h, ids),
        is_path(solid, w, h, p),
    ensures
        ids[p.last() as int] == ids[p[0] as int],
    decreases p.len(),
{
    if p.len() > 1 {
        let q = p.drop_last();
        assert forall|i: int| 0 <= i < q.len() implies (#[trigger] q[i]) < solid.len() && solid[q[i] as int] by {
            assert(q[i] == p[i]);
        }
        assert forall|i: int| 0 <= i < q.len() - 1 implies adjacent(w, h, #[trigger] q[i], q[i + 1]) by {
            assert(q[i] == p[i] && q[i + 1] == p[i + 1]);
        }
        lemma_path_same_label(solid, w, h, ids, q);
        let m = p.len() - 2;
        assert(adjacent(w, h, p[m], p[m + 1]));
        assert(solid[p[m] as int] && solid[p[m + 1] as int]);
    }
}

/// Two solid cells carry the same number exactly when a walk through solid
/// cells joins them: the numbers are the objects.
pub proof fn lemma_same_label_iff_connected(
    solid: Seq<bool>,
    w: usize,
    h: usize,
    ids: Seq<usize>,
    a: usize,
    b: usize,
)
    requires
        labels_objects(solid, w, h, ids),
        a < ids.len(),
        b < ids.len(),
        solid[a as int],
        solid[b as int],
    ensures
        ids[a as int] == ids[b as int] <==> connected(solid, w, h, a, b),
{
    if ids[a as int] == ids[b as int] {
        let ra = choose|r: usize| r <= a && #[trigger] first_with(ids, r, ids[a as int]) && connected(solid, w, h, r, a);
        let rb = choose|r: usize| r <= b && #[trigger] first_with(ids, r, ids[b as int]) && connected(solid, w, h, r, b);
        assert(ra == rb) by {
            if ra < rb {
                assert(ids[ra as int] != ids[b as int]);
            } else if rb < ra {
                assert(ids[rb as int] != ids[a as int]);
            }
        }
        lemma_connected_join(solid, w, h, a, ra, b);
    }
    if connected(solid, w, h, a, b) {
        let p = choose|p: Seq<usize>| #[trigger] is_path(solid, w, h, p) && p[0] == a && p.last() == b;
        lemma_path_same_label(solid, w, h, ids, p);
    }
}

/// The index of a cell given by its coordinates.
pub open spec fn code_of(c: (usize, usize)) -> usize {
    morton_code(c.0, c.1)
}

/// Cell `a` waits on the stack of cells whose neighbours are still to be seen.
spec fn on_stack(stack: Seq<(usize, usize)>, a: usize) -> bool {
    exists|i: int| 0 <= i < stack.len() && code_of(#[trigger] stack[i]) == a
}

/// The stack holds distinct cells of the grid, all numbered `label`.
spec fn stack_ok(stack: Seq<(usize, usize)>, ids: Seq<usize>, w: usize, h: usize, label: usize) -> bool {
    &&& forall|i: int|
        0 <= i < stack.len() ==> (#[trigger] stack[i]).0 < w && stack[i].1 < h && ids[code_of(stack[i]) as int]
            == label
    &&& forall|i: int, j: int|
        0 <= i < j < stack.len() ==> code_of(#[trigger] stack[i]) != code_of(#[trigger] stack[j])
}

/// Every numbered cell, but those on the stack and `skip`, has all its solid
/// neighbours numbered alike.
spec fn closed_except(
    solid: Seq<bool>,
    w: usize,
    h: usize,
    ids: Seq<usize>,
    stack: Seq<(usize, usize)>,
    skip: Option<usize>,
) -> bool {
    forall|a: usize, b: usize|
        #![trigger adjacent(w, h, a, b), ids[a as int], ids[b as int]]
        adjacent(w, h, a, b) && a < ids.len() && b < ids.len() && ids[a as int] != 0 && solid[b as int]
            && !on_stack(stack, a) && skip != Some(a) ==> ids[b as int] == ids[a as int]
}

/// `seeds[l]` is the first cell numbered `l + 1`; seeds come in increasing
/// order; each numbered cell comes after its seed and is joined to it.
spec fn seeds_ok(solid: Seq<bool>, w: usize, h: usize, ids: Seq<usize>, seeds: Seq<usize>) -> bool {
    &&& forall|l: int| 0 <= l < seeds.len() ==> first_with(ids, #[trigger] seeds[l], (l + 1) as usize)
    &&& forall|l: int, m: int| 0 <= l < m < seeds.len() ==> #[trigger] seeds[l] < #[trigger] seeds[m]
    &&& forall|k: int|
        0 <= k < ids.len() && #[trigger] ids[k] != 0 ==> ids[k] <= seeds.len() && seeds[ids[k] - 1] <= k
            && connected(solid, w, h, seeds[ids[k] - 1], k as usize)
}

/// The state of the scan while the object numbered `label`, seeded at
/// `seed`, is being filled.
spec fn fill_state(
    solid: Seq<bool>,
    w: usize,
    h: usize,
    ids: Seq<usize>,
    stack: Seq<(usize, usize)>,
    seeds: Seq<usize>,
    seed: usize,
    label: usize,
    skip: Option<usize>,
) -> bool {
    &&& morton_rect(w, h)
    &&& solid.len() == w * h
    &&& ids.len() == w * h
    &&& 1 <= label
    &&& forall|k: int| 0 <= k < ids.len() ==> #[trigger] ids[k] <= label && (ids[k] != 0 ==> solid[k])
    &&& forall|k: int| 0 <= k < seed && solid[k] ==> #[trigger] ids[k] != 0
    &&& seeds.len() == label
    &&& seeds[label - 1] == seed
    &&& seeds_ok(solid, w, h, ids, seeds)
    &&& stack_ok(stack, ids, w, h, label)
    &&& closed_except(solid, w, h, ids, stack, skip)
}

/// Numbers `(ni, nj)` and puts it on the stack if it is a solid cell of the
/// grid that has no number yet.
fn visit(
    solid: &Vec<bool>,
    w: usize,
    h: usize,
    ids: &mut Vec<usize>,
    stack: &mut Vec<(usize, usize)>,
    ni: usize,
    nj: usize,
    label: usize,
    Ghost(seeds): Ghost<Seq<usize>>,
    Ghost(seed): Ghost<usize>,
    Ghost(c): Ghost<(usize, usize)>,
)
    requires
        fill_state(solid@, w, h, old(ids)@, old(stack)@, seeds, seed, label, Some(code_of(c))),
        c.0 < w && c.1 < h,
        old(ids)@[code_of(c) as int] == label,
        !on_stack(old(stack)@, code_of(c)),
        ni < w && nj < h ==> ((ni == c.0 && (nj + 1 == c.1 || c.1 + 1 == nj)) || (nj == c.1 && (ni + 1
            == c.0 || c.0 + 1 == ni))),
    ensures
        fill_state(solid@, w, h, final(ids)@, final(stack)@, seeds, seed, label, Some(code_of(c))),
        !on_stack(final(stack)@, code_of(c)),
        forall|k: int| 0 <= k < old(ids)@.len() && old(ids)@[k] != 0 ==> #[trigger] final(ids)@[k] == old(ids)@[k],
        ni < w && nj < h && solid@[morton_code(ni, nj) as int] ==> final(ids)@[morton_code(ni, nj) as int] != 0,
        2 * (w * h - labeled_count(final(ids)@)) + final(stack)@.len() <= 2 * (w * h - labeled_count(old(ids)@))
            + old(stack)@.len(),
{
    proof {
        lemma_labeled_count_bound(ids@);
    }
    if ni < w && nj < h {
        let nidx = morton_encode(ni, nj);
        if solid[nidx] && ids[nidx] == 0 {
            let ghost ids0 = ids@;
            let ghost stack0 = stack@;
            let ghost cc = code_of(c);
            proof {
                lemma_labeled_count_update(ids0, nidx as int, label);
                assert(adjacent(w, h, cc, nidx));
                let p = choose|p: Seq<usize>| #[trigger] is_path(solid@, w, h, p) && p[0] == seeds[label - 1] && p.last() == cc;
                let q = p.push(nidx);
                assert forall|i: int| 0 <= i < q.len() implies (#[trigger] q[i]) < solid@.len() && solid@[q[i] as int] by {
                    if i < p.len() {
                        assert(q[i] == p[i]);
                    }
                }
                assert forall|i: int| 0 <= i < q.len() - 1 implies adjacent(w, h, #[trigger] q[i], q[i + 1]) by {
                    if i < p.len() - 1 {
                        assert(q[i] == p[i] && q[i + 1] == p[i + 1]);
                    }
                }
                assert(is_path(solid@, w, h, q) && q[0] == seeds[label - 1] && q.last() == nidx);
                assert(nidx >= seed);
            }
            ids.set(nidx, label);
            stack.push((ni, nj));
            proof {
                let ids1 = ids@;
                let stack1 = stack@;
                assert forall|i: int| 0 <= i < stack1.len() implies (#[trigger] stack1[i]).0 < w && stack1[i].1 < h
                    && ids1[code_of(stack1[i]) as int] == label by {
                    if i < stack0.len() {
                        assert(stack1[i] == stack0[i]);
                    }
                }
                assert forall|i: int, j: int| 0 <= i < j < stack1.len() implies code_of(#[trigger] stack1[i])
                    != code_of(#[trigger] stack1[j]) by {
                    assert(stack1[i] == stack0[i]);
                    if j < stack0.len() {
                        assert(stack1[j] == stack0[j]);
                    } else {
                        assert(ids0[code_of(stack0[i]) as int] == label);
                    }
                }
                assert forall|a: usize| #[trigger] on_stack(stack1, a) implies on_stack(stack0, a) || a == nidx by {
                    let i = choose|i: int| 0 <= i < stack1.len() && code_of(#[trigger] stack1[i]) == a;
                    if i < stack0.len() {
                        assert(stack1[i] == stack0[i]);
                    }
                }
                assert(on_stack(stack1, nidx)) by {
                    assert(stack1[stack0.len() as int] == (ni, nj));
                }
                assert(!on_stack(stack1, cc)) by {
                    if on_stack(stack1, cc) {
                        assert(on_stack(stack0, cc) || cc == nidx);
                    }
                }
                assert forall|a: usize, b: usize|
                    #![trigger adjacent(w, h, a, b), ids1[a as int], ids1[b as int]]
                    adjacent(w, h, a, b) && a < ids1.len() && b < ids1.len() && ids1[a as int] != 0
                        && solid@[b as int] && !on_stack(stack1, a) && Some(cc) != Some(a) implies ids1[b as int]
                    == ids1[a as int] by {
                    assert(a != nidx);
                    if !on_stack(stack0, a) {
                        assert(ids0[b as int] == ids0[a as int]);
                    } else {
                        let i = choose|i: int| 0 <= i < stack0.len() && code_of(#[trigger] stack0[i]) == a;
                        assert(stack1[i] == stack0[i]);
                    }
                }
                let sd = seeds;
                assert forall|l: int| 0 <= l < sd.len() implies first_with(ids1, #[trigger] sd[l], (l + 1) as usize) by {
                    assert(first_with(ids0, sd[l], (l + 1) as usize));
                    if l + 1 == label {
                        assert forall|q: int| 0 <= q < sd[l] implies #[trigger] ids1[q] != (l + 1) as usize by {
                            assert(ids0[q] != (l + 1) as usize);
                        }
                    }
                }
                assert forall|k: int| 0 <= k < ids1.len() && #[trigger] ids1[k] != 0 implies ids1[k] <= sd.len()
                    && sd[ids1[k] - 1] <= k && connected(solid@, w, h, sd[ids1[k] - 1], k as usize) by {
                    if k != nidx {
                        assert(ids1[k] == ids0[k]);
                    }
                }
            }
        }
    }
}

proof fn lemma_after_pop(
    solid: Seq<bool>,
    w: usize,
    h: usize,
    ids: Seq<usize>,
    stack0: Seq<(usize, usize)>,
    seeds: Seq<usize>,
    seed: usize,
    label: usize,
)
    requires
        fill_state(solid, w, h, ids, stack0, seeds, seed, label, None),
        stack0.len() > 0,
    ensures
        ({
            let c = stack0.last();
            &&& fill_state(solid, w, h, ids, stack0.drop_last(), seeds, seed, label, Some(code_of(c)))
            &&& !on_stack(stack0.drop_last(), code_of(c))
            &&& ids[code_of(c) as int] == label
            &&& c.0 < w && c.1 < h
        }),
{
    let last = stack0.len() - 1;
    let c = stack0[last];
    let cc = code_of(c);
    let stack = stack0.drop_last();
    assert(!on_stack(stack, cc)) by {
        if on_stack(stack, cc) {
            let i = choose|i: int| 0 <= i < stack.len() && code_of(#[trigger] stack[i]) == cc;
            assert(stack0[i] == stack[i]);
        }
    }
    assert forall|a: usize| #[trigger] on_stack(stack0, a) implies on_stack(stack, a) || a == cc by {
        let i = choose|i: int| 0 <= i < stack0.len() && code_of(#[trigger] stack0[i]) == a;
        if i < last {
            assert(stack[i] == stack0[i]);
        }
    }
    assert forall|i: int| 0 <= i < stack.len() implies (#[trigger] stack[i]).0 < w && stack[i].1 < h
        && ids[code_of(stack[i]) as int] == label by {
        assert(stack[i] == stack0[i]);
    }
    assert forall|i: int, j: int| 0 <= i < j < stack.len() implies code_of(#[trigger] stack[i])
        != code_of(#[trigger] stack[j]) by {
        assert(stack[i] == stack0[i] && stack[j] == stack0[j]);
    }
}

proof fn lemma_neighbours_numbered(
    solid: Seq<bool>,
    w: usize,
    h: usize,
    c: (usize, usize),
    ids1: Seq<usize>,
    ids2: Seq<usize>,
    ids3: Seq<usize>,
    ids4: Seq<usize>,
)
    requires
        morton_rect(w, h),
        solid.len() == w * h,
        c.0 < w && c.1 < h,
        ids1.len() == w * h && ids2.len() == w * h && ids3.len() == w * h && ids4.len() == w * h,
        c.0.wrapping_sub(1) < w && c.1 < h && solid[morton_code(c.0.wrapping_sub(1), c.1) as int] ==> ids1[morton_code(
            c.0.wrapping_sub(1),
            c.1,
        ) as int] != 0,
        c.0 + 1 < w && c.1 < h && solid[morton_code((c.0 + 1) as usize, c.1) as int] ==> ids2[morton_code(
            (c.0 + 1) as usize,
            c.1,
        ) as int] != 0,
        c.0 < w && c.1.wrapping_sub(1) < h && solid[morton_code(c.0, c.1.wrapping_sub(1)) as int] ==> ids3[morton_code(
            c.0,
            c.1.wrapping_sub(1),
        ) as int] != 0,
        c.0 < w && c.1 + 1 < h && solid[morton_code(c.0, (c.1 + 1) as usize) as int] ==> ids4[morton_code(
            c.0,
            (c.1 + 1) as usize,
        ) as int] != 0,
        forall|k: int| 0 <= k < w * h && ids1[k] != 0 ==> #[trigger] ids2[k] == ids1[k],
        forall|k: int| 0 <= k < w * h && ids2[k] != 0 ==> #[trigger] ids3[k] == ids2[k],
        forall|k: int| 0 <= k < w * h && ids3[k] != 0 ==> #[trigger] ids4[k] == ids3[k],
    ensures
        forall|b: usize| adjacent(w, h, code_of(c), b) && #[trigger] solid[b as int] ==> ids4[b as int] != 0,
{
    let cc = code_of(c);
    assert(morton_coords(cc) == (c.0, c.1));
    assert forall|b: usize| adjacent(w, h, cc, b) && #[trigger] solid[b as int] implies ids4[b as int] != 0 by {
        let (bx, by) = morton_coords(b);
        assert(morton_code(bx, by) == b);
        if bx + 1 == c.0 && by == c.1 {
            assert(ids1[b as int] != 0);
        } else if bx == c.0 + 1 && by == c.1 {
            assert(ids2[b as int] != 0);
        } else if bx == c.0 && by + 1 == c.1 {
            assert(ids3[b as int] != 0);
        } else {
            assert(ids4[b as int] != 0);
        }
    }
}

proof fn lemma_close_cell(
    solid: Seq<bool>,
    w: usize,
    h: usize,
    ids: Seq<usize>,
    stack: Seq<(usize, usize)>,
    seeds: Seq<usize>,
    seed: usize,
    label: usize,
    cc: usize,
)
    requires
        fill_state(solid, w, h, ids, stack, seeds, seed, label, Some(cc)),
        !on_stack(stack, cc),
        cc < ids.len(),
        ids[cc as int] == label,
        forall|b: usize| adjacent(w, h, cc, b) && #[trigger] solid[b as int] ==> ids[b as int] != 0,
    ensures
        fill_state(solid, w, h, ids, stack, seeds, seed, label, None),
{
    assert forall|b: usize| adjacent(w, h, cc, b) && #[trigger] solid[b as int] implies ids[b as int] == label by {
        assert(ids[b as int] != 0);
        if ids[b as int] != label {
            assert(!on_stack(stack, b)) by {
                if on_stack(stack, b) {
                    let i = choose|i: int| 0 <= i < stack.len() && code_of(#[trigger] stack[i]) == b;
                }
            }
            assert(adjacent(w, h, b, cc));
            assert(ids[cc as int] == ids[b as int]);
        }
    }
    assert forall|a: usize, b: usize|
        #![trigger adjacent(w, h, a, b), ids[a as int], ids[b as int]]
        adjacent(w, h, a, b) && a < ids.len() && b < ids.len() && ids[a as int] != 0 && solid[b as int]
            && !on_stack(stack, a) && None::<usize> != Some(a) implies ids[b as int] == ids[a as int] by {
        if a == cc {
            assert(solid[b as int]);
            assert(ids[b as int] == label);
        }
    }
}

/// Numbers the whole object that the stack holds, by depth-first search.
fn fill_object(
    solid: &Vec<bool>,
    w: usize,
    h: usize,
    ids: &mut Vec<usize>,
    stack: &mut Vec<(usize, usize)>,
    label: usize,
    Ghost(seeds): Ghost<Seq<usize>>,
    Ghost(seed): Ghost<usize>,
)
    requires
        fill_state(solid@, w, h, old(ids)@, old(stack)@, seeds, seed, label, None),
    ensures
        fill_state(solid@, w, h, final(ids)@, final(stack)@, seeds, seed, label, None),
        final(stack)@.len() == 0,
        forall|k: int| 0 <= k < old(ids)@.len() && old(ids)@[k] != 0 ==> #[trigger] final(ids)@[k] == old(ids)@[k],
{
    let ghost start = ids@;
    while stack.len() > 0
        invariant
            fill_state(solid@, w, h, ids@, stack@, seeds, seed, label, None),
            ids@.len() == start.len(),
            forall|k: int| 0 <= k < start.len() && start[k] != 0 ==> #[trigger] ids@[k] == start[k],
        decreases 2 * (w * h - labeled_count(ids@)) + stack@.len(),
    {
        let ghost stack0 = stack@;
        proof {
            lemma_after_pop(solid@, w, h, ids@, stack0, seeds, seed, label);
            lemma_labeled_count_bound(ids@);
        }
        let (ci, cj) = stack.pop().unwrap();
        let ghost c = (ci, cj);
        proof {
            assert(stack@ =~= stack0.drop_last());
        }
        visit(solid, w, h, ids, stack, ci.wrapping_sub(1), cj, label, Ghost(seeds), Ghost(seed), Ghost(c));
        let ghost ids1 = ids@;
        visit(solid, w, h, ids, stack, ci + 1, cj, label, Ghost(seeds), Ghost(seed), Ghost(c));
        let ghost ids2 = ids@;
        visit(solid, w, h, ids, stack, ci, cj.wrapping_sub(1), label, Ghost(seeds), Ghost(seed), Ghost(c));
        let ghost ids3 = ids@;
        visit(solid, w, h, ids, stack, ci, cj + 1, label, Ghost(seeds), Ghost(seed), Ghost(c));
        proof {
            lemma_neighbours_numbered(solid@, w, h, c, ids1, ids2, ids3, ids@);
            lemma_close_cell(solid@, w, h, ids@, stack@, seeds, seed, label, code_of(c));
            lemma_labeled_count_bound(ids@);
        }
    }
}

/// Numbers the objects of a grid `w` cells wide and `h` cells high stored in
/// Morton order: solid cells joined through their sides get the same number,
/// from 1 on in the index order of their first cell; empty cells get 0.
pub fn label_objects(solid: &Vec<bool>, w: usize, h: usize) -> (ids: Vec<usize>)
    requires
        morton_rect(w, h),
        solid@.len() == w * h,
    ensures
        labels_objects(solid@, w, h, ids@),
{
    let n = solid.len();
    let mut ids: Vec<usize> = Vec::new();
    while ids.len() < n
        invariant
            ids@.len() <= n,
            n == solid@.len(),
            forall|k: int| 0 <= k < ids@.len() ==> #[trigger] ids@[k] == 0,
        decreases n - ids@.len(),
    {
        ids.push(0);
    }
    let mut current: usize = 1;
    let mut stack: Vec<(usize, usize)> = Vec::new();
    let ghost mut seeds: Seq<usize> = Seq::empty();
    let mut idx: usize = 0;
    proof {
        assert forall|a: usize, b: usize|
            #![trigger adjacent(w, h, a, b), ids@[a as int], ids@[b as int]]
            adjacent(w, h, a, b) && a < ids@.len() && b < ids@.len() && ids@[a as int] != 0 && solid@[b as int]
                && !on_stack(stack@, a) && None::<usize> != Some(a) implies ids@[b as int] == ids@[a as int] by {}
    }
    while idx < n
        invariant
            morton_rect(w, h),
            n == solid@.len(),
            n == w * h,
            ids@.len() == n,
            stack@.len() == 0,
            1 <= current <= idx + 1,
            idx <= n,
            forall|k: int| 0 <= k < ids@.len() ==> #[trigger] ids@[k] < current && (ids@[k] != 0 ==> solid@[k]),
            forall|k: int| 0 <= k < idx && solid@[k] ==> #[trigger] ids@[k] != 0,
            seeds.len() == current - 1,
            seeds_ok(solid@, w, h, ids@, seeds),
            forall|l: int| 0 <= l < seeds.len() ==> #[trigger] seeds[l] < idx,
            closed_except(solid@, w, h, ids@, stack@, None),
        decreases n - idx,
    {
        let (i, j) = morton_decode(idx);
        if solid[idx] && ids[idx] == 0 {
            let ghost ids0 = ids@;
            let ghost seeds0 = seeds;
            ids.set(idx, current);
            stack.push((i, j));
            proof {
                seeds = seeds.push(idx);
                let ids1 = ids@;
                assert(code_of(stack@[0]) == idx);
                assert forall|a: usize| #[trigger] on_stack(stack@, a) implies a == idx by {
                    let k = choose|k: int| 0 <= k < stack@.len() && code_of(#[trigger] stack@[k]) == a;
                    assert(k == 0);
                }
                assert forall|a: usize, b: usize|
                    #![trigger adjacent(w, h, a, b), ids1[a as int], ids1[b as int]]
                    adjacent(w, h, a, b) && a < ids1.len() && b < ids1.len() && ids1[a as int] != 0
                        && solid@[b as int] && !on_stack(stack@, a) && None::<usize> != Some(a) implies ids1[b as int]
                    == ids1[a as int] by {
                    assert(a != idx);
                    assert(!on_stack(Seq::<(usize, usize)>::empty(), a));
                    assert(ids0[b as int] == ids0[a as int]);
                }
                assert forall|l: int| 0 <= l < seeds.len() implies first_with(ids1, #[trigger] seeds[l], (l + 1) as usize) by {
                    if l < seeds0.len() {
                        assert(first_with(ids0, seeds0[l], (l + 1) as usize));
                    }
                }
                assert forall|l: int, m: int| 0 <= l < m < seeds.len() implies #[trigger] seeds[l] < #[trigger] seeds[m] by {
                    if m < seeds0.len() {
                        assert(seeds0[l] < seeds0[m]);
                    } else {
                        assert(seeds0[l] < idx);
                    }
                }
                let single = seq![idx];
                assert(is_path(solid@, w, h, single));
                assert forall|k: int| 0 <= k < ids1.len() && #[trigger] ids1[k] != 0 implies ids1[k] <= seeds.len()
                    && seeds[ids1[k] - 1] <= k && connected(solid@, w, h, seeds[ids1[k] - 1], k as usize) by {
                    if k != idx {
                        assert(ids1[k] == ids0[k]);
                        assert(seeds[ids1[k] - 1] == seeds0[ids1[k] - 1]);
                    } else {
                        assert(is_path(solid@, w, h, single) && single[0] == idx && single.last() == idx);
                    }
                }
            }
            fill_object(solid, w, h, &mut ids, &mut stack, current, Ghost(seeds), Ghost(idx));
            current = current + 1;
        }
        idx = idx + 1;
    }
    proof {
        let ids = ids@;
        assert forall|k: usize| k < ids.len() && solid@[k as int] implies exists|r: usize|
            r <= k && #[trigger] first_with(ids, r, ids[k as int]) && connected(solid@, w, h, r, k) by {
            assert(ids[k as int] != 0);
            let r = seeds[ids[k as int] - 1];
            assert(first_with(ids, r, ids[k as int]));
        }
        assert forall|k: int| 0 <= k < ids.len() && ids[k] > 1 implies exists|q: int| 0 <= q < k && #[trigger] ids[q]
            == ids[k] - 1 by {
            let q = seeds[ids[k] - 2];
            assert(seeds[ids[k] - 2] < seeds[ids[k] - 1]);
            assert(first_with(ids, seeds[ids[k] - 2], (ids[k] - 1) as usize));
            assert(ids[q as int] == ids[k] - 1);
        }
        assert forall|a: usize, b: usize|
            #![trigger adjacent(w, h, a, b), ids[a as int], ids[b as int]]
            adjacent(w, h, a, b) && a < ids.len() && b < ids.len() && solid@[a as int] && solid@[b as int] implies ids[a
                as int] == ids[b as int] by {
            assert(!on_stack(stack@, a));
        }
    }
    ids
}

} // verus!

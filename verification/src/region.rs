use vstd::prelude::*;

verus! {

/// Whether `(x, y)` names an intersection of the board.
pub open spec fn on_board(x: int, y: int) -> bool {
    0 <= x < 19 && 0 <= y < 19
}

/// Whether every point of `s` is an intersection of the board.
pub open spec fn inside_board(s: Set<(int, int)>) -> bool {
    forall|p: (int, int)| s.contains(p) ==> on_board(p.0, p.1)
}

/// Whether `p` and `q` are neighbours along a line of the board.
pub open spec fn near(p: (int, int), q: (int, int)) -> bool {
    ||| (p.0 == q.0 && (p.1 == q.1 + 1 || p.1 + 1 == q.1))
    ||| (p.1 == q.1 && (p.0 == q.0 + 1 || p.0 + 1 == q.0))
}

/// Whether `p` or one of its four neighbours is in `s`.
pub open spec fn touches(s: Set<(int, int)>, p: (int, int)) -> bool {
    ||| s.contains(p)
    ||| s.contains((p.0 - 1, p.1))
    ||| s.contains((p.0 + 1, p.1))
    ||| s.contains((p.0, p.1 - 1))
    ||| s.contains((p.0, p.1 + 1))
}

/// `s` grown by one step in the four directions, on the board.
pub open spec fn grow(s: Set<(int, int)>) -> Set<(int, int)> {
    Set::new(|p: (int, int)| on_board(p.0, p.1) && touches(s, p))
}

/// `start` after `n` steps of growing, each cut to `within`.
pub open spec fn reach(start: Set<(int, int)>, within: Set<(int, int)>, n: nat) -> Set<(int, int)>
    decreases n,
{
    if n == 0 {
        start
    } else {
        grow(reach(start, within, (n - 1) as nat)).intersect(within)
    }
}

/// Every point that some positive number of steps brings in.
pub open spec fn reach_all(start: Set<(int, int)>, within: Set<(int, int)>) -> Set<(int, int)> {
    Set::new(|p: (int, int)| exists|n: nat| n >= 1 && #[trigger] reach(start, within, n).contains(p))
}

/// The liberties of `group` against `other`: the intersections next to
/// `group` that are neither in `group` nor in `other`.
pub open spec fn liberties(group: Set<(int, int)>, other: Set<(int, int)>) -> Set<(int, int)> {
    grow(group).difference(group).difference(other)
}

/// Whether `group` has a liberty against `other`.
pub open spec fn has_liberty(group: Set<(int, int)>, other: Set<(int, int)>) -> bool {
    exists|p: (int, int)| liberties(group, other).contains(p)
}

/// Whether `path` is a walk through `within`: it is not empty, every point
/// of it is in `within`, and each point is a neighbour of the one before.
pub open spec fn is_path(within: Set<(int, int)>, path: Seq<(int, int)>) -> bool {
    &&& path.len() > 0
    &&& forall|i: int| 0 <= i < path.len() ==> within.contains(#[trigger] path[i])
    &&& forall|i: int| 0 <= i < path.len() - 1 ==> near(#[trigger] path[i], path[i + 1])
}

/// Whether a walk through `within` leads from `a` to `b`.
pub open spec fn linked(within: Set<(int, int)>, a: (int, int), b: (int, int)) -> bool {
    exists|path: Seq<(int, int)>| #[trigger] is_path(within, path) && path.first() == a && path.last() == b
}

/// The points of `within` that a walk through `within` links to `seed`:
/// the group of `seed`. It is empty when `seed` is not in `within`.
pub open spec fn component(within: Set<(int, int)>, seed: (int, int)) -> Set<(int, int)> {
    Set::new(|p: (int, int)| linked(within, seed, p))
}

/// The set that a flood starts from: the seed alone, if it is in `within`.
pub open spec fn seed_set(within: Set<(int, int)>, seed: (int, int)) -> Set<(int, int)> {
    if within.contains(seed) {
        set![seed]
    } else {
        Set::empty()
    }
}

/// From the first step on, a step loses nothing.
pub proof fn lemma_reach_step(start: Set<(int, int)>, within: Set<(int, int)>, n: nat)
    requires
        inside_board(within),
        n >= 1 || start.subset_of(within),
    ensures
        reach(start, within, n).subset_of(reach(start, within, n + 1)),
        reach(start, within, n + 1).subset_of(within),
{
    let now = reach(start, within, n);
    assert(reach(start, within, n + 1) == grow(now).intersect(within));
    assert forall|p: (int, int)| now.contains(p) implies reach(start, within, n + 1).contains(p) by {
        assert(within.contains(p));
        assert(touches(now, p));
    }
}

/// From the first step on, more steps reach more.
pub proof fn lemma_reach_mono(start: Set<(int, int)>, within: Set<(int, int)>, a: nat, b: nat)
    requires
        inside_board(within),
        1 <= a <= b,
    ensures
        reach(start, within, a).subset_of(reach(start, within, b)),
    decreases b - a,
{
    if a < b {
        lemma_reach_mono(start, within, a, (b - 1) as nat);
        lemma_reach_step(start, within, (b - 1) as nat);
    }
}

/// Once a step changes nothing, no later step does.
pub proof fn lemma_reach_stays(start: Set<(int, int)>, within: Set<(int, int)>, n: nat, m: nat)
    requires
        reach(start, within, n + 1) == reach(start, within, n),
        m >= n,
    ensures
        reach(start, within, m) == reach(start, within, n),
    decreases m - n,
{
    if m > n {
        lemma_reach_stays(start, within, n, (m - 1) as nat);
    }
}

/// Where step `n + 1` changes nothing, everything that can be reached has
/// been reached by then.
pub proof fn lemma_reach_done(start: Set<(int, int)>, within: Set<(int, int)>, n: nat)
    requires
        inside_board(within),
        reach(start, within, n + 1) == reach(start, within, n),
    ensures
        reach_all(start, within) == reach(start, within, n + 1),
{
    let last = reach(start, within, n + 1);
    assert forall|p: (int, int)| reach_all(start, within).contains(p) implies last.contains(p) by {
        let m = choose|m: nat| m >= 1 && #[trigger] reach(start, within, m).contains(p);
        if m <= n + 1 {
            lemma_reach_mono(start, within, m, n + 1);
        } else {
            lemma_reach_stays(start, within, n, m);
        }
    }
    assert(reach_all(start, within) =~= last);
}

/// A point of `within` belongs to its own group.
pub proof fn lemma_seed_in_component(within: Set<(int, int)>, seed: (int, int))
    requires
        within.contains(seed),
    ensures
        component(within, seed).contains(seed),
{
    let path = seq![seed];
    assert(is_path(within, path) && path.first() == seed && path.last() == seed);
}

/// A group lies in the set it was taken from.
pub proof fn lemma_component_inside(within: Set<(int, int)>, seed: (int, int))
    ensures
        component(within, seed).subset_of(within),
{
    assert forall|p: (int, int)| component(within, seed).contains(p) implies within.contains(p) by {
        let path = choose|path: Seq<(int, int)>| #[trigger]
            is_path(within, path) && path.first() == seed && path.last() == p;
        assert(within.contains(path[path.len() - 1]));
    }
}

/// Every point of a walk is linked back to the point the walk starts from.
pub proof fn lemma_path_back(within: Set<(int, int)>, path: Seq<(int, int)>, i: int)
    requires
        is_path(within, path),
        0 <= i < path.len(),
    ensures
        linked(within, path[i], path.first()),
{
    let back = Seq::new((i + 1) as nat, |k: int| path[i - k]);
    assert forall|k: int| 0 <= k < back.len() - 1 implies near(#[trigger] back[k], back[k + 1]) by {
        assert(near(path[i - k - 1], path[i - k - 1 + 1]));
    }
    assert(is_path(within, back) && back.first() == path[i] && back.last() == path.first());
}

/// Two walks that meet make one walk.
pub proof fn lemma_linked_trans(
    within: Set<(int, int)>,
    a: (int, int),
    b: (int, int),
    c: (int, int),
)
    requires
        linked(within, a, b),
        linked(within, b, c),
    ensures
        linked(within, a, c),
{
    let first = choose|path: Seq<(int, int)>| #[trigger]
        is_path(within, path) && path.first() == a && path.last() == b;
    let second = choose|path: Seq<(int, int)>| #[trigger]
        is_path(within, path) && path.first() == b && path.last() == c;
    let whole = first + second.subrange(1, second.len() as int);
    assert forall|i: int| 0 <= i < whole.len() implies within.contains(#[trigger] whole[i]) by {
        if i >= first.len() {
            assert(whole[i] == second[i - first.len() + 1]);
        }
    }
    assert forall|i: int| 0 <= i < whole.len() - 1 implies near(#[trigger] whole[i], whole[i + 1]) by {
        if i < first.len() - 1 {
            assert(near(first[i], first[i + 1]));
        } else {
            let k = i - first.len() + 1;
            assert(near(second[k], second[k + 1]));
            assert(whole[i + 1] == second[k + 1]);
            if i == first.len() - 1 {
                assert(whole[i] == first[first.len() - 1]);
            } else {
                assert(whole[i] == second[k]);
            }
        }
    }
    assert(is_path(within, whole) && whole.first() == a && whole.last() == c);
}

/// Whether `part` holds, with each of its points, that point's whole
/// group in `within`.
pub open spec fn whole_groups(within: Set<(int, int)>, part: Set<(int, int)>) -> bool {
    forall|p: (int, int)| part.contains(p) ==> #[trigger] component(within, p).subset_of(part)
}

/// A group holds the whole group of each of its points.
pub proof fn lemma_component_whole(within: Set<(int, int)>, seed: (int, int))
    ensures
        whole_groups(within, component(within, seed)),
{
    assert forall|p: (int, int)| component(within, seed).contains(p) implies #[trigger] component(
        within,
        p,
    ).subset_of(component(within, seed)) by {
        assert forall|r: (int, int)| component(within, p).contains(r) implies component(
            within,
            seed,
        ).contains(r) by {
            lemma_linked_trans(within, seed, p, r);
        }
    }
}

/// Taking whole groups away leaves every other group as it was.
pub proof fn lemma_remove_whole_groups(
    within: Set<(int, int)>,
    part: Set<(int, int)>,
    seed: (int, int),
)
    requires
        whole_groups(within, part),
    ensures
        component(within.difference(part), seed) == (if part.contains(seed) {
            Set::empty()
        } else {
            component(within, seed)
        }),
{
    let rest = within.difference(part);
    assert forall|p: (int, int)| component(rest, seed).contains(p) implies !part.contains(seed)
        && component(within, seed).contains(p) by {
        let path = choose|path: Seq<(int, int)>| #[trigger]
            is_path(rest, path) && path.first() == seed && path.last() == p;
        assert(rest.contains(path[0]));
        assert forall|i: int| 0 <= i < path.len() implies within.contains(#[trigger] path[i]) by {
            assert(rest.contains(path[i]));
        }
        assert(is_path(within, path));
    }
    if !part.contains(seed) {
        assert forall|p: (int, int)| component(within, seed).contains(p) implies component(
            rest,
            seed,
        ).contains(p) by {
            let path = choose|path: Seq<(int, int)>| #[trigger]
                is_path(within, path) && path.first() == seed && path.last() == p;
            assert forall|i: int| 0 <= i < path.len() implies rest.contains(#[trigger] path[i]) by {
                if part.contains(path[i]) {
                    lemma_path_back(within, path, i);
                    assert(component(within, path[i]).subset_of(part));
                    assert(component(within, path[i]).contains(seed));
                }
            }
            assert(is_path(rest, path));
        }
    }
    assert(component(rest, seed) =~= (if part.contains(seed) {
        Set::empty()
    } else {
        component(within, seed)
    }));
}

/// What a flood reaches in `n` steps is linked to the seed.
pub proof fn lemma_reach_linked(within: Set<(int, int)>, seed: (int, int), n: nat, p: (int, int))
    requires
        reach(seed_set(within, seed), within, n).contains(p),
    ensures
        linked(within, seed, p),
    decreases n,
{
    if n == 0 {
        let path = seq![seed];
        assert(is_path(within, path) && path.first() == seed && path.last() == p);
    } else {
        let before = reach(seed_set(within, seed), within, (n - 1) as nat);
        assert(grow(before).contains(p) && within.contains(p));
        let q = if before.contains(p) {
            p
        } else if before.contains((p.0 - 1, p.1)) {
            (p.0 - 1, p.1)
        } else if before.contains((p.0 + 1, p.1)) {
            (p.0 + 1, p.1)
        } else if before.contains((p.0, p.1 - 1)) {
            (p.0, p.1 - 1)
        } else {
            (p.0, p.1 + 1)
        };
        assert(before.contains(q));
        lemma_reach_linked(within, seed, (n - 1) as nat, q);
        if q != p {
            let walk = choose|walk: Seq<(int, int)>| #[trigger]
                is_path(within, walk) && walk.first() == seed && walk.last() == q;
            let path = walk.push(p);
            assert forall|i: int| 0 <= i < path.len() implies within.contains(#[trigger] path[i]) by {
                if i < walk.len() {
                    assert(path[i] == walk[i]);
                }
            }
            assert forall|i: int| 0 <= i < path.len() - 1 implies near(#[trigger] path[i], path[i + 1]) by {
                if i < walk.len() - 1 {
                    assert(path[i] == walk[i] && path[i + 1] == walk[i + 1]);
                } else {
                    assert(path[i] == q && path[i + 1] == p);
                }
            }
            assert(is_path(within, path) && path.first() == seed && path.last() == p);
        }
    }
}

/// The end of a walk from the seed is reached in as many steps as the walk
/// has points.
pub proof fn lemma_path_reached(within: Set<(int, int)>, seed: (int, int), path: Seq<(int, int)>)
    requires
        inside_board(within),
        is_path(within, path),
        path.first() == seed,
    ensures
        reach(seed_set(within, seed), within, path.len()).contains(path.last()),
    decreases path.len(),
{
    let start = seed_set(within, seed);
    let p = path.last();
    assert(within.contains(path[0]));
    assert(within.contains(path[path.len() - 1]));
    if path.len() == 1 {
        assert(reach(start, within, 0) == start);
        assert(touches(start, p));
        assert(reach(start, within, 1) == grow(reach(start, within, 0)).intersect(within));
    } else {
        let walk = path.drop_last();
        assert forall|i: int| 0 <= i < walk.len() implies within.contains(#[trigger] walk[i]) by {
            assert(walk[i] == path[i]);
        }
        assert forall|i: int| 0 <= i < walk.len() - 1 implies near(#[trigger] walk[i], walk[i + 1]) by {
            assert(walk[i] == path[i] && walk[i + 1] == path[i + 1]);
        }
        lemma_path_reached(within, seed, walk);
        let q = walk.last();
        let before = reach(start, within, walk.len());
        assert(q == path[path.len() - 2]);
        assert(near(path[path.len() - 2], path[path.len() - 2 + 1]));
        assert(q == (p.0 - 1, p.1) || q == (p.0 + 1, p.1) || q == (p.0, p.1 - 1) || q == (p.0, p.1 + 1));
        assert(touches(before, p));
        assert(reach(start, within, path.len()) == grow(before).intersect(within));
    }
}

/// A flood from the seed reaches the group of the seed and nothing else.
pub proof fn lemma_flood_is_component(within: Set<(int, int)>, seed: (int, int))
    requires
        inside_board(within),
    ensures
        reach_all(seed_set(within, seed), within) == component(within, seed),
{
    let start = seed_set(within, seed);
    assert forall|p: (int, int)| reach_all(start, within).contains(p) implies component(within, seed).contains(p) by {
        let n = choose|n: nat| n >= 1 && #[trigger] reach(start, within, n).contains(p);
        lemma_reach_linked(within, seed, n, p);
    }
    assert forall|p: (int, int)| component(within, seed).contains(p) implies reach_all(start, within).contains(p) by {
        let path = choose|path: Seq<(int, int)>| #[trigger]
            is_path(within, path) && path.first() == seed && path.last() == p;
        lemma_path_reached(within, seed, path);
        assert(path.len() >= 1 && reach(start, within, path.len()).contains(p));
    }
    assert(reach_all(start, within) =~= component(within, seed));
}

/// The intersection with the number `k`, counted along the rows.
pub open spec fn cell(k: int) -> (int, int) {
    (k % 19, k / 19)
}

/// How many of the first `n` intersections are in `s`.
pub open spec fn count(s: Set<(int, int)>, n: nat) -> nat
    decreases n,
{
    if n == 0 {
        0
    } else {
        count(s, (n - 1) as nat) + if s.contains(cell(n - 1)) {
            1nat
        } else {
            0nat
        }
    }
}

/// A subset counts no more than the set, and neither more than `n`.
pub proof fn lemma_count_le(s: Set<(int, int)>, t: Set<(int, int)>, n: nat)
    requires
        s.subset_of(t),
    ensures
        count(s, n) <= count(t, n) <= n,
    decreases n,
{
    if n > 0 {
        lemma_count_le(s, t, (n - 1) as nat);
    }
}

/// A subset that lacks a counted point counts less.
pub proof fn lemma_count_lt(s: Set<(int, int)>, t: Set<(int, int)>, n: nat, p: (int, int))
    requires
        s.subset_of(t),
        t.contains(p),
        !s.contains(p),
        on_board(p.0, p.1),
        p.1 * 19 + p.0 < n,
    ensures
        count(s, n) < count(t, n),
    decreases n,
{
    if cell(n - 1) == p {
        lemma_count_le(s, t, (n - 1) as nat);
    } else {
        assert(cell(p.1 * 19 + p.0) == p);
        lemma_count_lt(s, t, (n - 1) as nat, p);
    }
}

/// As long as every step changes something, every step adds a point.
proof fn lemma_reach_counts(start: Set<(int, int)>, within: Set<(int, int)>, k: nat)
    requires
        inside_board(within),
        k >= 1,
        forall|j: nat| 1 <= j < k ==> reach(start, within, j + 1) != #[trigger] reach(start, within, j),
    ensures
        count(reach(start, within, k), 361) >= k - 1,
    decreases k,
{
    if k > 1 {
        let before = reach(start, within, (k - 1) as nat);
        let now = reach(start, within, k);
        lemma_reach_counts(start, within, (k - 1) as nat);
        lemma_reach_step(start, within, (k - 1) as nat);
        assert(reach(start, within, ((k - 1) as nat) + 1) != before);
        if forall|p: (int, int)| before.contains(p) == now.contains(p) {
            assert(before =~= now);
        }
        let p = choose|p: (int, int)| before.contains(p) != now.contains(p);
        assert(within.contains(p));
        lemma_count_lt(before, now, 361, p);
    }
}

/// Growing comes to rest: after 362 steps at most no step changes
/// anything, whatever the start and the bounds.
pub proof fn lemma_reach_settles(start: Set<(int, int)>, within: Set<(int, int)>)
    requires
        inside_board(within),
    ensures
        reach(start, within, 363) == reach(start, within, 362),
        reach_all(start, within) == reach(start, within, 362),
{
    if forall|j: nat| 1 <= j < 363 ==> reach(start, within, j + 1) != #[trigger] reach(start, within, j) {
        lemma_reach_counts(start, within, 363);
        lemma_count_le(reach(start, within, 363), reach(start, within, 363), 361);
    }
    let j = choose|j: nat| 1 <= j < 363 && reach(start, within, j + 1) == #[trigger] reach(start, within, j);
    lemma_reach_stays(start, within, j, 362);
    lemma_reach_stays(start, within, j, 363);
    lemma_reach_done(start, within, 362);
}

/// A flood whose group lies within `n` steps of the seed has the whole
/// group after `n` steps, and step `n + 1` changes nothing. A group that
/// winds further than that takes more steps.
pub proof fn lemma_flood_settles(within: Set<(int, int)>, seed: (int, int), n: nat)
    requires
        inside_board(within),
        n >= 1,
        component(within, seed).subset_of(reach(seed_set(within, seed), within, n)),
    ensures
        reach(seed_set(within, seed), within, n) == component(within, seed),
        reach(seed_set(within, seed), within, n + 1) == reach(seed_set(within, seed), within, n),
{
    let start = seed_set(within, seed);
    lemma_flood_is_component(within, seed);
    lemma_reach_step(start, within, n);
    assert(reach(start, within, n + 1).subset_of(component(within, seed))) by {
        assert forall|p: (int, int)| reach(start, within, n + 1).contains(p) implies reach_all(
            start,
            within,
        ).contains(p) by {}
    }
    assert(reach(start, within, n).subset_of(component(within, seed))) by {
        assert forall|p: (int, int)| reach(start, within, n).contains(p) implies reach_all(
            start,
            within,
        ).contains(p) by {}
    }
    assert(reach(start, within, n) =~= component(within, seed));
    assert(reach(start, within, n + 1) =~= reach(start, within, n));
}

} // verus!

//! Disjoint sets as a parent forest, the grouping step of the "Ramps"
//! palette sort: `find` follows parent links to a set's root, halving the
//! path as it goes, and `linked_groups` unions linked positions and hands
//! back the sets they form, in order of their first member.

use vstd::prelude::*;

verus! {

/// Where `k` parent links lead from `x`.
pub open spec fn walk(parent: Seq<usize>, x: int, k: nat) -> int
    decreases k,
{
    if k == 0 {
        x
    } else {
        walk(parent, parent[x] as int, (k - 1) as nat)
    }
}

/// `r` is its own parent.
pub open spec fn is_root(parent: Seq<usize>, r: int) -> bool {
    parent[r] == r
}

/// Every link stays inside the forest, and following as many links as there
/// are nodes lands on a root from anywhere: there are no cycles.
pub open spec fn is_forest(parent: Seq<usize>) -> bool {
    &&& forall|i: int| 0 <= i < parent.len() ==> (#[trigger] parent[i]) < parent.len()
    &&& forall|i: int| 0 <= i < parent.len() ==> is_root(parent, #[trigger] walk(parent, i, parent.len()))
}

/// The root of the set `x` belongs to.
pub open spec fn root_of(parent: Seq<usize>, x: int) -> int {
    walk(parent, x, parent.len())
}

proof fn lemma_walk_in_range(parent: Seq<usize>, x: int, k: nat)
    requires
        forall|i: int| 0 <= i < parent.len() ==> (#[trigger] parent[i]) < parent.len(),
        0 <= x < parent.len(),
    ensures
        0 <= walk(parent, x, k) < parent.len(),
    decreases k,
{
    if k > 0 {
        lemma_walk_in_range(parent, parent[x] as int, (k - 1) as nat);
    }
}

proof fn lemma_walk_add(parent: Seq<usize>, x: int, a: nat, b: nat)
    ensures
        walk(parent, x, a + b) == walk(parent, walk(parent, x, a), b),
    decreases a,
{
    if a > 0 {
        lemma_walk_add(parent, parent[x] as int, (a - 1) as nat, b);
        assert((a + b - 1) as nat == (a - 1) as nat + b);
    }
}

proof fn lemma_root_stays(parent: Seq<usize>, r: int, k: nat)
    requires
        is_root(parent, r),
    ensures
        walk(parent, r, k) == r,
    decreases k,
{
    if k > 0 {
        lemma_root_stays(parent, r, (k - 1) as nat);
    }
}

/// Past as many links as there are nodes, a walk stays on the root.
proof fn lemma_walk_past(parent: Seq<usize>, x: int, k: nat)
    requires
        is_forest(parent),
        0 <= x < parent.len(),
        k >= parent.len(),
    ensures
        walk(parent, x, k) == root_of(parent, x),
{
    lemma_walk_add(parent, x, parent.len(), (k - parent.len()) as nat);
    assert((parent.len() + (k - parent.len()) as nat) as nat == k);
    lemma_root_stays(parent, walk(parent, x, parent.len()), (k - parent.len()) as nat);
}

/// A walk that comes back to where it started never reaches a root, so in
/// a forest it only comes back from a root.
proof fn lemma_no_cycle(parent: Seq<usize>, y: int, j: nat)
    requires
        is_forest(parent),
        0 <= y < parent.len(),
        j >= 1,
        walk(parent, y, j) == y,
    ensures
        is_root(parent, y),
{
    lemma_repeat(parent, y, j, parent.len());
    assert(j * parent.len() >= parent.len()) by (nonlinear_arith)
        requires
            j >= 1,
    ;
    lemma_walk_past(parent, y, j * parent.len());
}

proof fn lemma_repeat(parent: Seq<usize>, y: int, j: nat, m: nat)
    requires
        walk(parent, y, j) == y,
    ensures
        walk(parent, y, j * m) == y,
    decreases m,
{
    if m > 0 {
        let m1 = (m - 1) as nat;
        lemma_repeat(parent, y, j, m1);
        let jm1: nat = j * m1;
        lemma_walk_add(parent, y, j, jm1);
        assert(j + jm1 == j * m) by (nonlinear_arith)
            requires
                m > 0,
                m1 == m - 1,
                jm1 == j * m1,
        ;
        assert(walk(parent, y, j + jm1) == walk(parent, y, jm1));
        assert(walk(parent, y, j * m) == walk(parent, y, j + jm1));
    } else {
        assert(j * m == 0) by (nonlinear_arith)
            requires
                m == 0,
        ;
    }
}

/// `current` links every node at least one link further up `original`:
/// node `y` to where `skip[y]` links of `original` lead.
pub open spec fn skips_ahead(original: Seq<usize>, current: Seq<usize>, skip: Seq<nat>) -> bool {
    &&& current.len() == original.len()
    &&& skip.len() == original.len()
    &&& forall|y: int|
        0 <= y < original.len() ==> skip[y] >= 1 && #[trigger] current[y] as int == walk(
            original,
            y,
            skip[y],
        )
}

proof fn lemma_skip_walk(original: Seq<usize>, current: Seq<usize>, skip: Seq<nat>, y: int, k: nat) -> (j: nat)
    requires
        is_forest(original),
        skips_ahead(original, current, skip),
        0 <= y < original.len(),
    ensures
        j >= k,
        walk(current, y, k) == walk(original, y, j),
    decreases k,
{
    if k == 0 {
        0
    } else {
        let z = current[y] as int;
        let j1 = skip[y];
        lemma_walk_in_range(original, y, j1);
        let j2 = lemma_skip_walk(original, current, skip, z, (k - 1) as nat);
        lemma_walk_add(original, y, j1, j2);
        j1 + j2
    }
}

/// A forest that skips ahead of `original` is a forest with the same roots.
proof fn lemma_skip_roots(original: Seq<usize>, current: Seq<usize>, skip: Seq<nat>)
    requires
        is_forest(original),
        skips_ahead(original, current, skip),
    ensures
        is_forest(current),
        forall|y: int| 0 <= y < original.len() ==> #[trigger] root_of(current, y) == root_of(original, y),
        forall|y: int| 0 <= y < original.len() ==> (is_root(current, y) <==> is_root(original, y)),
{
    let n = original.len();
    assert forall|i: int| 0 <= i < n implies (#[trigger] current[i]) < n by {
        lemma_walk_in_range(original, i, skip[i]);
    }
    assert forall|y: int| 0 <= y < n implies is_root(current, y) <==> is_root(original, y) by {
        if is_root(original, y) {
            lemma_root_stays(original, y, skip[y]);
        }
        if is_root(current, y) {
            lemma_no_cycle(original, y, skip[y]);
        }
    }
    assert forall|y: int| 0 <= y < n implies is_root(current, #[trigger] walk(current, y, current.len()))
        && root_of(current, y) == root_of(original, y) by {
        let j = lemma_skip_walk(original, current, skip, y, n);
        lemma_walk_past(original, y, j);
        lemma_walk_in_range(original, y, n);
        let r = walk(original, y, n);
        assert(is_root(original, walk(original, y, original.len())));
        assert(is_root(original, r));
        assert(is_root(current, r) <==> is_root(original, r));
        assert(walk(current, y, current.len()) == r);
    }
    assert(is_forest(current));
    assert forall|y: int| 0 <= y < n implies #[trigger] root_of(current, y) == root_of(original, y) by {
        assert(walk(current, y, current.len()) == root_of(original, y));
    }
}

proof fn lemma_halving_skips(original: Seq<usize>, current: Seq<usize>, skip: Seq<nat>, x: int)
    requires
        is_forest(original),
        skips_ahead(original, current, skip),
        0 <= x < original.len(),
    ensures
        skips_ahead(
            original,
            current.update(x, current[current[x] as int]),
            skip.update(x, skip[x] + skip[current[x] as int]),
        ),
{
    let n = original.len();
    let z = current[x] as int;
    lemma_walk_in_range(original, x, skip[x]);
    lemma_walk_add(original, x, skip[x], skip[z]);
    let next = current.update(x, current[z]);
    let next_skip = skip.update(x, skip[x] + skip[z]);
    assert forall|y: int| 0 <= y < n implies next_skip[y] >= 1 && #[trigger] next[y] as int == walk(
        original,
        y,
        next_skip[y],
    ) by {
        if y != x {
            assert(next[y] == current[y]);
        } else {
            lemma_walk_in_range(original, x, skip[x]);
            assert(0 <= z < n);
            assert(current[z] as int == walk(original, z, skip[z]));
            assert(next[x] == current[z]);
            assert(walk(original, x, skip[x]) == z);
            assert(walk(original, x, skip[x] + skip[z]) == walk(original, z, skip[z]));
        }
    }
    assert(next.len() == n);
    assert(next_skip.len() == n);
    assert(next =~= current.update(x, current[current[x] as int]));
    assert(next_skip =~= skip.update(x, skip[x] + skip[current[x] as int]));
    assert forall|y: int| 0 <= y < original.len() implies next_skip[y] >= 1 by {
        if y != x {
            assert(next[y] == current[y]);
        }
    }
}

/// The root of the set `x` belongs to, each node on the way linked to its
/// grandparent (path halving). Every node keeps its root.
pub fn find(parent: &mut [usize], x: usize) -> (r: usize)
    requires
        is_forest(old(parent)@),
        x < old(parent)@.len(),
    ensures
        r == root_of(old(parent)@, x as int),
        is_root(final(parent)@, r as int),
        is_forest(final(parent)@),
        final(parent)@.len() == old(parent)@.len(),
        forall|y: int|
            0 <= y < old(parent)@.len() ==> #[trigger] root_of(final(parent)@, y) == root_of(
                old(parent)@,
                y,
            ),
{
    let ghost original = parent@;
    let ghost n = original.len();
    let mut x: usize = x;
    let ghost x0 = x as int;
    let ghost mut steps: nat = 0;
    let ghost mut skip: Seq<nat> = Seq::new(n, |i: int| 1nat);
    proof {
        reveal_with_fuel(walk, 2);
        assert forall|y: int| 0 <= y < n implies skip[y] >= 1 && #[trigger] parent@[y] as int == walk(
            original,
            y,
            skip[y],
        ) by {
            assert(walk(original, y, 1) == walk(original, original[y] as int, 0));
        }
        lemma_walk_in_range(original, x0, n);
    }
    while parent[x] != x
        invariant
            is_forest(original),
            n == original.len(),
            0 <= x0 < n,
            skips_ahead(original, parent@, skip),
            x < n,
            x as int == walk(original, x0, steps),
            steps <= n,
        decreases n - steps,
    {
        let ghost before = parent@;
        let ghost j1: nat = skip[x as int];
        let ghost z: int = before[x as int] as int;
        proof {
            lemma_walk_in_range(original, x as int, j1);
        }
        let ghost j2: nat = skip[z];
        proof {
            if steps == n {
                lemma_skip_roots(original, before, skip);
                lemma_walk_past(original, x0, n);
                assert(is_root(original, x as int));
                assert(false);
            }
        }
        let p1: usize = parent[x];
        let gp: usize = parent[p1];
        parent[x] = gp;
        proof {
            lemma_halving_skips(original, before, skip, x as int);
            skip = skip.update(x as int, j1 + j2);
            lemma_walk_add(original, x as int, j1, j2);
            lemma_walk_add(original, x0, steps, j1 + j2);
            assert(gp as int == walk(original, x0, steps + j1 + j2));
            lemma_walk_in_range(original, x0, steps + j1 + j2);
            if steps + j1 + j2 > n {
                lemma_walk_past(original, x0, steps + j1 + j2);
                lemma_walk_past(original, x0, n);
            }
        }
        x = gp;
        proof {
            steps = if steps + j1 + j2 <= n { steps + j1 + j2 } else { n };
        }
    }
    proof {
        lemma_skip_roots(original, parent@, skip);
        lemma_walk_add(original, x0, steps, (n - steps) as nat);
        lemma_root_stays(original, x as int, (n - steps) as nat);
    }
    x
}

proof fn lemma_first_root(p: Seq<usize>, x: int, j: nat) -> (d: nat)
    requires
        is_forest(p),
        0 <= x < p.len(),
        j <= p.len(),
        forall|i: nat| i < j ==> !is_root(p, #[trigger] walk(p, x, i)),
    ensures
        j <= d <= p.len(),
        is_root(p, walk(p, x, d)),
        forall|i: nat| i < d ==> !is_root(p, #[trigger] walk(p, x, i)),
    decreases p.len() - j,
{
    if is_root(p, walk(p, x, j)) {
        j
    } else {
        assert(j < p.len()) by {
            if j == p.len() {
                assert(is_root(p, walk(p, x, p.len())));
            }
        }
        assert forall|i: nat| i < j + 1 implies !is_root(p, #[trigger] walk(p, x, i)) by {
            if i < j {
            }
        }
        lemma_first_root(p, x, j + 1)
    }
}

proof fn lemma_step(p: Seq<usize>, x: int, i: nat)
    ensures
        walk(p, x, i + 1) == p[walk(p, x, i)] as int,
{
    lemma_walk_add(p, x, i, 1);
    reveal_with_fuel(walk, 2);
}

/// The first root a walk from `x` reaches comes within fewer links than
/// there are nodes, and it is the root of `x`.
proof fn lemma_depth(p: Seq<usize>, x: int) -> (d: nat)
    requires
        is_forest(p),
        0 <= x < p.len(),
    ensures
        d < p.len(),
        walk(p, x, d) == root_of(p, x),
        forall|i: nat| i < d ==> !is_root(p, #[trigger] walk(p, x, i)),
{
    let d = lemma_first_root(p, x, 0);
    let n = p.len();
    lemma_walk_add(p, x, d, (n - d) as nat);
    lemma_root_stays(p, walk(p, x, d), (n - d) as nat);
    let path = Seq::new(d + 1, |j: int| walk(p, x, j as nat));
    assert forall|a: int, b: int| 0 <= a < path.len() && 0 <= b < path.len() && a != b implies path[a]
        != path[b] by {
        let (lo, hi) = if a < b { (a as nat, b as nat) } else { (b as nat, a as nat) };
        if walk(p, x, lo) == walk(p, x, hi) {
            lemma_walk_in_range(p, x, lo);
            lemma_walk_add(p, x, lo, (hi - lo) as nat);
            lemma_no_cycle(p, walk(p, x, lo), (hi - lo) as nat);
            assert(!is_root(p, walk(p, x, lo)));
        }
    }
    assert(path.no_duplicates());
    path.unique_seq_to_set();
    vstd::set_lib::lemma_int_range(0, n as int);
    assert forall|v: int| path.to_set().contains(v) implies vstd::set_lib::set_int_range(0, n as int).contains(v) by {
        let j = choose|j: int| 0 <= j < path.len() && path[j] == v;
        lemma_walk_in_range(p, x, j as nat);
    }
    vstd::set_lib::lemma_len_subset(path.to_set(), vstd::set_lib::set_int_range(0, n as int));
    d
}

proof fn lemma_same_prefix(p: Seq<usize>, q: Seq<usize>, x: int, ru: int, i: nat)
    requires
        is_forest(p),
        0 <= x < p.len(),
        q.len() == p.len(),
        forall|y: int| 0 <= y < p.len() && y != ru ==> q[y] == p[y],
        forall|k: nat| k < i ==> walk(p, x, k) != ru,
    ensures
        walk(q, x, i) == walk(p, x, i),
    decreases i,
{
    if i > 0 {
        let k = (i - 1) as nat;
        lemma_same_prefix(p, q, x, ru, k);
        lemma_step(p, x, k);
        lemma_step(q, x, k);
        lemma_walk_in_range(p, x, k);
    }
}

/// Linking root `ru` under another root `rv` keeps a forest, and moves
/// every node of `ru`'s set to `rv`'s; every other node keeps its root.
proof fn lemma_link_roots(p: Seq<usize>, ru: int, rv: int)
    requires
        is_forest(p),
        0 <= ru < p.len(),
        0 <= rv < p.len(),
        is_root(p, ru),
        is_root(p, rv),
        ru != rv,
    ensures
        is_forest(p.update(ru, rv as usize)),
        forall|x: int|
            0 <= x < p.len() ==> #[trigger] root_of(p.update(ru, rv as usize), x) == if root_of(p, x) == ru {
                rv
            } else {
                root_of(p, x)
            },
{
    let q = p.update(ru, rv as usize);
    let n = p.len();
    assert forall|x: int| 0 <= x < n implies #[trigger] root_of(q, x) == (if root_of(p, x) == ru {
        rv
    } else {
        root_of(p, x)
    }) && is_root(q, root_of(q, x)) by {
        let d = lemma_depth(p, x);
        let r = walk(p, x, d);
        lemma_walk_in_range(p, x, d);
        assert forall|k: nat| k < d implies walk(p, x, k) != ru by {
            assert(!is_root(p, walk(p, x, k)));
        }
        lemma_same_prefix(p, q, x, ru, d);
        if r != ru {
            assert(is_root(q, r));
            lemma_walk_add(q, x, d, (n - d) as nat);
            lemma_root_stays(q, r, (n - d) as nat);
        } else {
            lemma_step(q, x, d);
            assert(is_root(q, rv));
            lemma_walk_add(q, x, d + 1, (n - d - 1) as nat);
            lemma_root_stays(q, rv, (n - d - 1) as nat);
        }
    }
    assert forall|i: int| 0 <= i < n implies is_root(q, #[trigger] walk(q, i, q.len())) by {
        assert(is_root(q, root_of(q, i)));
    }
}

/// `x` and `y` are in one set once the first `k` of `links` have joined
/// their ends: the equivalence those links generate, built one link at a
/// time.
pub open spec fn joined(links: Seq<(usize, usize)>, k: nat, x: int, y: int) -> bool
    decreases k,
{
    if k == 0 {
        x == y
    } else {
        let a = links[k - 1].0 as int;
        let b = links[k - 1].1 as int;
        let j = (k - 1) as nat;
        ||| joined(links, j, x, y)
        ||| joined(links, j, x, a) && joined(links, j, b, y)
        ||| joined(links, j, x, b) && joined(links, j, a, y)
    }
}

/// Position `i` is the first of its set: no earlier position is joined to
/// it.
pub open spec fn is_leader(links: Seq<(usize, usize)>, i: int) -> bool {
    forall|j: int| 0 <= j < i ==> !joined(links, links.len(), j, i)
}

/// The first position of each set among the first `m`, in order.
pub open spec fn leaders_upto(links: Seq<(usize, usize)>, m: nat) -> Seq<int>
    decreases m,
{
    if m == 0 {
        Seq::empty()
    } else {
        let before = leaders_upto(links, (m - 1) as nat);
        if is_leader(links, m - 1) {
            before.push(m - 1)
        } else {
            before
        }
    }
}

proof fn lemma_leaders_len(links: Seq<(usize, usize)>, m: nat)
    ensures
        leaders_upto(links, m).len() <= m,
    decreases m,
{
    if m > 0 {
        lemma_leaders_len(links, (m - 1) as nat);
    }
}

/// The members at the first `m` positions that are joined to position `l`,
/// in order.
pub open spec fn members_joined(members: Seq<usize>, links: Seq<(usize, usize)>, l: int, m: nat) -> Seq<usize>
    decreases m,
{
    if m == 0 {
        Seq::empty()
    } else {
        let before = members_joined(members, links, l, (m - 1) as nat);
        if joined(links, links.len(), l, m - 1) {
            before.push(members[m - 1])
        } else {
            before
        }
    }
}

/// The positions whose sets the roots of `parent` stand for, under the
/// first `k` links: two positions share a root exactly when the links join
/// them.
pub open spec fn roots_match_links(parent: Seq<usize>, links: Seq<(usize, usize)>, k: nat) -> bool {
    forall|x: int, y: int|
        0 <= x < parent.len() && 0 <= y < parent.len() ==> (#[trigger] root_of(parent, x) == #[trigger] root_of(
            parent,
            y,
        ) <==> joined(links, k, x, y))
}

/// Union every linked pair of positions `0..n` in a parent forest.
fn union_links(n: usize, links: &[(usize, usize)]) -> (parent: Vec<usize>)
    requires
        forall|l: int| 0 <= l < links@.len() ==> (#[trigger] links@[l]).0 < n && links@[l].1 < n,
    ensures
        parent@.len() == n,
        is_forest(parent@),
        roots_match_links(parent@, links@, links@.len()),
{
    let mut parent: Vec<usize> = Vec::new();
    let mut i: usize = 0;
    while i < n
        invariant
            i <= n,
            parent@.len() == i,
            forall|j: int| 0 <= j < i ==> #[trigger] parent@[j] == j,
        decreases n - i,
    {
        parent.push(i);
        i += 1;
    }
    proof {
        assert forall|x: int| 0 <= x < n implies is_root(parent@, #[trigger] walk(parent@, x, parent@.len())) by {
            lemma_root_stays(parent@, x, parent@.len());
        }
        assert forall|x: int, y: int| 0 <= x < n && 0 <= y < n implies (#[trigger] root_of(parent@, x)
            == #[trigger] root_of(parent@, y) <==> joined(links@, 0, x, y)) by {
            lemma_root_stays(parent@, x, parent@.len());
            lemma_root_stays(parent@, y, parent@.len());
        }
    }
    let mut k: usize = 0;
    while k < links.len()
        invariant
            k <= links@.len(),
            parent@.len() == n,
            is_forest(parent@),
            roots_match_links(parent@, links@, k as nat),
            forall|l: int| 0 <= l < links@.len() ==> (#[trigger] links@[l]).0 < n && links@[l].1 < n,
        decreases links@.len() - k,
    {
        let (a, b) = links[k];
        let ghost before = parent@;
        let ru = find(parent.as_mut_slice(), a);
        let ghost mid = parent@;
        let rv = find(parent.as_mut_slice(), b);
        let ghost after_finds = parent@;
        proof {
            assert(root_of(mid, b as int) == root_of(before, b as int));
            assert(rv as int == root_of(before, b as int));
            lemma_walk_in_range(before, a as int, n as nat);
            lemma_walk_in_range(before, b as int, n as nat);
            lemma_root_stays(mid, ru as int, n as nat);
            assert(root_of(after_finds, ru as int) == ru);
            assert(is_root(after_finds, walk(after_finds, ru as int, after_finds.len())));
        }
        if ru != rv {
            parent.set(ru, rv);
            proof {
                lemma_link_roots(after_finds, ru as int, rv as int);
            }
        }
        proof {
            assert forall|x: int, y: int| 0 <= x < n && 0 <= y < n implies (#[trigger] root_of(parent@, x)
                == #[trigger] root_of(parent@, y) <==> joined(links@, (k + 1) as nat, x, y)) by {
                assert(root_of(after_finds, x) == root_of(before, x));
                assert(root_of(after_finds, y) == root_of(before, y));
                assert(root_of(before, x) == root_of(before, a as int) <==> joined(links@, k as nat, x, a as int));
                assert(root_of(before, b as int) == root_of(before, y) <==> joined(links@, k as nat, b as int, y));
                assert(root_of(before, x) == root_of(before, b as int) <==> joined(links@, k as nat, x, b as int));
                assert(root_of(before, a as int) == root_of(before, y) <==> joined(links@, k as nat, a as int, y));
                assert(root_of(before, x) == root_of(before, y) <==> joined(links@, k as nat, x, y));
            }
        }
        k += 1;
    }
    parent
}

/// The `members` at positions joined by `links` (pairs of positions), as
/// groups: one per set, in the order of each set's first position, each
/// keeping the order of `members`.
pub fn linked_groups(members: &[usize], links: &[(usize, usize)]) -> (groups: Vec<Vec<usize>>)
    requires
        forall|l: int| 0 <= l < links@.len() ==> (#[trigger] links@[l]).0 < members@.len() && links@[l].1
            < members@.len(),
    ensures
        groups@.len() == leaders_upto(links@, members@.len()).len(),
        forall|g: int|
            0 <= g < groups@.len() ==> (#[trigger] groups@[g])@ == members_joined(
                members@,
                links@,
                leaders_upto(links@, members@.len())[g],
                members@.len(),
            ),
{
    let n = members.len();
    let mut parent = union_links(n, links);
    let ghost p0 = parent@;
    let ghost ls = links@;
    let ghost lead = leaders_upto(ls, n as nat);
    let mut first_of_root: Vec<Option<usize>> = Vec::new();
    let mut i: usize = 0;
    while i < n
        invariant
            i <= n,
            first_of_root@.len() == i,
            forall|r: int| 0 <= r < i ==> (#[trigger] first_of_root@[r]) is None,
        decreases n - i,
    {
        first_of_root.push(None);
        i += 1;
    }
    proof {
        assert forall|x: int| 0 <= x < n implies 0 <= #[trigger] root_of(p0, x) < n by {
            lemma_walk_in_range(p0, x, n as nat);
        }
    }
    let mut group_id: Vec<usize> = Vec::new();
    let mut m: usize = 0;
    let mut i: usize = 0;
    while i < n
        invariant
            n == members@.len(),
            i <= n,
            ls == links@,
            parent@.len() == n,
            p0.len() == n,
            is_forest(p0),
            is_forest(parent@),
            roots_match_links(p0, ls, ls.len()),
            forall|x: int| 0 <= x < n ==> #[trigger] root_of(parent@, x) == root_of(p0, x),
            first_of_root@.len() == n,
            group_id@.len() == i,
            m == leaders_upto(ls, i as nat).len(),
            forall|g: int|
                0 <= g < m ==> 0 <= #[trigger] leaders_upto(ls, i as nat)[g] < i && is_leader(
                    ls,
                    leaders_upto(ls, i as nat)[g],
                ),
            forall|g1: int, g2: int|
                0 <= g1 < m && 0 <= g2 < m && g1 != g2 ==> root_of(p0, #[trigger] leaders_upto(ls, i as nat)[g1])
                    != root_of(p0, #[trigger] leaders_upto(ls, i as nat)[g2]),
            forall|r: int|
                0 <= r < n ==> (#[trigger] first_of_root@[r] matches Some(g) ==> g < m && root_of(
                    p0,
                    leaders_upto(ls, i as nat)[g as int],
                ) == r),
            forall|x: int| 0 <= x < n ==> 0 <= #[trigger] root_of(p0, x) < n,
            forall|j: int| 0 <= j < i ==> #[trigger] first_of_root@[root_of(p0, j)] is Some,
            forall|j: int|
                0 <= j < i ==> #[trigger] group_id@[j] < m && root_of(p0, leaders_upto(ls, i as nat)[group_id@[j] as int])
                    == root_of(p0, j),
        decreases n - i,
    {
        proof {
            lemma_leaders_len(ls, i as nat);
        }
        let root = find(parent.as_mut_slice(), i);
        let ghost prev = leaders_upto(ls, i as nat);
        proof {
            lemma_walk_in_range(p0, i as int, n as nat);
            assert(root as int == root_of(p0, i as int));
        }
        match first_of_root[root] {
            Some(g) => {
                proof {
                    let l = prev[g as int];
                    assert(joined(ls, ls.len(), l, i as int));
                    assert(!is_leader(ls, i as int));
                    assert(leaders_upto(ls, (i + 1) as nat) == prev);
                }
                group_id.push(g);
            },
            None => {
                proof {
                    assert forall|j: int| 0 <= j < i implies !joined(ls, ls.len(), j, i as int) by {
                        assert(first_of_root@[root_of(p0, j)] is Some);
                        if root_of(p0, j) == root_of(p0, i as int) {
                        }
                    }
                    assert(is_leader(ls, i as int));
                    assert(leaders_upto(ls, (i + 1) as nat) == prev.push(i as int));
                    assert forall|g: int| 0 <= g < m implies root_of(p0, prev[g]) != root_of(p0, i as int) by {
                        if root_of(p0, prev[g]) == root_of(p0, i as int) {
                            assert(joined(ls, ls.len(), prev[g], i as int));
                        }
                    }
                }
                first_of_root.set(root, Some(m));
                group_id.push(m);
                m += 1;
            },
        }
        proof {
            let next = leaders_upto(ls, (i + 1) as nat);
            assert forall|g: int| 0 <= g < prev.len() implies #[trigger] next[g] == prev[g] by {}
            assert forall|j: int| 0 <= j < i + 1 implies #[trigger] first_of_root@[root_of(p0, j)] is Some by {
                if j < i as int {
                    assert(first_of_root@[root_of(p0, j)] is Some || root_of(p0, j) == root as int);
                }
            }
        }
        i += 1;
    }
    proof {
        assert(lead == leaders_upto(ls, i as nat));
    }
    let mut groups: Vec<Vec<usize>> = Vec::new();
    let mut g: usize = 0;
    while g < m
        invariant
            n == members@.len(),
            i == n,
            ls == links@,
            p0.len() == n,
            is_forest(p0),
            roots_match_links(p0, ls, ls.len()),
            lead == leaders_upto(ls, n as nat),
            group_id@.len() == n,
            m == lead.len(),
            forall|h: int| 0 <= h < m ==> 0 <= #[trigger] lead[h] < n,
            forall|g1: int, g2: int|
                0 <= g1 < m && 0 <= g2 < m && g1 != g2 ==> root_of(p0, #[trigger] lead[g1]) != root_of(
                    p0,
                    #[trigger] lead[g2],
                ),
            forall|j: int|
                0 <= j < n ==> #[trigger] group_id@[j] < m && root_of(p0, lead[group_id@[j] as int]) == root_of(p0, j),
            g <= m,
            groups@.len() == g,
            forall|h: int| 0 <= h < g ==> (#[trigger] groups@[h])@ == members_joined(members@, ls, lead[h], n as nat),
        decreases m - g,
    {
        let mut group: Vec<usize> = Vec::new();
        let mut j: usize = 0;
        while j < n
            invariant
                n == members@.len(),
                ls == links@,
                p0.len() == n,
                roots_match_links(p0, ls, ls.len()),
                g < m,
                m == lead.len(),
                0 <= lead[g as int] < n,
                group_id@.len() == n,
                forall|g1: int, g2: int|
                    0 <= g1 < m && 0 <= g2 < m && g1 != g2 ==> root_of(p0, #[trigger] lead[g1]) != root_of(
                        p0,
                        #[trigger] lead[g2],
                    ),
                forall|k: int|
                    0 <= k < n ==> #[trigger] group_id@[k] < m && root_of(p0, lead[group_id@[k] as int]) == root_of(
                        p0,
                        k,
                    ),
                j <= n,
                group@ == members_joined(members@, ls, lead[g as int], j as nat),
            decreases n - j,
        {
            proof {
                let l = lead[g as int];
                assert((group_id@[j as int] == g) <==> joined(ls, ls.len(), l, j as int)) by {
                    let h = group_id@[j as int] as int;
                    assert(root_of(p0, lead[h]) == root_of(p0, j as int));
                    if h != g {
                        assert(root_of(p0, lead[h]) != root_of(p0, l));
                    }
                }
            }
            if group_id[j] == g {
                group.push(members[j]);
            }
            j += 1;
        }
        groups.push(group);
        proof {
            assert forall|h: int| 0 <= h < g + 1 implies (#[trigger] groups@[h])@ == members_joined(
                members@,
                ls,
                lead[h],
                n as nat,
            ) by {}
        }
        g += 1;
    }
    groups
}

proof fn lemma_joined_reflexive(links: Seq<(usize, usize)>, k: nat, x: int)
    ensures
        joined(links, k, x, x),
    decreases k,
{
    if k > 0 {
        lemma_joined_reflexive(links, (k - 1) as nat, x);
    }
}

proof fn lemma_joined_grows(links: Seq<(usize, usize)>, k: nat, m: nat, x: int, y: int)
    requires
        k <= m,
        joined(links, k, x, y),
    ensures
        joined(links, m, x, y),
    decreases m,
{
    if m > k {
        lemma_joined_grows(links, k, (m - 1) as nat, x, y);
    }
}

proof fn lemma_joined_symmetric(links: Seq<(usize, usize)>, k: nat, x: int, y: int)
    requires
        joined(links, k, x, y),
    ensures
        joined(links, k, y, x),
    decreases k,
{
    if k > 0 {
        let j = (k - 1) as nat;
        let a = links[k - 1].0 as int;
        let b = links[k - 1].1 as int;
        if joined(links, j, x, y) {
            lemma_joined_symmetric(links, j, x, y);
        } else if joined(links, j, x, a) && joined(links, j, b, y) {
            lemma_joined_symmetric(links, j, x, a);
            lemma_joined_symmetric(links, j, b, y);
        } else {
            lemma_joined_symmetric(links, j, x, b);
            lemma_joined_symmetric(links, j, a, y);
        }
    }
}

proof fn lemma_joined_transitive(links: Seq<(usize, usize)>, k: nat, x: int, y: int, z: int)
    requires
        joined(links, k, x, y),
        joined(links, k, y, z),
    ensures
        joined(links, k, x, z),
    decreases k,
{
    if k > 0 {
        let j = (k - 1) as nat;
        let a = links[k - 1].0 as int;
        let b = links[k - 1].1 as int;
        // Each step stays inside a set of before the link (plain), or
        // crosses the link from its `a` end to its `b` end, or back.
        let xy_plain = joined(links, j, x, y);
        let xy_ab = joined(links, j, x, a) && joined(links, j, b, y);
        let yz_plain = joined(links, j, y, z);
        let yz_ab = joined(links, j, y, a) && joined(links, j, b, z);
        if xy_plain {
            if yz_plain {
                lemma_joined_transitive(links, j, x, y, z);
            } else if yz_ab {
                lemma_joined_transitive(links, j, x, y, a);
            } else {
                lemma_joined_transitive(links, j, x, y, b);
            }
        } else if xy_ab {
            if yz_plain {
                lemma_joined_transitive(links, j, b, y, z);
            } else if yz_ab {
            } else {
                lemma_joined_transitive(links, j, x, a, z);
            }
        } else {
            if yz_plain {
                lemma_joined_transitive(links, j, a, y, z);
            } else if yz_ab {
                lemma_joined_transitive(links, j, x, b, z);
            } else {
            }
        }
    }
}

/// The links group positions into sets: joining is an equivalence, and
/// every link joins its two ends.
pub proof fn law_links_join_into_sets(links: Seq<(usize, usize)>, x: int, y: int, z: int)
    ensures
        joined(links, links.len(), x, x),
        joined(links, links.len(), x, y) ==> joined(links, links.len(), y, x),
        joined(links, links.len(), x, y) && joined(links, links.len(), y, z) ==> joined(links, links.len(), x, z),
        forall|l: int|
            0 <= l < links.len() ==> joined(links, links.len(), (#[trigger] links[l]).0 as int, links[l].1 as int),
{
    lemma_joined_reflexive(links, links.len(), x);
    if joined(links, links.len(), x, y) {
        lemma_joined_symmetric(links, links.len(), x, y);
        if joined(links, links.len(), y, z) {
            lemma_joined_transitive(links, links.len(), x, y, z);
        }
    }
    assert forall|l: int| 0 <= l < links.len() implies joined(links, links.len(), (#[trigger] links[l]).0 as int, links[l].1 as int) by {
        let a = links[l].0 as int;
        let b = links[l].1 as int;
        lemma_joined_reflexive(links, l as nat, a);
        lemma_joined_reflexive(links, l as nat, b);
        assert(joined(links, (l + 1) as nat, a, b));
        lemma_joined_grows(links, (l + 1) as nat, links.len(), a, b);
    }
}

} // verus!

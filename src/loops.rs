use vstd::prelude::*;

verus! {

/// A step of a walk: an element index and whether the element is traversed
/// in its own orientation (from its first node to its second).
pub type Step = (usize, bool);

/// The node at which a step enters its element.
pub open spec fn near(conns: Seq<(i32, i32)>, s: Step) -> int {
    if s.1 {
        conns[s.0 as int].0 as int
    } else {
        conns[s.0 as int].1 as int
    }
}

/// The node at which a step leaves its element.
pub open spec fn far(conns: Seq<(i32, i32)>, s: Step) -> int {
    if s.1 {
        conns[s.0 as int].1 as int
    } else {
        conns[s.0 as int].0 as int
    }
}

/// A nonempty walk that uses each element at most once, each step leaving
/// from the node where the one before it arrived.
pub open spec fn is_trail(conns: Seq<(i32, i32)>, path: Seq<Step>) -> bool {
    &&& path.len() >= 1
    &&& forall|t: int| 0 <= t < path.len() ==> (#[trigger] path[t]).0 < conns.len()
    &&& forall|a: int, b: int| 0 <= a < b < path.len() ==> path[a].0 != path[b].0
    &&& forall|t: int|
        0 <= t < path.len() - 1 ==> far(conns, #[trigger] path[t]) == near(conns, path[t + 1])
}

/// A trail of at least two elements that starts with its seed element in
/// its own orientation and ends where it started.
pub open spec fn is_loop(conns: Seq<(i32, i32)>, path: Seq<Step>) -> bool {
    &&& is_trail(conns, path)
    &&& path.len() >= 2
    &&& path[0].1
    &&& far(conns, path.last()) == near(conns, path[0])
}

/// Whether element `e` occurs in the walk.
pub open spec fn uses(path: Seq<Step>, e: int) -> bool {
    exists|t: int| 0 <= t < path.len() && path[t].0 == e
}

/// The largest node index that a connection names (0 when there is none).
pub open spec fn max_node(conns: Seq<(i32, i32)>) -> int
    decreases conns.len(),
{
    if conns.len() == 0 {
        0
    } else {
        let m = max_node(conns.drop_last());
        let a = conns.last().0 as int;
        let b = conns.last().1 as int;
        let m2 = if a > m {
            a
        } else {
            m
        };
        if b > m2 {
            b
        } else {
            m2
        }
    }
}

pub proof fn lemma_max_node(conns: Seq<(i32, i32)>, i: int)
    requires
        0 <= i < conns.len(),
    ensures
        conns[i].0 <= max_node(conns),
        conns[i].1 <= max_node(conns),
    decreases conns.len(),
{
    if i < conns.len() - 1 {
        lemma_max_node(conns.drop_last(), i);
    }
}

pub proof fn lemma_max_node_bounds(conns: Seq<(i32, i32)>)
    ensures
        0 <= max_node(conns) <= i32::MAX,
    decreases conns.len(),
{
    if conns.len() > 0 {
        lemma_max_node_bounds(conns.drop_last());
    }
}

/// Every connection names nodes from 1 up.
pub open spec fn nodes_positive(conns: Seq<(i32, i32)>) -> bool {
    forall|i: int| 0 <= i < conns.len() ==> 1 <= (#[trigger] conns[i]).0 && 1 <= conns[i].1
}

/// `adj[x]` lists the steps that enter an element at node `x`.
pub open spec fn adjacency_wf(conns: Seq<(i32, i32)>, adj: Seq<Vec<Step>>) -> bool {
    &&& forall|i: int|
        0 <= i < conns.len() ==> 0 <= (#[trigger] conns[i]).0 < adj.len() && 0 <= conns[i].1
            < adj.len()
    &&& forall|x: int, t: int|
        0 <= x < adj.len() && 0 <= t < adj[x]@.len() ==> {
            &&& (#[trigger] adj[x]@[t]).0 < conns.len()
            &&& near(conns, adj[x]@[t]) == x
        }
}

/// Number of entries not yet set.
pub open spec fn unmarked(s: Seq<bool>) -> nat
    decreases s.len(),
{
    if s.len() == 0 {
        0
    } else {
        unmarked(s.drop_last()) + if s.last() {
            0nat
        } else {
            1nat
        }
    }
}

proof fn lemma_mark(s: Seq<bool>, i: int)
    requires
        0 <= i < s.len(),
        !s[i],
    ensures
        unmarked(s.update(i, true)) + 1 == unmarked(s),
    decreases s.len(),
{
    if i == s.len() - 1 {
        assert(s.update(i, true).drop_last() =~= s.drop_last());
    } else {
        assert(s.update(i, true).drop_last() =~= s.drop_last().update(i, true));
        lemma_mark(s.drop_last(), i);
    }
}

/// The steps that enter an element at node `x`, in element order, the
/// element's first node before its second.
pub open spec fn steps_at(conns: Seq<(i32, i32)>, x: int) -> Seq<Step>
    decreases conns.len(),
{
    if conns.len() == 0 {
        Seq::empty()
    } else {
        let i = (conns.len() - 1) as usize;
        let a: Seq<Step> = if conns.last().0 == x {
            seq![(i, true)]
        } else {
            Seq::empty()
        };
        let b: Seq<Step> = if conns.last().1 == x {
            seq![(i, false)]
        } else {
            Seq::empty()
        };
        steps_at(conns.drop_last(), x) + a + b
    }
}

/// The adjacency lists of nodes `0 ..= m`, `m` the largest node.
pub open spec fn adjacency(conns: Seq<(i32, i32)>) -> Seq<Seq<Step>> {
    Seq::new((max_node(conns) + 1) as nat, |x: int| steps_at(conns, x))
}

/// The contents of each vector.
pub open spec fn views(s: Seq<Vec<Step>>) -> Seq<Seq<Step>> {
    s.map_values(|v: Vec<Step>| v@)
}

/// The largest node index of the circuit; its node equation is left out.
pub fn reference_node(conns: &Vec<(i32, i32)>) -> (m: i32)
    ensures
        m == max_node(conns@),
{
    let n = conns.len();
    let mut m: i32 = 0;
    let mut i: usize = 0;
    while i < n
        invariant
            n == conns@.len(),
            0 <= i <= n,
            m == max_node(conns@.take(i as int)),
        decreases n - i,
    {
        proof {
            assert(conns@.take(i + 1).drop_last() =~= conns@.take(i as int));
        }
        if conns[i].0 > m {
            m = conns[i].0;
        }
        if conns[i].1 > m {
            m = conns[i].1;
        }
        i += 1;
    }
    proof {
        assert(conns@.take(n as int) =~= conns@);
    }
    m
}

/// Builds `adj[x]`: for each node `x` up to the largest, the elements that
/// touch it, in element order, the element's first node before its second.
pub fn node_adjacency(conns: &Vec<(i32, i32)>) -> (adj: Vec<Vec<Step>>)
    requires
        nodes_positive(conns@),
    ensures
        adj@.len() == max_node(conns@) + 1,
        adjacency_wf(conns@, adj@),
        views(adj@) == adjacency(conns@),
{
    let n = conns.len();
    let m = reference_node(conns);
    proof {
        lemma_max_node_bounds(conns@);
    }
    let size: usize = m as usize + 1;
    let mut adj: Vec<Vec<Step>> = Vec::new();
    let mut x: usize = 0;
    while x < size
        invariant
            0 <= x <= size,
            size == m + 1,
            adj@.len() == x,
            forall|y: int| 0 <= y < x ==> (#[trigger] adj@[y])@.len() == 0,
        decreases size - x,
    {
        adj.push(Vec::new());
        x += 1;
    }
    let mut i: usize = 0;
    proof {
        assert forall|x: int| 0 <= x < adj@.len() implies (#[trigger] adj@[x])@ == steps_at(conns@.take(0), x) by {
            assert(adj@[x]@ =~= Seq::<Step>::empty());
        }
    }
    while i < n
        invariant
            n == conns@.len(),
            nodes_positive(conns@),
            m == max_node(conns@),
            0 <= i <= n,
            adj@.len() == size,
            size == m + 1,
            forall|x: int| 0 <= x < adj@.len() ==> (#[trigger] adj@[x])@ == steps_at(conns@.take(i as int), x),
            forall|x: int, t: int|
                0 <= x < adj@.len() && 0 <= t < adj@[x]@.len() ==> {
                    &&& (#[trigger] adj@[x]@[t]).0 < conns@.len()
                    &&& near(conns@, adj@[x]@[t]) == x
                },
        decreases n - i,
    {
        proof {
            lemma_max_node(conns@, i as int);
        }
        let a = conns[i].0 as usize;
        let b = conns[i].1 as usize;
        let ghost before = adj@;
        adj[a].push((i, true));
        let ghost mid = adj@;
        adj[b].push((i, false));
        proof {
            let pre = conns@.take(i as int);
            let cur = conns@.take(i + 1);
            assert(cur.drop_last() =~= pre);
            assert forall|x: int| 0 <= x < adj@.len() implies (#[trigger] adj@[x])@ == steps_at(cur, x) by {
                let sa: Seq<Step> = if x == a { seq![(i, true)] } else { Seq::empty() };
                let sb: Seq<Step> = if x == b { seq![(i, false)] } else { Seq::empty() };
                assert(mid[x]@ =~= before[x]@ + sa);
                assert(adj@[x]@ =~= mid[x]@ + sb);
                assert(steps_at(cur, x) == steps_at(pre, x) + sa + sb);
                assert(adj@[x]@ =~= steps_at(pre, x) + sa + sb);
            }
        }
        i += 1;
    }
    proof {
        assert(conns@.take(n as int) =~= conns@);
        assert(views(adj@) =~= adjacency(conns@));
        assert forall|i: int| 0 <= i < conns@.len() implies 0 <= (#[trigger] conns@[i]).0
            < adj@.len() && 0 <= conns@[i].1 < adj@.len() by {
            lemma_max_node(conns@, i);
        }
    }
    adj
}

/// `path` followed by `s`.
fn extended(path: &Vec<Step>, s: Step) -> (r: Vec<Step>)
    ensures
        r@ == path@.push(s),
{
    let mut r: Vec<Step> = Vec::new();
    let mut t: usize = 0;
    while t < path.len()
        invariant
            0 <= t <= path@.len(),
            r@ == path@.take(t as int),
        decreases path@.len() - t,
    {
        r.push(path[t]);
        proof {
            assert(path@.take(t + 1) =~= path@.take(t as int).push(path@[t as int]));
        }
        t += 1;
    }
    proof {
        assert(path@.take(t as int) =~= path@);
    }
    r.push(s);
    r
}



/// One expansion of the search: goes through the steps `list[j..]` that
/// leave the end of `path`. It stops, reporting a closed loop, at the seed
/// taken in its own orientation once `path` has more than one step; any
/// other step whose element is not yet marked is marked and pushes `path`
/// extended by it.
pub open spec fn scan(
    list: Seq<Step>,
    seed: usize,
    path: Seq<Step>,
    lv: Seq<bool>,
    st: Seq<Seq<Step>>,
    j: int,
) -> (Seq<bool>, Seq<Seq<Step>>, bool)
    decreases list.len() - j,
{
    if j >= list.len() || j < 0 {
        (lv, st, false)
    } else {
        let nx = list[j];
        if nx.0 == seed && nx.1 && path.len() > 1 {
            (lv, st, true)
        } else if !lv[nx.0 as int] {
            scan(list, seed, path, lv.update(nx.0 as int, true), st.push(path.push(nx)), j + 1)
        } else {
            scan(list, seed, path, lv, st, j + 1)
        }
    }
}

/// The search from a state: pops the last path, expands it, and returns it
/// if it closed; gives up when the stack is empty (or `fuel` runs out).
pub open spec fn run(
    conns: Seq<(i32, i32)>,
    adjv: Seq<Seq<Step>>,
    seed: usize,
    lv: Seq<bool>,
    st: Seq<Seq<Step>>,
    fuel: nat,
) -> Option<Seq<Step>>
    decreases fuel,
{
    if fuel == 0 || st.len() == 0 {
        None
    } else {
        let path = st.last();
        let x = far(conns, path.last());
        let r = scan(adjv[x], seed, path, lv, st.drop_last(), 0);
        if r.2 {
            Some(path)
        } else {
            run(conns, adjv, seed, r.0, r.1, (fuel - 1) as nat)
        }
    }
}

/// The loop that the search from `seed` finds, if any: the stack starts with
/// the seed alone, in its own orientation, and only the seed is marked.
pub open spec fn search_result(conns: Seq<(i32, i32)>, seed: usize) -> Option<Seq<Step>> {
    let n = conns.len();
    run(
        conns,
        adjacency(conns),
        seed,
        Seq::new(n, |i: int| false).update(seed as int, true),
        seq![seq![(seed, true)]],
        (2 * n + 2) as nat,
    )
}

proof fn lemma_unmarked_le(s: Seq<bool>)
    ensures
        unmarked(s) <= s.len(),
    decreases s.len(),
{
    if s.len() > 0 {
        lemma_unmarked_le(s.drop_last());
    }
}

/// Depth-first search for a loop that starts with `seed` in its own
/// orientation and comes back to the seed's first node. Paths are extended
/// from a work stack; each element is put on the stack at most once.
pub fn search_cycle(conns: &Vec<(i32, i32)>, adj: &Vec<Vec<Step>>, seed: usize) -> (r: Option<
    Vec<Step>,
>)
    requires
        seed < conns@.len(),
        adjacency_wf(conns@, adj@),
        views(adj@) == adjacency(conns@),
    ensures
        r matches Some(p) ==> is_loop(conns@, p@) && p@[0] == (seed, true),
        r matches Some(p) ==> search_result(conns@, seed) == Some(p@),
        r is None ==> search_result(conns@, seed) is None,
{
    let ghost adjv = adjacency(conns@);
    let n = conns.len();
    let mut loop_visit: Vec<bool> = Vec::new();
    let mut i: usize = 0;
    while i < n
        invariant
            0 <= i <= n,
            loop_visit@.len() == i,
            forall|t: int| 0 <= t < i ==> !(#[trigger] loop_visit@[t]),
        decreases n - i,
    {
        loop_visit.push(false);
        i += 1;
    }
    proof {
        lemma_mark(loop_visit@, seed as int);
        assert(loop_visit@ =~= Seq::new(n as nat, |i: int| false));
    }
    loop_visit.set(seed, true);
    let mut first: Vec<Step> = Vec::new();
    first.push((seed, true));
    let mut stack: Vec<Vec<Step>> = Vec::new();
    stack.push(first);
    let ghost target = search_result(conns@, seed);
    let ghost mut f: nat = (2 * n + 2) as nat;
    proof {
        assert(views(stack@) =~= seq![seq![(seed, true)]]);
        lemma_unmarked_le(loop_visit@);
    }
    let mut found: Option<Vec<Step>> = None;
    while found.is_none() && stack.len() > 0
        invariant
            n == conns@.len(),
            seed < n,
            adjacency_wf(conns@, adj@),
            views(adj@) == adjv,
            adjv == adjacency(conns@),
            loop_visit@.len() == n,
            forall|q: int|
                #![trigger stack@[q]]
                0 <= q < stack@.len() ==> {
                    &&& is_trail(conns@, stack@[q]@)
                    &&& stack@[q]@[0] == (seed, true)
                    &&& forall|t: int|
                        0 <= t < stack@[q]@.len() ==> loop_visit@[(#[trigger] stack@[q]@[t]).0 as int]
                },
            found matches Some(p) ==> is_loop(conns@, p@) && p@[0] == (seed, true),
            found matches Some(p) ==> target == Some(p@),
            found is None ==> run(conns@, adjv, seed, loop_visit@, views(stack@), f) == target,
            f >= 2 * unmarked(loop_visit@) + stack@.len(),
        decreases 2 * unmarked(loop_visit@) + stack@.len(),
    {
        let ghost st0 = views(stack@);
        let ghost lv0 = loop_visit@;
        let path = stack.pop().unwrap();
        proof {
            assert(is_trail(conns@, path@));
            assert(views(stack@) =~= st0.drop_last());
            assert(path@ == st0.last());
        }
        let last = path[path.len() - 1];
        proof {
            assert(path@.last() == path@[path@.len() - 1]);
            assert(last.0 < n);
        }
        let x: usize = if last.1 {
            conns[last.0].1 as usize
        } else {
            conns[last.0].0 as usize
        };
        let ghost measure0 = 2 * unmarked(loop_visit@) + stack@.len();
        let ghost res = scan(adjv[x as int], seed, path@, lv0, views(stack@), 0);
        proof {
            assert(adj@[x as int]@ == adjv[x as int]);
        }
        let mut j: usize = 0;
        let mut closed = false;
        while j < adj[x].len() && !closed
            invariant
                n == conns@.len(),
                seed < n,
                adjacency_wf(conns@, adj@),
                loop_visit@.len() == n,
                x < adj@.len(),
                adj@[x as int]@ == adjv[x as int],
                x == far(conns@, path@.last()),
                is_trail(conns@, path@),
                path@[0] == (seed, true),
                forall|t: int| 0 <= t < path@.len() ==> loop_visit@[(#[trigger] path@[t]).0 as int],
                forall|q: int|
                    #![trigger stack@[q]]
                    0 <= q < stack@.len() ==> {
                        &&& is_trail(conns@, stack@[q]@)
                        &&& stack@[q]@[0] == (seed, true)
                        &&& forall|t: int|
                            0 <= t < stack@[q]@.len() ==> loop_visit@[(#[trigger] stack@[q]@[t]).0 as int]
                    },
                closed ==> path@.len() > 1 && near(conns@, (seed, true)) == x,
                closed ==> res.2,
                !closed ==> scan(adjv[x as int], seed, path@, loop_visit@, views(stack@), j as int) == res,
                2 * unmarked(loop_visit@) + stack@.len() <= measure0,
            decreases adj@[x as int]@.len() - j,
        {
            let next = adj[x][j];
            if next.0 == seed && next.1 && path.len() > 1 {
                closed = true;
            } else if !loop_visit[next.0] {
                proof {
                    lemma_mark(loop_visit@, next.0 as int);
                }
                let ghost st_before = views(stack@);
                loop_visit.set(next.0, true);
                let longer = extended(&path, next);
                stack.push(longer);
                proof {
                    assert(views(stack@) =~= st_before.push(path@.push(next)));
                }
            }
            j += 1;
        }
        proof {
            if !closed {
                assert(scan(adjv[x as int], seed, path@, loop_visit@, views(stack@), j as int) == (
                loop_visit@, views(stack@), false));
            }
            assert(f >= 1);
        }
        if closed {
            found = Some(path);
        } else {
            proof {
                f = (f - 1) as nat;
            }
        }
    }
    proof {
        if found is None {
            assert(views(stack@).len() == 0);
            assert(run(conns@, adjv, seed, loop_visit@, views(stack@), f) is None);
        }
    }
    found
}

/// The `k`-th loop starts after the `j`-th and with an element that the
/// `j`-th does not use.
pub open spec fn fresh_pair(cycles: Seq<Vec<Step>>, j: int, k: int) -> bool {
    &&& cycles[j]@[0].0 < cycles[k]@[0].0
    &&& !uses(cycles[j]@, cycles[k]@[0].0 as int)
}

/// Each loop starts with a later element than the loops before it, and one
/// that none of them uses.
pub open spec fn seeds_fresh(cycles: Seq<Vec<Step>>) -> bool {
    forall|j: int, k: int| 0 <= j < k < cycles.len() ==> #[trigger] fresh_pair(cycles, j, k)
}

/// `v` with the elements of `p` set.
pub open spec fn mark(v: Seq<bool>, p: Seq<Step>) -> Seq<bool>
    decreases p.len(),
{
    if p.len() == 0 {
        v
    } else {
        mark(v, p.drop_last()).update(p.last().0 as int, true)
    }
}

/// The loops found from element `seed` on: an element already part of a
/// loop (or tried) is skipped; any other is marked and searched from, and
/// the loop found, if any, is recorded and its elements marked.
pub open spec fn cycles_from(conns: Seq<(i32, i32)>, visit: Seq<bool>, seed: nat) -> Seq<Seq<Step>>
    decreases conns.len() - seed,
{
    if seed >= conns.len() {
        Seq::empty()
    } else if visit[seed as int] {
        cycles_from(conns, visit, seed + 1)
    } else {
        let v1 = visit.update(seed as int, true);
        match search_result(conns, seed as usize) {
            Some(p) => seq![p] + cycles_from(conns, mark(v1, p), seed + 1),
            None => cycles_from(conns, v1, seed + 1),
        }
    }
}

/// The loops of the circuit graph, in the order the search records them.
pub open spec fn loop_search(conns: Seq<(i32, i32)>) -> Seq<Seq<Step>> {
    cycles_from(conns, Seq::new(conns.len(), |i: int| false), 0)
}

/// Sets `visit[e]` for every element `e` of the walk.
fn mark_used(visit: &mut Vec<bool>, p: &Vec<Step>)
    requires
        forall|u: int| 0 <= u < p@.len() ==> (#[trigger] p@[u]).0 < old(visit)@.len(),
    ensures
        final(visit)@ == mark(old(visit)@, p@),
        final(visit)@.len() == old(visit)@.len(),
        forall|e: int| 0 <= e < old(visit)@.len() && old(visit)@[e] ==> #[trigger] final(visit)@[e],
        forall|u: int| 0 <= u < p@.len() ==> final(visit)@[(#[trigger] p@[u]).0 as int],
{
    let mut t: usize = 0;
    while t < p.len()
        invariant
            visit@.len() == old(visit)@.len(),
            visit@ == mark(old(visit)@, p@.take(t as int)),
            0 <= t <= p@.len(),
            forall|u: int| 0 <= u < p@.len() ==> (#[trigger] p@[u]).0 < old(visit)@.len(),
            forall|e: int| 0 <= e < old(visit)@.len() && old(visit)@[e] ==> #[trigger] visit@[e],
            forall|u: int| 0 <= u < t ==> visit@[(#[trigger] p@[u]).0 as int],
        decreases p@.len() - t,
    {
        visit.set(p[t].0, true);
        proof {
            assert(p@.take(t + 1).drop_last() =~= p@.take(t as int));
        }
        t += 1;
    }
    proof {
        assert(p@.take(t as int) =~= p@);
    }
}

/// The independent loops of the circuit graph: one search from each element
/// not yet part of a loop found before, in element order.
pub fn find_cycles(conns: &Vec<(i32, i32)>) -> (cycles: Vec<Vec<Step>>)
    requires
        nodes_positive(conns@),
    ensures
        views(cycles@) == loop_search(conns@),
        cycles@.len() <= conns@.len(),
        forall|k: int| 0 <= k < cycles@.len() ==> is_loop(conns@, #[trigger] cycles@[k]@),
        seeds_fresh(cycles@),
{
    let adj = node_adjacency(conns);
    let n = conns.len();
    let mut visit: Vec<bool> = Vec::new();
    let mut i: usize = 0;
    while i < n
        invariant
            0 <= i <= n,
            visit@.len() == i,
            forall|t: int| 0 <= t < i ==> !(#[trigger] visit@[t]),
        decreases n - i,
    {
        visit.push(false);
        i += 1;
    }
    let mut cycles: Vec<Vec<Step>> = Vec::new();
    let mut seed: usize = 0;
    proof {
        assert(visit@ =~= Seq::new(n as nat, |i: int| false));
        assert(views(cycles@) + cycles_from(conns@, visit@, 0) =~= cycles_from(conns@, visit@, 0));
    }
    while seed < n
        invariant
            n == conns@.len(),
            adjacency_wf(conns@, adj@),
            views(adj@) == adjacency(conns@),
            0 <= seed <= n,
            views(cycles@) + cycles_from(conns@, visit@, seed as nat) == loop_search(conns@),
            cycles@.len() <= seed,
            visit@.len() == n,
            forall|k: int| 0 <= k < cycles@.len() ==> is_loop(conns@, #[trigger] cycles@[k]@),
            forall|k: int| 0 <= k < cycles@.len() ==> (#[trigger] cycles@[k]@[0]).0 < seed,
            forall|k: int, t: int|
                0 <= k < cycles@.len() && 0 <= t < cycles@[k]@.len() ==> visit@[(
                #[trigger] cycles@[k]@[t]).0 as int],
            seeds_fresh(cycles@),
        decreases n - seed,
    {
        let ghost cyc0 = views(cycles@);
        if !visit[seed] {
            let ghost before = visit@;
            visit.set(seed, true);
            match search_cycle(conns, &adj, seed) {
                Some(p) => {
                    let ghost mid = visit@;
                    mark_used(&mut visit, &p);
                    proof {
                        assert forall|k: int, u: int|
                            0 <= k < cycles@.len() && 0 <= u < cycles@[k]@.len() implies visit@[(
                            #[trigger] cycles@[k]@[u]).0 as int] by {
                            assert(mid[cycles@[k]@[u].0 as int]);
                        }
                        assert forall|j: int| 0 <= j < cycles@.len() implies !uses(
                            cycles@[j]@,
                            seed as int,
                        ) by {
                            if uses(cycles@[j]@, seed as int) {
                                let w = choose|w: int|
                                    0 <= w < cycles@[j]@.len() && cycles@[j]@[w].0 == seed;
                                assert(before[cycles@[j]@[w].0 as int]);
                            }
                        }
                    }
                    let ghost old_cycles = cycles@;
                    cycles.push(p);
                    proof {
                        assert(views(cycles@) =~= cyc0 + seq![p@]);
                        assert(cycles_from(conns@, before, seed as nat) == seq![p@] + cycles_from(
                            conns@,
                            visit@,
                            seed as nat + 1,
                        ));
                        assert(views(cycles@) + cycles_from(conns@, visit@, seed as nat + 1) =~= cyc0
                            + cycles_from(conns@, before, seed as nat));
                        assert(cycles@[cycles@.len() - 1] == p);
                        assert forall|j: int, k: int|
                            0 <= j < k < cycles@.len() implies #[trigger] fresh_pair(
                            cycles@,
                            j,
                            k,
                        ) by {
                            if k == cycles@.len() - 1 {
                                assert(cycles@[j] == old_cycles[j]);
                                assert(old_cycles[j]@[0].0 < seed);
                            } else {
                                assert(cycles@[j] == old_cycles[j]);
                                assert(cycles@[k] == old_cycles[k]);
                                assert(fresh_pair(old_cycles, j, k));
                            }
                        }
                    }
                },
                None => {
                    assert(cycles_from(conns@, before, seed as nat) == cycles_from(
                        conns@,
                        visit@,
                        seed as nat + 1,
                    ));
                },
            }
        }
        seed += 1;
    }
    proof {
        assert(views(cycles@) + cycles_from(conns@, visit@, seed as nat) =~= views(cycles@));
    }
    cycles
}

} // verus!

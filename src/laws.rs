use vstd::prelude::*;

use crate::loops::{
    far, fresh_pair, is_loop, is_trail, lemma_max_node, loop_search, max_node, near, nodes_positive,
    seeds_fresh, uses, views, Step,
};
use crate::matrix::{
    is_kirchhoff_matrix, is_kirchhoff_row, is_loop_row, is_mitigation_matrix, is_mitigation_row,
    is_node_row, node_block, node_sign, signed_drop,
};
use crate::ratio::Ratio;
use crate::solver::{lemma_offset_step, lemma_offset_total, offset, total_unknowns};
use crate::structure::Element;

verus! {

/// Column `c` is unknown `j` of element `i`.
pub open spec fn in_block(es: Seq<Element>, i: int, j: int, c: int) -> bool {
    0 <= i < es.len() && 0 <= j < es[i].unknown_count() && c == offset(es, i) + j
}

/// Every unknown belongs to the block of some element.
pub proof fn lemma_cover(es: Seq<Element>, c: int)
    requires
        0 <= c < total_unknowns(es),
    ensures
        exists|i: int, j: int| #[trigger] in_block(es, i, j, c),
    decreases es.len(),
{
    let n = es.len() as int;
    lemma_offset_step(es, n - 1);
    lemma_offset_total(es);
    if c >= offset(es, n - 1) {
        assert(in_block(es, n - 1, c - offset(es, n - 1), c));
    } else {
        let d = es.drop_last();
        assert(es.take(n - 1) =~= d);
        assert(offset(es, n - 1) == total_unknowns(d));
        lemma_cover(d, c);
        let (i, j) = choose|i: int, j: int| #[trigger] in_block(d, i, j, c);
        assert(d.take(i) =~= es.take(i));
        assert(in_block(es, i, j, c));
    }
}

/// The Kirchhoff matrix has one row per element and one column per unknown;
/// its first `m - 1` rows (`m` the largest node) are the node equations of
/// nodes `1 .. m-1`. In the column of an element's current, a node row holds
/// +1 at the node the current leaves, -1 at the node it enters, and 0
/// elsewhere; the largest node has no row.
pub proof fn lemma_kirchhoff_shape(
    conns: Seq<(i32, i32)>,
    es: Seq<Element>,
    cycles: Seq<Vec<Step>>,
    mat: Seq<Vec<Ratio>>,
)
    requires
        is_kirchhoff_matrix(conns, es, cycles, mat),
        conns.len() == es.len(),
    ensures
        mat.len() == es.len(),
        forall|r: int| 0 <= r < mat.len() ==> (#[trigger] mat[r])@.len() == total_unknowns(es),
        forall|r: int|
            0 <= r < mat.len() && r < max_node(conns) - 1 ==> is_node_row(
                conns,
                es,
                r + 1,
                #[trigger] mat[r]@,
            ),
        forall|r: int, i: int|
            0 <= r < mat.len() && r < max_node(conns) - 1 && 0 <= i < es.len() ==> #[trigger] mat[r]@[offset(
                es,
                i,
            ) as int] == if conns[i].1 == r + 1 {
                Ratio::spec_from_int(-1)
            } else if conns[i].0 == r + 1 {
                Ratio::spec_from_int(1)
            } else {
                Ratio::spec_zero()
            },
{
    assert forall|r: int| 0 <= r < mat.len() implies (#[trigger] mat[r])@.len() == total_unknowns(
        es,
    ) by {
        assert(is_kirchhoff_row(conns, es, cycles, r, mat[r]@));
    }
    assert forall|r: int| 0 <= r < mat.len() && r < max_node(conns) - 1 implies is_node_row(
        conns,
        es,
        r + 1,
        #[trigger] mat[r]@,
    ) by {
        assert(is_kirchhoff_row(conns, es, cycles, r, mat[r]@));
    }
    assert forall|r: int, i: int|
        0 <= r < mat.len() && r < max_node(conns) - 1 && 0 <= i < es.len() implies #[trigger] mat[r]@[offset(
            es,
            i,
        ) as int] == node_sign(conns[i], r + 1) by {
        assert(is_kirchhoff_row(conns, es, cycles, r, mat[r]@));
        assert(node_block(conns, es, r + 1, mat[r]@, i));
    }
}

/// Every element appears, with a nonzero coefficient, in the equation of at
/// least one node (when all node rows fit in the matrix), unless both of its
/// ends are the reference node, which has no equation.
pub proof fn lemma_current_referenced(
    conns: Seq<(i32, i32)>,
    es: Seq<Element>,
    cycles: Seq<Vec<Step>>,
    mat: Seq<Vec<Ratio>>,
    i: int,
)
    requires
        is_kirchhoff_matrix(conns, es, cycles, mat),
        conns.len() == es.len(),
        nodes_positive(conns),
        max_node(conns) - 1 <= es.len(),
        0 <= i < es.len(),
        !(conns[i].0 == max_node(conns) && conns[i].1 == max_node(conns)),
    ensures
        exists|r: int|
            0 <= r < max_node(conns) - 1 && r < mat.len() && (#[trigger] mat[r]@[offset(
                es,
                i,
            ) as int]).num != 0,
{
    lemma_max_node(conns, i);
    let m = max_node(conns);
    let node: int = if conns[i].0 != m {
        conns[i].0 as int
    } else {
        conns[i].1 as int
    };
    let r = node - 1;
    assert(is_kirchhoff_row(conns, es, cycles, r, mat[r]@));
    assert(node_block(conns, es, r + 1, mat[r]@, i));
}

/// Assembling the same circuit twice gives the same loops and the same
/// matrices: two results that meet the contract of `get_problem` for one
/// circuit agree entry by entry.
pub proof fn lemma_assembly_deterministic(
    conns: Seq<(i32, i32)>,
    es: Seq<Element>,
    cycles1: Seq<Vec<Step>>,
    cycles2: Seq<Vec<Step>>,
    k1: Seq<Vec<Ratio>>,
    k2: Seq<Vec<Ratio>>,
    m1: Seq<Vec<Ratio>>,
    m2: Seq<Vec<Ratio>>,
)
    requires
        views(cycles1) == loop_search(conns),
        views(cycles2) == loop_search(conns),
        is_kirchhoff_matrix(conns, es, cycles1, k1),
        is_kirchhoff_matrix(conns, es, cycles2, k2),
        is_mitigation_matrix(es, m1),
        is_mitigation_matrix(es, m2),
    ensures
        cycles1.len() == cycles2.len(),
        forall|k: int| 0 <= k < cycles1.len() ==> (#[trigger] cycles1[k])@ == cycles2[k]@,
        k1.len() == k2.len(),
        forall|r: int| 0 <= r < k1.len() ==> (#[trigger] k1[r])@ == k2[r]@,
        m1.len() == m2.len(),
        forall|r: int| 0 <= r < m1.len() ==> (#[trigger] m1[r])@ == m2[r]@,
{
    let m = max_node(conns);
    let cycles = cycles1;
    assert(views(cycles1).len() == cycles1.len());
    assert(views(cycles2).len() == cycles2.len());
    assert forall|k: int| 0 <= k < cycles1.len() implies (#[trigger] cycles1[k])@ == cycles2[k]@ by {
        assert(views(cycles1)[k] == cycles1[k]@);
        assert(views(cycles2)[k] == cycles2[k]@);
    }
    assert forall|r: int| 0 <= r < k1.len() implies (#[trigger] k1[r])@ == k2[r]@ by {
        let a = k1[r]@;
        let b = k2[r]@;
        assert(is_kirchhoff_row(conns, es, cycles, r, a));
        assert(is_kirchhoff_row(conns, es, cycles2, r, b));
        if r >= m - 1 && r - (m - 1) < cycles.len() {
            assert(cycles1[r - (m - 1)]@ == cycles2[r - (m - 1)]@);
        }
        assert(is_kirchhoff_row(conns, es, cycles, r, b));
        assert(a.len() == b.len());
        assert forall|c: int| 0 <= c < a.len() implies a[c] == b[c] by {
            lemma_cover(es, c);
            let (i, j) = choose|i: int, j: int| #[trigger] in_block(es, i, j, c);
            if r < m - 1 {
                assert(node_block(conns, es, r + 1, a, i));
                assert(node_block(conns, es, r + 1, b, i));
                if j == 0 {
                    assert(a[offset(es, i) as int] == b[offset(es, i) as int]);
                } else {
                    assert(a[offset(es, i) + j] == b[offset(es, i) + j]);
                }
            } else if r - (m - 1) < cycles.len() {
                let cyc = cycles[r - (m - 1)]@;
                if uses(cyc, i) {
                    let t = choose|t: int| 0 <= t < cyc.len() && cyc[t].0 == i;
                    assert(a[offset(es, cyc[t].0 as int) + j] == signed_drop(
                        es[cyc[t].0 as int],
                        cyc[t].1,
                    )[j]);
                    assert(b[offset(es, cyc[t].0 as int) + j] == signed_drop(
                        es[cyc[t].0 as int],
                        cyc[t].1,
                    )[j]);
                } else {
                    assert(a[offset(es, i) + j] == Ratio::spec_zero());
                    assert(b[offset(es, i) + j] == Ratio::spec_zero());
                }
            } else {
                assert(a[c] == Ratio::spec_zero());
                assert(b[c] == Ratio::spec_zero());
            }
        }
        assert(a =~= b);
    }
    assert forall|r: int| 0 <= r < m1.len() implies (#[trigger] m1[r])@ == m2[r]@ by {
        lemma_cover(es, r);
        let (i, a) = choose|i: int, a: int| #[trigger] in_block(es, i, a, r);
        assert(is_mitigation_row(es, i, a, m1));
        assert(is_mitigation_row(es, i, a, m2));
        assert(m1[r]@ =~= m2[r]@);
    }
}


/// A trail that joins the two nodes of element `e` without using `e`.
pub open spec fn is_bypass(conns: Seq<(i32, i32)>, e: int, w: Seq<Step>) -> bool {
    &&& is_trail(conns, w)
    &&& !uses(w, e)
    &&& {
        ||| near(conns, w[0]) == conns[e].1 && far(conns, w.last()) == conns[e].0
        ||| near(conns, w[0]) == conns[e].0 && far(conns, w.last()) == conns[e].1
    }
}

/// The index in a walk of length `n` of step `u` after step `t`, going round.
pub open spec fn rot_index(n: int, t: int, u: int) -> int {
    if t + 1 + u < n {
        t + 1 + u
    } else {
        t + 1 + u - n
    }
}

/// The rest of a loop after its step `t`, going round back to just before it.
pub open spec fn rest_of_loop(p: Seq<Step>, t: int) -> Seq<Step> {
    Seq::new((p.len() - 1) as nat, |u: int| p[rot_index(p.len() as int, t, u)])
}

/// Every element of a loop can be bypassed: the rest of the loop joins its
/// two nodes without it.
pub proof fn lemma_loop_bypass(conns: Seq<(i32, i32)>, p: Seq<Step>, t: int)
    requires
        is_loop(conns, p),
        0 <= t < p.len(),
    ensures
        is_bypass(conns, p[t].0 as int, rest_of_loop(p, t)),
{
    let n = p.len() as int;
    let w = rest_of_loop(p, t);
    assert forall|u: int| 0 <= u < w.len() implies (#[trigger] w[u]).0 < conns.len() by {
        assert(w[u] == p[rot_index(n, t, u)]);
    }
    assert forall|a: int, b: int| 0 <= a < b < w.len() implies w[a].0 != w[b].0 by {
        assert(rot_index(n, t, a) != rot_index(n, t, b));
    }
    assert forall|u: int| 0 <= u < w.len() - 1 implies far(conns, #[trigger] w[u]) == near(
        conns,
        w[u + 1],
    ) by {
        let i = rot_index(n, t, u);
        if i == n - 1 {
            assert(rot_index(n, t, u + 1) == 0);
        } else {
            assert(rot_index(n, t, u + 1) == i + 1);
        }
    }
    assert(!uses(w, p[t].0 as int)) by {
        if uses(w, p[t].0 as int) {
            let u = choose|u: int| 0 <= u < w.len() && w[u].0 == p[t].0;
            assert(rot_index(n, t, u) != t);
        }
    }
    if t == n - 1 {
        assert(w[0] == p[0]);
        assert(w.last() == p[n - 2]);
        assert(far(conns, p[n - 2]) == near(conns, p[n - 1]));
    } else if t == 0 {
        assert(w[0] == p[1]);
        assert(far(conns, p[0]) == near(conns, p[1]));
        assert(w.last() == p[n - 1]);
    } else {
        assert(w[0] == p[t + 1]);
        assert(far(conns, p[t]) == near(conns, p[t + 1]));
        assert(w.last() == p[t - 1]);
        assert(far(conns, p[t - 1]) == near(conns, p[t]));
    }
}

/// An element that no trail can bypass (a bridge) lies on none of the loops,
/// so every loop row holds zeros in all of its columns.
pub proof fn lemma_bridge_in_no_loop(
    conns: Seq<(i32, i32)>,
    es: Seq<Element>,
    cycles: Seq<Vec<Step>>,
    mat: Seq<Vec<Ratio>>,
    e: int,
)
    requires
        is_kirchhoff_matrix(conns, es, cycles, mat),
        forall|k: int| 0 <= k < cycles.len() ==> is_loop(conns, #[trigger] cycles[k]@),
        0 <= e < es.len(),
        forall|w: Seq<Step>| !is_bypass(conns, e, w),
    ensures
        forall|k: int| 0 <= k < cycles.len() ==> !uses(#[trigger] cycles[k]@, e),
        forall|r: int, j: int|
            0 <= r && max_node(conns) - 1 <= r < mat.len() && 0 <= j < es[e].unknown_count() ==> (
            #[trigger] mat[r]@[offset(es, e) + j]) == Ratio::spec_zero(),
{
    assert forall|k: int| 0 <= k < cycles.len() implies !uses(#[trigger] cycles[k]@, e) by {
        if uses(cycles[k]@, e) {
            let t = choose|t: int| 0 <= t < cycles[k]@.len() && cycles[k]@[t].0 == e;
            lemma_loop_bypass(conns, cycles[k]@, t);
            assert(is_bypass(conns, e, rest_of_loop(cycles[k]@, t)));
        }
    }
    let m = max_node(conns);
    assert forall|r: int, j: int|
        0 <= r && m - 1 <= r < mat.len() && 0 <= j < es[e].unknown_count() implies (
        #[trigger] mat[r]@[offset(es, e) + j]) == Ratio::spec_zero() by {
        assert(is_kirchhoff_row(conns, es, cycles, r, mat[r]@));
        if r - (m - 1) < cycles.len() {
            assert(!uses(cycles[r - (m - 1)]@, e));
        } else {
            lemma_offset_step(es, e);
            crate::solver::lemma_offset_mono(es, e, es.len() as int);
            lemma_offset_total(es);
            if e + 1 < es.len() {
                crate::solver::lemma_offset_mono(es, e + 1, es.len() as int);
            }
        }
    }
}


/// The loop rows are independent: the row of loop `k` holds, in the columns
/// of its seed element, the seed's own loop coefficients, while every
/// earlier loop row holds zeros there.
pub proof fn lemma_loop_rows_independent(
    conns: Seq<(i32, i32)>,
    es: Seq<Element>,
    cycles: Seq<Vec<Step>>,
    mat: Seq<Vec<Ratio>>,
    k: int,
)
    requires
        is_kirchhoff_matrix(conns, es, cycles, mat),
        forall|q: int| 0 <= q < cycles.len() ==> is_loop(conns, #[trigger] cycles[q]@),
        seeds_fresh(cycles),
        conns.len() == es.len(),
        1 <= max_node(conns),
        0 <= k < cycles.len(),
        max_node(conns) - 1 + k < mat.len(),
    ensures
        forall|j: int|
            0 <= j < es[cycles[k]@[0].0 as int].unknown_count() ==> #[trigger] mat[max_node(conns) - 1
                + k]@[offset(es, cycles[k]@[0].0 as int) + j] == es[cycles[k]@[0].0 as int].spec_voltage_drop()[j],
        forall|q: int, j: int|
            0 <= q < k && 0 <= j < es[cycles[k]@[0].0 as int].unknown_count() ==> #[trigger] mat[max_node(
                conns,
            ) - 1 + q]@[offset(es, cycles[k]@[0].0 as int) + j] == Ratio::spec_zero(),
{
    let m = max_node(conns);
    let c = cycles[k]@;
    let e = c[0].0 as int;
    assert(is_kirchhoff_row(conns, es, cycles, m - 1 + k, mat[m - 1 + k]@));
    assert forall|j: int| 0 <= j < es[e].unknown_count() implies #[trigger] mat[m - 1 + k]@[offset(
        es,
        e,
    ) + j] == es[e].spec_voltage_drop()[j] by {
        assert(mat[m - 1 + k]@[offset(es, c[0].0 as int) + j] == signed_drop(es[c[0].0 as int], c[0].1)[j]);
    }
    assert forall|q: int, j: int|
        0 <= q < k && 0 <= j < es[e].unknown_count() implies #[trigger] mat[m - 1 + q]@[offset(es, e) + j]
        == Ratio::spec_zero() by {
        assert(fresh_pair(cycles, q, k));
        assert(is_kirchhoff_row(conns, es, cycles, m - 1 + q, mat[m - 1 + q]@));
        assert(c[0].0 < conns.len());
        assert(!uses(cycles[q]@, e));
    }
}

} // verus!

use vstd::prelude::*;

use crate::loops::{is_loop, lemma_max_node, lemma_max_node_bounds, max_node, reference_node, uses, Step};
use crate::ratio::Ratio;
use crate::solver::{lemma_offset_mono, lemma_offset_step, lemma_offset_total, offset, total_unknowns, Status};
use crate::structure::{Circuit, Element};

verus! {

/// The current coefficient of an element with connection `c` in the
/// equation of `node`: -1 where the current enters, +1 where it leaves.
pub open spec fn node_sign(c: (i32, i32), node: int) -> Ratio {
    if c.1 == node {
        Ratio::spec_from_int(-1)
    } else if c.0 == node {
        Ratio::spec_from_int(1)
    } else {
        Ratio::spec_zero()
    }
}

/// The element's loop coefficients, negated when it is traversed against
/// its orientation.
pub open spec fn signed_drop(e: Element, aligned: bool) -> Seq<Ratio> {
    if aligned {
        e.spec_voltage_drop()
    } else {
        e.spec_voltage_drop().map_values(|r: Ratio| r.spec_neg())
    }
}

/// In row `row` of the equation of `node`, the block of element `i` holds
/// its current coefficient and zeros.
pub open spec fn node_block(
    conns: Seq<(i32, i32)>,
    es: Seq<Element>,
    node: int,
    row: Seq<Ratio>,
    i: int,
) -> bool {
    &&& row[offset(es, i) as int] == node_sign(conns[i], node)
    &&& forall|j: int|
        1 <= j < es[i].unknown_count() ==> #[trigger] row[offset(es, i) + j] == Ratio::spec_zero()
}

/// Row `row` is the current-conservation equation of `node`.
pub open spec fn is_node_row(
    conns: Seq<(i32, i32)>,
    es: Seq<Element>,
    node: int,
    row: Seq<Ratio>,
) -> bool {
    &&& row.len() == total_unknowns(es)
    &&& forall|i: int| 0 <= i < es.len() ==> #[trigger] node_block(conns, es, node, row, i)
}

/// Row `row` is the voltage equation of the loop `cycle`.
pub open spec fn is_loop_row(es: Seq<Element>, cycle: Seq<Step>, row: Seq<Ratio>) -> bool {
    &&& row.len() == total_unknowns(es)
    &&& forall|t: int, j: int|
        0 <= t < cycle.len() && 0 <= j < es[cycle[t].0 as int].unknown_count() ==> row[offset(
            es,
            cycle[t].0 as int,
        ) + j] == #[trigger] signed_drop(es[cycle[t].0 as int], cycle[t].1)[j]
    &&& forall|i: int|
        #![trigger es[i]]
        0 <= i < es.len() && !uses(cycle, i) ==> forall|j: int|
            0 <= j < es[i].unknown_count() ==> #[trigger] row[offset(es, i) + j] == Ratio::spec_zero()
}

/// A row of `len` zeros.
pub fn zero_row(len: usize) -> (r: Vec<Ratio>)
    ensures
        r@.len() == len,
        forall|c: int| 0 <= c < len ==> #[trigger] r@[c] == Ratio::spec_zero(),
{
    let mut r: Vec<Ratio> = Vec::new();
    let mut c: usize = 0;
    while c < len
        invariant
            0 <= c <= len,
            r@.len() == c,
            forall|d: int| 0 <= d < c ==> #[trigger] r@[d] == Ratio::spec_zero(),
        decreases len - c,
    {
        r.push(Ratio::zero());
        c += 1;
    }
    r
}

/// The current-conservation equation of `node`.
pub fn node_row(circuit: &Circuit, node: i32) -> (row: Vec<Ratio>)
    requires
        circuit.wf(),
    ensures
        is_node_row(circuit.connections@, circuit.elements@, node as int, row@),
{
    let ghost es = circuit.elements@;
    let ghost conns = circuit.connections@;
    let n = circuit.elements.len();
    let mut row: Vec<Ratio> = Vec::new();
    let mut i: usize = 0;
    while i < n
        invariant
            circuit.wf(),
            es == circuit.elements@,
            conns == circuit.connections@,
            n == es.len(),
            0 <= i <= n,
            row@.len() == offset(es, i as int),
            forall|p: int| 0 <= p < i ==> #[trigger] node_block(conns, es, node as int, row@, p),
        decreases n - i,
    {
        proof {
            lemma_offset_step(es, i as int);
        }
        let ghost before = row@;
        let c = circuit.connections[i];
        let sign = if c.1 == node {
            Ratio::from_int(-1)
        } else if c.0 == node {
            Ratio::from_int(1)
        } else {
            Ratio::zero()
        };
        row.push(sign);
        match circuit.elements[i] {
            Element::R(_) => {},
            _ => {
                row.push(Ratio::zero());
            },
        }
        proof {
            assert forall|p: int| 0 <= p < i + 1 implies #[trigger] node_block(
                conns,
                es,
                node as int,
                row@,
                p,
            ) by {
                if p < i {
                    lemma_offset_mono(es, p, i as int);
                    assert(node_block(conns, es, node as int, before, p));
                    assert(row@[offset(es, p) as int] == before[offset(es, p) as int]);
                    assert forall|j: int| 1 <= j < es[p].unknown_count() implies #[trigger] row@[offset(
                        es,
                        p,
                    ) + j] == Ratio::spec_zero() by {
                        assert(row@[offset(es, p) + j] == before[offset(es, p) + j]);
                    }
                } else {
                    assert(row@[offset(es, p) as int] == sign);
                }
            }
        }
        i += 1;
    }
    proof {
        lemma_offset_total(es);
    }
    row
}

/// Which way the loop traverses element `e`, if it uses it.
fn step_of(cycle: &Vec<Step>, e: usize) -> (r: Option<bool>)
    ensures
        r matches Some(a) ==> exists|t: int| 0 <= t < cycle@.len() && cycle@[t] == (e, a),
        r is None ==> !uses(cycle@, e as int),
{
    let mut t: usize = 0;
    while t < cycle.len()
        invariant
            0 <= t <= cycle@.len(),
            forall|u: int| 0 <= u < t ==> (#[trigger] cycle@[u]).0 != e,
        decreases cycle@.len() - t,
    {
        if cycle[t].0 == e {
            return Some(cycle[t].1);
        }
        t += 1;
    }
    None
}

/// The voltage equation of a loop.
pub fn loop_row(circuit: &Circuit, cycle: &Vec<Step>) -> (row: Vec<Ratio>)
    requires
        circuit.wf(),
        is_loop(circuit.connections@, cycle@),
    ensures
        is_loop_row(circuit.elements@, cycle@, row@),
{
    let ghost es = circuit.elements@;
    let n = circuit.elements.len();
    let mut row: Vec<Ratio> = Vec::new();
    let mut i: usize = 0;
    while i < n
        invariant
            circuit.wf(),
            es == circuit.elements@,
            n == es.len(),
            is_loop(circuit.connections@, cycle@),
            0 <= i <= n,
            row@.len() == offset(es, i as int),
            forall|t: int, j: int|
                0 <= t < cycle@.len() && cycle@[t].0 < i && 0 <= j < es[cycle@[t].0 as int].unknown_count()
                    ==> row@[offset(es, cycle@[t].0 as int) + j] == #[trigger] signed_drop(
                    es[cycle@[t].0 as int],
                    cycle@[t].1,
                )[j],
            forall|p: int|
                #![trigger es[p]]
                0 <= p < i && !uses(cycle@, p) ==> forall|j: int|
                    0 <= j < es[p].unknown_count() ==> #[trigger] row@[offset(es, p) + j] == Ratio::spec_zero(),
        decreases n - i,
    {
        proof {
            lemma_offset_step(es, i as int);
            lemma_offset_mono(es, i as int, i as int + 1);
        }
        let ghost before = row@;
        let e = circuit.elements[i];
        let found = step_of(cycle, i);
        let drop = e.voltage_drop();
        let mut j: usize = 0;
        while j < drop.len()
            invariant
                0 <= j <= drop@.len(),
                drop@ == e.spec_voltage_drop(),
                e.wf(),
                row@.len() == before.len() + j,
                forall|d: int| 0 <= d < before.len() ==> #[trigger] row@[d] == before[d],
                forall|d: int|
                    0 <= d < j ==> #[trigger] row@[before.len() + d] == match found {
                        Some(a) => signed_drop(e, a)[d],
                        None => Ratio::spec_zero(),
                    },
            decreases drop@.len() - j,
        {
            let v = match found {
                Some(true) => drop[j],
                Some(false) => drop[j].neg(),
                None => Ratio::zero(),
            };
            proof {
                assert(signed_drop(e, false)[j as int] == drop@[j as int].spec_neg());
            }
            row.push(v);
            j += 1;
        }
        proof {
            assert(before.len() == offset(es, i as int));
            assert forall|t: int, j: int|
                0 <= t < cycle@.len() && cycle@[t].0 < i + 1 && 0 <= j < es[cycle@[t].0 as int].unknown_count()
                    implies row@[offset(es, cycle@[t].0 as int) + j] == #[trigger] signed_drop(
                    es[cycle@[t].0 as int],
                    cycle@[t].1,
                )[j] by {
                let p = cycle@[t].0 as int;
                if p < i {
                    lemma_offset_mono(es, p, i as int);
                    assert(row@[offset(es, p) + j] == before[offset(es, p) + j]);
                } else {
                    assert(p == i);
                    assert(row@[before.len() + j] == row@[offset(es, p) + j]);
                    match found {
                        Some(a) => {
                            let u = choose|u: int| 0 <= u < cycle@.len() && cycle@[u] == (i, a);
                            if u != t {
                                assert(cycle@[u].0 == cycle@[t].0);
                            }
                        },
                        None => {
                            assert(uses(cycle@, p));
                        },
                    }
                }
            }
            assert forall|p: int|
                #![trigger es[p]]
                0 <= p < i + 1 && !uses(cycle@, p) implies forall|j: int|
                    0 <= j < es[p].unknown_count() ==> #[trigger] row@[offset(es, p) + j] == Ratio::spec_zero() by {
                if p < i {
                    lemma_offset_mono(es, p, i as int);
                    assert forall|j: int| 0 <= j < es[p].unknown_count() implies #[trigger] row@[offset(es, p)
                        + j] == Ratio::spec_zero() by {
                        assert(row@[offset(es, p) + j] == before[offset(es, p) + j]);
                    }
                } else {
                    assert(found is None);
                    assert forall|j: int| 0 <= j < es[p].unknown_count() implies #[trigger] row@[offset(es, p)
                        + j] == Ratio::spec_zero() by {
                        assert(row@[before.len() + j] == Ratio::spec_zero());
                    }
                }
            }
        }
        i += 1;
    }
    proof {
        lemma_offset_total(es);
    }
    row
}


/// Row `r` of the Kirchhoff matrix: the node equations of nodes `1 .. m-1`
/// (`m` is the largest node, whose equation is left out), then one voltage
/// equation per loop, then zero rows.
pub open spec fn is_kirchhoff_row(
    conns: Seq<(i32, i32)>,
    es: Seq<Element>,
    cycles: Seq<Vec<Step>>,
    r: int,
    row: Seq<Ratio>,
) -> bool {
    let m = max_node(conns);
    if r < m - 1 {
        is_node_row(conns, es, r + 1, row)
    } else if r - (m - 1) < cycles.len() {
        is_loop_row(es, cycles[r - (m - 1)]@, row)
    } else {
        &&& row.len() == total_unknowns(es)
        &&& forall|c: int| 0 <= c < row.len() ==> #[trigger] row[c] == Ratio::spec_zero()
    }
}

/// One row per element; the rows are as `is_kirchhoff_row` says.
pub open spec fn is_kirchhoff_matrix(
    conns: Seq<(i32, i32)>,
    es: Seq<Element>,
    cycles: Seq<Vec<Step>>,
    mat: Seq<Vec<Ratio>>,
) -> bool {
    &&& mat.len() == es.len()
    &&& forall|r: int|
        0 <= r < mat.len() ==> #[trigger] is_kirchhoff_row(conns, es, cycles, r, mat[r]@)
}

/// Assembles the topological equations: node rows, then one row per loop.
pub fn get_kirchhoff_matrix(circuit: &Circuit, status: &Status, cycles: &Vec<Vec<Step>>) -> (mat: Vec<
    Vec<Ratio>,
>)
    requires
        circuit.wf(),
        status.describes(circuit.elements@),
        forall|k: int| 0 <= k < cycles@.len() ==> is_loop(circuit.connections@, #[trigger] cycles@[k]@),
    ensures
        is_kirchhoff_matrix(circuit.connections@, circuit.elements@, cycles@, mat@),
{
    let ghost es = circuit.elements@;
    let ghost conns = circuit.connections@;
    let n = circuit.elements.len();
    let total = status.variables.len();
    let m = reference_node(&circuit.connections);
    let mut mat: Vec<Vec<Ratio>> = Vec::new();
    let mut r: usize = 0;
    while r < n
        invariant
            circuit.wf(),
            es == circuit.elements@,
            conns == circuit.connections@,
            n == es.len(),
            total == total_unknowns(es),
            m == max_node(conns),
            forall|k: int| 0 <= k < cycles@.len() ==> is_loop(conns, #[trigger] cycles@[k]@),
            0 <= r <= n,
            mat@.len() == r,
            forall|q: int| 0 <= q < r ==> #[trigger] is_kirchhoff_row(conns, es, cycles@, q, mat@[q]@),
        decreases n - r,
    {
        proof {
            lemma_max_node_bounds(conns);
        }
        proof {
            lemma_max_node(conns, 0);
        }
        let base: usize = (m - 1) as usize;
        let row = if r < base {
            let node = (r + 1) as i32;
            assert(node as int == r + 1);
            let row = node_row(circuit, node);
            assert(is_kirchhoff_row(conns, es, cycles@, r as int, row@));
            row
        } else if r - base < cycles.len() {
            let k = r - base;
            let row = loop_row(circuit, &cycles[k]);
            proof {
                assert(cycles@[k as int] == cycles@[r - (m - 1)]);
            }
            assert(is_kirchhoff_row(conns, es, cycles@, r as int, row@));
            row
        } else {
            let row = zero_row(total);
            assert(is_kirchhoff_row(conns, es, cycles@, r as int, row@));
            row
        };
        assert(is_kirchhoff_row(conns, es, cycles@, r as int, row@));
        let ghost before = mat@;
        mat.push(row);
        proof {
            assert forall|q: int| 0 <= q < r + 1 implies #[trigger] is_kirchhoff_row(
                conns,
                es,
                cycles@,
                q,
                mat@[q]@,
            ) by {
                if q < r {
                    assert(mat@[q] == before[q]);
                }
            }
        }
        r += 1;
    }
    mat
}

/// A row of `total` entries holding `vals` from column `start` on, zeros elsewhere.
fn block_row(total: usize, start: usize, vals: &Vec<Ratio>) -> (row: Vec<Ratio>)
    ensures
        row@.len() == total,
        forall|c: int|
            0 <= c < total ==> #[trigger] row@[c] == if start <= c < start + vals@.len() {
                vals@[c - start]
            } else {
                Ratio::spec_zero()
            },
{
    let mut row: Vec<Ratio> = Vec::new();
    let mut c: usize = 0;
    while c < total
        invariant
            0 <= c <= total,
            row@.len() == c,
            forall|d: int|
                0 <= d < c ==> #[trigger] row@[d] == if start <= d < start + vals@.len() {
                    vals@[d - start]
                } else {
                    Ratio::spec_zero()
                },
        decreases total - c,
    {
        if start <= c && c - start < vals.len() {
            row.push(vals[c - start]);
        } else {
            row.push(Ratio::zero());
        }
        c += 1;
    }
    row
}

/// Row `a` of the block of element `i` in the constitutive matrix: the
/// element's own block row in its own columns, zeros elsewhere.
pub open spec fn is_mitigation_row(es: Seq<Element>, i: int, a: int, mat: Seq<Vec<Ratio>>) -> bool {
    let row = mat[offset(es, i) + a]@;
    let start = offset(es, i) as int;
    &&& row.len() == total_unknowns(es)
    &&& forall|c: int|
        0 <= c < row.len() ==> #[trigger] row[c] == if start <= c < start + es[i].unknown_count() {
            es[i].spec_mitigation()[a][c - start]
        } else {
            Ratio::spec_zero()
        }
}

/// The constitutive matrix: square, block-diagonal over the elements' own unknowns.
pub open spec fn is_mitigation_matrix(es: Seq<Element>, mat: Seq<Vec<Ratio>>) -> bool {
    &&& mat.len() == total_unknowns(es)
    &&& forall|i: int, a: int|
        0 <= i < es.len() && 0 <= a < es[i].unknown_count() ==> #[trigger] is_mitigation_row(
            es,
            i,
            a,
            mat,
        )
}

/// Places each element's constitutive block on the diagonal, in the rows and
/// columns of its own unknowns.
pub fn get_mitigation_matrix(circuit: &Circuit, status: &Status) -> (mat: Vec<Vec<Ratio>>)
    requires
        circuit.wf(),
        status.describes(circuit.elements@),
    ensures
        is_mitigation_matrix(circuit.elements@, mat@),
{
    let ghost es = circuit.elements@;
    let n = circuit.elements.len();
    let total = status.variables.len();
    let mut mat: Vec<Vec<Ratio>> = Vec::new();
    let mut i: usize = 0;
    while i < n
        invariant
            circuit.wf(),
            es == circuit.elements@,
            n == es.len(),
            total == total_unknowns(es),
            0 <= i <= n,
            mat@.len() == offset(es, i as int),
            forall|p: int, a: int|
                0 <= p < i && 0 <= a < es[p].unknown_count() ==> #[trigger] is_mitigation_row(
                    es,
                    p,
                    a,
                    mat@,
                ),
        decreases n - i,
    {
        proof {
            lemma_offset_step(es, i as int);
            lemma_offset_mono(es, i as int, i as int + 1);
            if i + 1 < n {
                lemma_offset_mono(es, i as int + 1, n as int);
            }
            lemma_offset_total(es);
        }
        let block = circuit.elements[i].mitigation_vector();
        let start = mat.len();
        let ghost before = mat@;
        let mut a: usize = 0;
        while a < block.len()
            invariant
                0 <= a <= block@.len(),
                block@.len() == es[i as int].unknown_count(),
                forall|b: int| 0 <= b < block@.len() ==> #[trigger] block@[b]@ == es[i as int].spec_mitigation()[b],
                start == before.len(),
                start == offset(es, i as int),
                start + block@.len() <= total,
                total == total_unknowns(es),
                mat@.len() == start + a,
                forall|d: int| 0 <= d < start ==> #[trigger] mat@[d] == before[d],
                forall|b: int|
                    0 <= b < a ==> #[trigger] is_mitigation_row(es, i as int, b, mat@),
            decreases block@.len() - a,
        {
            proof {
                assert(es[i as int].spec_mitigation()[a as int].len() == es[i as int].unknown_count());
            }
            let row = block_row(total, start, &block[a]);
            let ghost mid = mat@;
            mat.push(row);
            proof {
                assert forall|b: int| 0 <= b < a + 1 implies #[trigger] is_mitigation_row(
                    es,
                    i as int,
                    b,
                    mat@,
                ) by {
                    if b < a {
                        assert(mat@[start + b] == mid[start + b]);
                        assert(is_mitigation_row(es, i as int, b, mid));
                    } else {
                        assert(mat@[start + b]@ == row@);
                    }
                }
            }
            a += 1;
        }
        proof {
            assert forall|p: int, b: int|
                0 <= p < i + 1 && 0 <= b < es[p].unknown_count() implies #[trigger] is_mitigation_row(
                es,
                p,
                b,
                mat@,
            ) by {
                if p < i {
                    lemma_offset_mono(es, p, i as int);
                    assert(is_mitigation_row(es, p, b, before));
                    assert(mat@[offset(es, p) + b] == before[offset(es, p) + b]);
                }
            }
        }
        i += 1;
    }
    proof {
        lemma_offset_total(es);
    }
    mat
}

} // verus!

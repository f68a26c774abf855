use vstd::prelude::*;

use crate::ratio::Ratio;
use crate::loops::{find_cycles, is_loop, loop_search, seeds_fresh, views, Step};
use crate::matrix::{get_kirchhoff_matrix, get_mitigation_matrix, is_kirchhoff_matrix, is_mitigation_matrix};
use crate::structure::{get_variables, spec_fix, spec_variables, Circuit, Element, Variable};

verus! {

/// Number of unknowns contributed by a sequence of elements.
pub open spec fn total_unknowns(es: Seq<Element>) -> nat
    decreases es.len(),
{
    if es.len() == 0 {
        0
    } else {
        total_unknowns(es.drop_last()) + es.last().unknown_count()
    }
}

/// Index of the first unknown of element `i`: the unknowns of earlier elements come first.
pub open spec fn offset(es: Seq<Element>, i: int) -> nat {
    total_unknowns(es.take(i))
}

pub proof fn lemma_offset_step(es: Seq<Element>, i: int)
    requires
        0 <= i < es.len(),
    ensures
        offset(es, i + 1) == offset(es, i) + es[i].unknown_count(),
{
    assert(es.take(i + 1).drop_last() =~= es.take(i));
}

pub proof fn lemma_offset_total(es: Seq<Element>)
    ensures
        offset(es, es.len() as int) == total_unknowns(es),
{
    assert(es.take(es.len() as int) =~= es);
}

/// Blocks of earlier elements end before those of later ones, and all lie in range.
pub proof fn lemma_offset_mono(es: Seq<Element>, i: int, j: int)
    requires
        0 <= i < j <= es.len(),
    ensures
        offset(es, i) + es[i].unknown_count() <= offset(es, j),
        offset(es, j) <= total_unknowns(es),
        offset(es, j) <= 2 * j,
    decreases j - i,
{
    lemma_offset_step(es, i);
    if i + 1 < j {
        lemma_offset_mono(es, i + 1, j);
    } else {
        lemma_offset_bound(es, j);
    }
}

pub proof fn lemma_offset_bound(es: Seq<Element>, j: int)
    requires
        0 <= j <= es.len(),
    ensures
        offset(es, j) <= total_unknowns(es),
        offset(es, j) <= 2 * j,
    decreases es.len() - j,
{
    if j == es.len() {
        lemma_offset_total(es);
        lemma_offset_small(es, j);
    } else {
        lemma_offset_step(es, j);
        lemma_offset_bound(es, j + 1);
        lemma_offset_small(es, j);
    }
}

pub proof fn lemma_offset_small(es: Seq<Element>, j: int)
    requires
        0 <= j <= es.len(),
    ensures
        offset(es, j) <= 2 * j,
    decreases j,
{
    if j > 0 {
        lemma_offset_step(es, j - 1);
        lemma_offset_small(es, j - 1);
    }
}

/// Element `p` owns the unknowns `offset(es, p) + k`, and these are its own unknowns.
pub open spec fn status_block(
    es: Seq<Element>,
    labels: Seq<Vec<usize>>,
    vars: Seq<Variable>,
    fix: Seq<bool>,
    p: int,
) -> bool {
    &&& labels[p]@.len() == es[p].unknown_count()
    &&& forall|k: int|
        0 <= k < es[p].unknown_count() ==> {
            &&& #[trigger] labels[p]@[k] == offset(es, p) + k
            &&& vars[offset(es, p) + k] == spec_variables(es[p])[k]
            &&& fix[offset(es, p) + k] == spec_fix(es[p])[k]
        }
}

proof fn lemma_block_frame(
    es: Seq<Element>,
    labels: Seq<Vec<usize>>,
    vars: Seq<Variable>,
    fix: Seq<bool>,
    labels2: Seq<Vec<usize>>,
    vars2: Seq<Variable>,
    fix2: Seq<bool>,
    p: int,
    i: int,
)
    requires
        0 <= p < i <= es.len(),
        status_block(es, labels, vars, fix, p),
        labels2[p] == labels[p],
        vars.len() == offset(es, i),
        fix.len() == offset(es, i),
        vars2.len() >= vars.len(),
        fix2.len() >= fix.len(),
        vars2.take(vars.len() as int) == vars,
        fix2.take(fix.len() as int) == fix,
    ensures
        status_block(es, labels2, vars2, fix2, p),
{
    lemma_offset_mono(es, p, i);
    assert forall|k: int| 0 <= k < es[p].unknown_count() implies {
        &&& #[trigger] labels2[p]@[k] == offset(es, p) + k
        &&& vars2[offset(es, p) + k] == spec_variables(es[p])[k]
        &&& fix2[offset(es, p) + k] == spec_fix(es[p])[k]
    } by {
        assert(labels[p]@[k] == offset(es, p) + k);
        assert(vars2.take(vars.len() as int)[offset(es, p) + k] == vars2[offset(es, p) + k]);
        assert(fix2.take(fix.len() as int)[offset(es, p) + k] == fix2[offset(es, p) + k]);
    }
}

/// The unknowns of a circuit and which element owns which.
pub struct Status {
    /// All unknowns, element by element.
    pub variables: Vec<Variable>,
    /// For each unknown, whether it is a state unknown (a charge or a voltage).
    pub is_fix: Vec<bool>,
    /// `labels[i]` lists the indices of the unknowns of element `i`.
    pub labels: Vec<Vec<usize>>,
}

impl Status {
    /// This is the status of the elements `es`: element `i` owns the
    /// contiguous block of unknowns starting at `offset(es, i)`.
    pub open spec fn describes(&self, es: Seq<Element>) -> bool {
        &&& self.variables@.len() == total_unknowns(es)
        &&& self.is_fix@.len() == total_unknowns(es)
        &&& self.labels@.len() == es.len()
        &&& forall|i: int|
            0 <= i < es.len() ==> #[trigger] status_block(
                es,
                self.labels@,
                self.variables@,
                self.is_fix@,
                i,
            )
    }
}

/// Lists the unknowns of every element in circuit order.
pub fn get_status(circuit: &Circuit) -> (r: Status)
    requires
        circuit.wf(),
    ensures
        r.describes(circuit.elements@),
{
    let ghost es = circuit.elements@;
    let mut is_fix: Vec<bool> = Vec::new();
    let mut variables: Vec<Variable> = Vec::new();
    let mut labels: Vec<Vec<usize>> = Vec::new();
    let n = circuit.elements.len();
    let mut i: usize = 0;
    while i < n
        invariant
            circuit.wf(),
            es == circuit.elements@,
            n == es.len(),
            0 <= i <= n,
            variables@.len() == offset(es, i as int),
            is_fix@.len() == offset(es, i as int),
            labels@.len() == i,
            forall|p: int|
                0 <= p < i ==> #[trigger] status_block(es, labels@, variables@, is_fix@, p),
        decreases n - i,
    {
        proof {
            lemma_offset_step(es, i as int);
            lemma_offset_small(es, i as int + 1);
        }
        let (v, b) = get_variables(&circuit.elements[i]);
        let initial_size = variables.len();
        let mut label: Vec<usize> = Vec::new();
        let mut k: usize = 0;
        let ghost old_vars = variables@;
        let ghost old_fix = is_fix@;
        let ghost old_labels = labels@;
        while k < v.len()
            invariant
                0 <= k <= v@.len(),
                v@.len() == es[i as int].unknown_count(),
                initial_size == old_vars.len(),
                initial_size + v@.len() <= 2 * n,
                2 * n <= usize::MAX,
                variables@ == old_vars + v@.take(k as int),
                is_fix@ == old_fix + b@.take(k as int),
                b@.len() == v@.len(),
                labels@ == old_labels,
                label@.len() == k,
                forall|q: int| 0 <= q < k ==> #[trigger] label@[q] == initial_size + q,
            decreases v@.len() - k,
        {
            label.push(initial_size + k);
            variables.push(v[k]);
            is_fix.push(b[k]);
            proof {
                assert(v@.take(k + 1) =~= v@.take(k as int).push(v@[k as int]));
                assert(b@.take(k + 1) =~= b@.take(k as int).push(b@[k as int]));
                assert(variables@ =~= old_vars + v@.take(k + 1));
                assert(is_fix@ =~= old_fix + b@.take(k + 1));
            }
            k += 1;
        }
        labels.push(label);
        proof {
            assert(v@.take(k as int) =~= v@);
            assert(b@.take(k as int) =~= b@);
            assert(variables@.take(old_vars.len() as int) =~= old_vars);
            assert(is_fix@.take(old_fix.len() as int) =~= old_fix);
            assert forall|p: int|
                0 <= p < i + 1 implies #[trigger] status_block(es, labels@, variables@, is_fix@, p) by {
                if p < i {
                    lemma_block_frame(es, old_labels, old_vars, old_fix, labels@, variables@, is_fix@, p, i as int);
                } else {
                    assert(labels@[p] == label);
                    assert forall|k: int| 0 <= k < es[p].unknown_count() implies {
                        &&& #[trigger] labels@[p]@[k] == offset(es, p) + k
                        &&& variables@[offset(es, p) + k] == spec_variables(es[p])[k]
                        &&& is_fix@[offset(es, p) + k] == spec_fix(es[p])[k]
                    } by {
                        assert(label@[k] == initial_size + k);
                    }
                }
            }
        }
        i += 1;
    }
    proof {
        lemma_offset_total(es);
    }
    Status { variables, is_fix, labels }
}


/// The assembled system of a circuit.
pub struct Problem {
    pub status: Status,
    /// The independent loops found, one per loop row of the Kirchhoff matrix.
    pub cycles: Vec<Vec<Step>>,
    pub kirchhoff_matrix: Vec<Vec<Ratio>>,
    pub mitigation_matrix: Vec<Vec<Ratio>>,
}

/// Assembles the unknowns, the loops, and both coefficient matrices of a circuit.
pub fn get_problem(circuit: Circuit) -> (r: Problem)
    requires
        circuit.wf(),
    ensures
        r.status.describes(circuit.elements@),
        views(r.cycles@) == loop_search(circuit.connections@),
        forall|k: int|
            0 <= k < r.cycles@.len() ==> is_loop(circuit.connections@, #[trigger] r.cycles@[k]@),
        seeds_fresh(r.cycles@),
        is_kirchhoff_matrix(
            circuit.connections@,
            circuit.elements@,
            r.cycles@,
            r.kirchhoff_matrix@,
        ),
        is_mitigation_matrix(circuit.elements@, r.mitigation_matrix@),
{
    let status = get_status(&circuit);
    let cycles = find_cycles(&circuit.connections);
    let kirchhoff_matrix = get_kirchhoff_matrix(&circuit, &status, &cycles);
    let mitigation_matrix = get_mitigation_matrix(&circuit, &status);
    Problem { status, cycles, kirchhoff_matrix, mitigation_matrix }
}

} // verus!

use kirchhoff::loops::find_cycles;
use kirchhoff::ratio::Ratio;
use kirchhoff::solver::{get_problem, get_status};
use kirchhoff::structure::{get_variables, Circuit, Element, Variable};

fn r(n: i64) -> Ratio {
    Ratio { num: n, den: 1 }
}

fn is(v: &Ratio, num: i64, den: i64) -> bool {
    v.num * den == num * v.den
}

fn series_loop() -> Circuit {
    Circuit {
        elements: vec![Element::R(r(2)), Element::V(r(5))],
        connections: vec![(1, 2), (2, 1)],
        labels: vec![1, 1],
    }
}

fn bridge_circuit() -> Circuit {
    Circuit {
        elements: vec![Element::R(r(7)), Element::R(r(3)), Element::R(r(4))],
        connections: vec![(1, 2), (2, 3), (3, 2)],
        labels: vec![1, 2, 3],
    }
}

fn entries(m: &Vec<Vec<Ratio>>) -> Vec<Vec<(i64, i64)>> {
    m.iter().map(|row| row.iter().map(|x| (x.num, x.den)).collect()).collect()
}

#[test]
fn series_resistor_and_source() {
    let p = get_problem(series_loop());
    let k = &p.kirchhoff_matrix;
    assert_eq!(k.len(), 2);
    assert!(k.iter().all(|row| row.len() == 3));
    // node 1: resistor leaves it, source enters it
    assert!(is(&k[0][0], 1, 1));
    assert!(is(&k[0][1], -1, 1));
    assert!(is(&k[0][2], 0, 1));
    // the loop: resistor [2], source [0, -5]
    assert!(is(&k[1][0], 2, 1));
    assert!(is(&k[1][1], 0, 1));
    assert!(is(&k[1][2], -5, 1));
    assert_eq!(p.cycles, vec![vec![(0, true), (1, true)]]);
}

#[test]
fn assembly_is_repeatable() {
    let a = get_problem(bridge_circuit());
    let b = get_problem(bridge_circuit());
    assert_eq!(entries(&a.kirchhoff_matrix), entries(&b.kirchhoff_matrix));
    assert_eq!(entries(&a.mitigation_matrix), entries(&b.mitigation_matrix));
    assert_eq!(a.cycles, b.cycles);
}

#[test]
fn bridge_has_no_loop_coefficient() {
    let p = get_problem(bridge_circuit());
    assert_eq!(p.cycles, vec![vec![(1, true), (2, true)]]);
    let k = &p.kirchhoff_matrix;
    assert_eq!(k.len(), 3);
    // rows 0 and 1 are nodes 1 and 2; row 2 is the loop through elements 1 and 2
    assert!(is(&k[2][0], 0, 1));
    assert!(is(&k[2][1], 3, 1));
    assert!(is(&k[2][2], 4, 1));
    assert!(is(&k[0][0], 1, 1));
    assert!(is(&k[1][0], -1, 1));
    assert!(is(&k[1][1], 1, 1));
    assert!(is(&k[1][2], -1, 1));
}

#[test]
fn rows_and_columns_match_elements_and_unknowns() {
    let c = Circuit {
        elements: vec![Element::V(r(9)), Element::R(r(1)), Element::C(r(2)), Element::R(r(5))],
        connections: vec![(1, 2), (2, 3), (3, 1), (2, 3)],
        labels: vec![1, 1, 1, 2],
    };
    let p = get_problem(c);
    assert_eq!(p.kirchhoff_matrix.len(), 4);
    assert!(p.kirchhoff_matrix.iter().all(|row| row.len() == 6));
    assert_eq!(p.mitigation_matrix.len(), 6);
    assert!(p.mitigation_matrix.iter().all(|row| row.len() == 6));
    // E - N + 1 = 4 - 3 + 1 loops
    assert_eq!(p.cycles.len(), 2);
    // capacitor loop coefficient is 1/C
    let cap_row = p.cycles.iter().position(|c| c.iter().any(|s| s.0 == 2)).unwrap() + 2;
    let q = &p.kirchhoff_matrix[cap_row][4];
    assert!(is(q, 1, 2) || is(q, -1, 2));
}

#[test]
fn every_current_appears_in_a_node_row() {
    let c = Circuit {
        elements: vec![Element::V(r(9)), Element::R(r(1)), Element::C(r(2))],
        connections: vec![(1, 2), (2, 3), (3, 1)],
        labels: vec![1, 1, 1],
    };
    let p = get_problem(c);
    let cols = [0usize, 2, 3];
    for col in cols {
        assert!((0..2).any(|row| p.kirchhoff_matrix[row][col].num != 0));
    }
}

#[test]
fn mitigation_blocks_on_the_diagonal() {
    let c = Circuit {
        elements: vec![Element::R(r(1)), Element::C(r(4))],
        connections: vec![(1, 2), (2, 1)],
        labels: vec![1, 1],
    };
    let p = get_problem(c);
    let m = entries(&p.mitigation_matrix);
    for (i, row) in m.iter().enumerate() {
        for (j, x) in row.iter().enumerate() {
            let expected = if i == 2 && j == 1 { 1 } else { 0 };
            assert_eq!(x.0, expected, "entry {} {}", i, j);
        }
    }
}

#[test]
fn status_blocks_follow_element_order() {
    let c = Circuit {
        elements: vec![Element::C(r(3)), Element::R(r(1)), Element::V(r(2))],
        connections: vec![(1, 2), (2, 3), (3, 1)],
        labels: vec![1, 1, 1],
    };
    let s = get_status(&c);
    assert_eq!(s.labels, vec![vec![0, 1], vec![2], vec![3, 4]]);
    assert_eq!(s.is_fix, vec![false, true, false, false, true]);
    assert!(matches!(s.variables[1], Variable::Q(_)));
    assert!(matches!(s.variables[4], Variable::V(_)));
}

#[test]
fn element_unknowns_and_coefficients() {
    let (v, b) = get_variables(&Element::R(r(3)));
    assert_eq!(v.len(), 1);
    assert_eq!(b, vec![false]);
    let d = Element::C(Ratio { num: 4, den: 3 }).voltage_drop();
    assert!(is(&d[0], 0, 1));
    assert!(is(&d[1], 3, 4));
    let d = Element::V(r(5)).voltage_drop();
    assert!(is(&d[1], -5, 1));
    assert_eq!(Element::V(r(5)).i_position(), 0);
}

#[test]
fn tree_has_no_loops() {
    let cycles = find_cycles(&vec![(1, 2), (2, 3), (2, 4)]);
    assert!(cycles.is_empty());
}

#[test]
fn self_loop_closes_no_loop() {
    let cycles = find_cycles(&vec![(1, 1), (1, 2), (2, 1)]);
    assert_eq!(cycles, vec![vec![(1, true), (2, true)]]);
}

#[test]
fn parallel_elements_give_two_loops() {
    let cycles = find_cycles(&vec![(1, 2), (1, 2), (1, 2)]);
    assert_eq!(cycles.len(), 2);
    assert_eq!(cycles[0], vec![(0, true), (2, false)]);
    assert_eq!(cycles[1][0], (1, true));
}

#[test]
fn ratio_operations() {
    let x = Ratio { num: -3, den: 4 };
    let y = x.recip();
    assert_eq!((y.num, y.den), (-4, 3));
    let z = x.neg();
    assert_eq!((z.num, z.den), (3, 4));
    assert_eq!((Ratio::zero().num, Ratio::zero().den), (0, 1));
}

#[test]
fn four_node_complete_graph_search_order() {
    // elements: 1->2, 2->4, 2->3, 1->3, 3->4, 4->1
    let cycles = find_cycles(&vec![(1, 2), (2, 4), (2, 3), (1, 3), (3, 4), (4, 1)]);
    assert_eq!(
        cycles,
        vec![
            vec![(0, true), (2, true), (4, true), (5, true)],
            vec![(1, true), (5, true), (3, true), (2, false)],
        ]
    );
}

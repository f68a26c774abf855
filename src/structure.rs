use vstd::prelude::*;

use crate::ratio::Ratio;

verus! {

/// A two-terminal circuit element with its value.
#[derive(Clone, Copy, Debug)]
pub enum Element {
    /// A resistor of the given resistance.
    R(Ratio),
    /// A capacitor of the given capacitance.
    C(Ratio),
    /// An ideal voltage source of the given voltage.
    V(Ratio),
}

/// One unknown of the linear system; the value is a placeholder.
#[derive(Clone, Copy, Debug)]
pub enum Variable {
    I(Ratio),
    Q(Ratio),
    V(Ratio),
}

impl Element {
    /// The element's value is a valid rational, and a capacitance is nonzero.
    pub open spec fn wf(self) -> bool {
        match self {
            Element::R(r) => r.wf(),
            Element::C(c) => c.wf() && c.num != 0,
            Element::V(v) => v.wf(),
        }
    }

    /// How many unknowns the element contributes.
    pub open spec fn unknown_count(self) -> nat {
        match self {
            Element::R(_) => 1,
            _ => 2,
        }
    }

    /// The coefficients of the element's unknowns in a loop equation.
    pub open spec fn spec_voltage_drop(self) -> Seq<Ratio> {
        match self {
            Element::R(r) => seq![r],
            Element::C(c) => seq![Ratio::spec_zero(), c.spec_recip()],
            Element::V(v) => seq![Ratio::spec_zero(), v.spec_neg()],
        }
    }

    /// The element's constitutive block, one row per unknown.
    pub open spec fn spec_mitigation(self) -> Seq<Seq<Ratio>> {
        let z = Ratio::spec_zero();
        match self {
            Element::R(_) => seq![seq![z]],
            Element::C(_) => seq![seq![z, z], seq![Ratio::spec_from_int(1), z]],
            Element::V(_) => seq![seq![z, z], seq![z, z]],
        }
    }

    /// Index of the current unknown among the element's own unknowns.
    pub fn i_position(&self) -> (r: usize)
        ensures
            r == 0,
            r < self.unknown_count(),
    {
        match *self {
            Element::R(_) => 0,
            Element::C(_) => 0,
            Element::V(_) => 0,
        }
    }

    pub fn voltage_drop(&self) -> (r: Vec<Ratio>)
        requires
            self.wf(),
        ensures
            r@ == self.spec_voltage_drop(),
            r@.len() == self.unknown_count(),
    {
        match *self {
            Element::R(r) => vec![r],
            Element::C(c) => vec![Ratio::zero(), c.recip()],
            Element::V(v) => vec![Ratio::zero(), v.neg()],
        }
    }

    pub fn mitigation_vector(&self) -> (r: Vec<Vec<Ratio>>)
        ensures
            r@.len() == self.spec_mitigation().len(),
            forall|a: int| 0 <= a < r@.len() ==> #[trigger] r@[a]@ == self.spec_mitigation()[a],
            r@.len() == self.unknown_count(),
    {
        let r = match *self {
            Element::R(_) => vec![vec![Ratio::zero()]],
            Element::C(_) => vec![
                vec![Ratio::zero(), Ratio::zero()],
                vec![Ratio::from_int(1), Ratio::zero()],
            ],
            Element::V(_) => vec![
                vec![Ratio::zero(), Ratio::zero()],
                vec![Ratio::zero(), Ratio::zero()],
            ],
        };
        proof {
            assert(r@.len() == self.spec_mitigation().len());
            assert forall|a: int| 0 <= a < r@.len() implies #[trigger] r@[a]@
                == self.spec_mitigation()[a] by {
                assert(r@[a]@ =~= self.spec_mitigation()[a]);
            }
        }
        r
    }
}

/// The unknowns an element contributes, current first.
pub open spec fn spec_variables(e: Element) -> Seq<Variable> {
    let z = Ratio::spec_zero();
    match e {
        Element::R(_) => seq![Variable::I(z)],
        Element::C(_) => seq![Variable::I(z), Variable::Q(z)],
        Element::V(_) => seq![Variable::I(z), Variable::V(z)],
    }
}

/// Which of an element's unknowns are state unknowns (all but the current).
pub open spec fn spec_fix(e: Element) -> Seq<bool> {
    match e {
        Element::R(_) => seq![false],
        _ => seq![false, true],
    }
}

/// The unknowns of an element with, for each, whether it is a state unknown.
pub fn get_variables(element: &Element) -> (r: (Vec<Variable>, Vec<bool>))
    ensures
        r.0@ == spec_variables(*element),
        r.1@ == spec_fix(*element),
        r.0@.len() == element.unknown_count(),
        r.1@.len() == element.unknown_count(),
{
    match element {
        Element::R(_) => (vec![Variable::I(Ratio::zero())], vec![false]),
        Element::C(_) => (vec![Variable::I(Ratio::zero()), Variable::Q(Ratio::zero())], vec![false, true]),
        Element::V(_) => (vec![Variable::I(Ratio::zero()), Variable::V(Ratio::zero())], vec![false, true]),
    }
}

/// A circuit: elements, their `(from, to)` node pairs (1-based; current is
/// positive from `from` to `to`) and their display labels, all by element index.
pub struct Circuit {
    pub elements: Vec<Element>,
    pub connections: Vec<(i32, i32)>,
    pub labels: Vec<i32>,
}

impl Circuit {
    pub open spec fn wf(&self) -> bool {
        &&& self.connections@.len() == self.elements@.len()
        &&& self.labels@.len() == self.elements@.len()
        &&& 2 * self.elements@.len() <= usize::MAX
        &&& forall|i: int| 0 <= i < self.elements@.len() ==> #[trigger] self.elements@[i].wf()
        &&& forall|i: int|
            0 <= i < self.connections@.len() ==> 1 <= (#[trigger] self.connections@[i]).0 && 1
                <= self.connections@[i].1
    }
}

} // verus!

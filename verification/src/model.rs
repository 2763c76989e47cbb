use vstd::prelude::*;

verus! {

/// A chemical element, identified by its symbol. It is used only as a
/// comparable key and never mutated.
#[derive(Debug, PartialEq, Eq)]
pub struct Element {
    pub symbol: String,
}

impl View for Element {
    type V = Seq<char>;

    open spec fn view(&self) -> Seq<char> {
        self.symbol@
    }
}

impl Element {
    pub fn new(symbol: String) -> (e: Element)
        ensures
            e@ == symbol@,
    {
        Element { symbol }
    }

    /// Whether two elements carry the same symbol.
    pub fn same(&self, other: &Element) -> (r: bool)
        ensures
            r == (self@ == other@),
    {
        self.symbol == other.symbol
    }
}

/// A compound: a formula string plus the count of atoms of each element,
/// held as an association list with pairwise distinct keys.
#[derive(Debug, PartialEq, Eq)]
pub struct Compound {
    pub formula: String,
    pub atoms: Vec<(Element, u32)>,
}

/// Atom count of element `e` in an association list: the first entry whose
/// key is `e`, or zero when none is.
pub open spec fn count_in(atoms: Seq<(Element, u32)>, e: Seq<char>) -> nat
    decreases atoms.len(),
{
    if atoms.len() == 0 {
        0
    } else if atoms[0].0@ == e {
        atoms[0].1 as nat
    } else {
        count_in(atoms.skip(1), e)
    }
}

/// Some entry of `atoms` names element `e`.
pub open spec fn mentions(atoms: Seq<(Element, u32)>, e: Seq<char>) -> bool {
    exists|i: int| 0 <= i < atoms.len() && atoms[i].0@ == e
}

/// An association list of atom counts is well formed when every count is
/// positive and no element occurs twice.
pub open spec fn atoms_wf(atoms: Seq<(Element, u32)>) -> bool {
    &&& forall|i: int| 0 <= i < atoms.len() ==> (#[trigger] atoms[i]).1 >= 1
    &&& forall|i: int, j: int|
        0 <= i < j < atoms.len() ==> (#[trigger] atoms[i]).0@ != (#[trigger] atoms[j]).0@
}

impl Compound {
    pub open spec fn wf(self) -> bool {
        atoms_wf(self.atoms@)
    }

    pub fn new(formula: String, atoms: Vec<(Element, u32)>) -> (c: Compound)
        requires
            atoms_wf(atoms@),
        ensures
            c.formula == formula,
            c.atoms == atoms,
            c.wf(),
    {
        Compound { formula, atoms }
    }

    /// The atom count of element `e` in this compound, zero when absent.
    pub fn count_of(&self, e: &Element) -> (n: u32)
        ensures
            n as nat == count_in(self.atoms@, e@),
    {
        let mut i: usize = 0;
        assert(self.atoms@.skip(0) =~= self.atoms@);
        while i < self.atoms.len()
            invariant
                0 <= i <= self.atoms@.len(),
                count_in(self.atoms@, e@) == count_in(self.atoms@.skip(i as int), e@),
                forall|k: int| 0 <= k < i ==> (#[trigger] self.atoms@[k]).0@ != e@,
            decreases self.atoms@.len() - i,
        {
            let entry = &self.atoms[i];
            if entry.0.same(e) {
                assert(count_in(self.atoms@.skip(i as int), e@) == entry.1 as nat);
                return entry.1;
            }
            assert(self.atoms@.skip(i as int).skip(1) =~= self.atoms@.skip(i as int + 1));
            i = i + 1;
        }
        assert(count_in(self.atoms@.skip(i as int), e@) == 0);
        0
    }
}

/// A compound together with its molar coefficient in a balanced equation.
#[derive(Debug, PartialEq, Eq)]
pub struct Reactant {
    pub compound: Compound,
    pub molar_coefficient: u32,
}

impl Reactant {
    pub fn of_compound(compound: Compound, molar_coefficient: u32) -> (r: Reactant)
        requires
            molar_coefficient >= 1,
        ensures
            r.compound == compound,
            r.molar_coefficient == molar_coefficient,
    {
        Reactant { compound, molar_coefficient }
    }
}

/// Total atoms of element `e` on one side: the sum over the side of
/// (molar coefficient × atom count of `e`).
pub open spec fn side_total(side: Seq<Reactant>, e: Seq<char>) -> nat
    decreases side.len(),
{
    if side.len() == 0 {
        0
    } else {
        (side[0].molar_coefficient as nat) * count_in(side[0].compound.atoms@, e) + side_total(
            side.skip(1),
            e,
        )
    }
}

/// Every element's atoms are conserved between the two sides.
pub open spec fn conserved(reagents: Seq<Reactant>, products: Seq<Reactant>) -> bool {
    forall|e: Seq<char>| side_total(reagents, e) == side_total(products, e)
}

/// Every molar coefficient on the side is a positive integer.
pub open spec fn all_positive(side: Seq<Reactant>) -> bool {
    forall|i: int| 0 <= i < side.len() ==> (#[trigger] side[i]).molar_coefficient >= 1
}

/// A balanced reaction: the two ordered sides, each compound with its
/// positive molar coefficient, conserving every element.
#[derive(Debug, PartialEq, Eq)]
pub struct BalancedReaction {
    pub reagents: Vec<Reactant>,
    pub products: Vec<Reactant>,
}

impl BalancedReaction {
    pub open spec fn wf(self) -> bool {
        &&& conserved(self.reagents@, self.products@)
        &&& all_positive(self.reagents@)
        &&& all_positive(self.products@)
    }

    pub fn new(reagents: Vec<Reactant>, products: Vec<Reactant>) -> (br: BalancedReaction)
        requires
            conserved(reagents@, products@),
            all_positive(reagents@),
            all_positive(products@),
        ensures
            br.reagents == reagents,
            br.products == products,
            br.wf(),
    {
        BalancedReaction { reagents, products }
    }
}

/// Conservation law: for a well-formed balanced reaction and any element,
/// the reagent side and the product side carry the same number of its atoms.
pub proof fn lemma_conservation(br: BalancedReaction, e: Seq<char>)
    requires
        br.wf(),
    ensures
        side_total(br.reagents@, e) == side_total(br.products@, e),
{
}

/// Why a balancing call failed.
#[derive(Debug, PartialEq, Eq)]
pub enum BalanceError {
    /// The element sets of the two sides differ; the offending elements are
    /// carried so that the caller can explain the rejection.
    UnbalanceableFormula { missing_from_products: Vec<Element>, missing_from_reagents: Vec<Element> },
    /// The least-squares solve could not produce a solution.
    SolverFailure { detail: String },
    /// A solver output was non-finite, or had no exact rational form within
    /// machine bounds; the offending value is carried as its bit pattern.
    RationalConversionFailure { bits: u32 },
    /// A coefficient did not reduce to an exact machine integer after
    /// scaling; the offending rational is carried.
    ScalingFailure { numerator: u64, denominator: u64 },
    /// The integer coefficients do not conserve every element, or are not
    /// all positive: the solver produced a spurious answer.
    VerificationFailure,
}

} // verus!

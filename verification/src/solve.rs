use crate::arith::{mul_u64, scale_of, scale_spec};
use crate::model::{
    all_positive, conserved, count_in, mentions, side_total, BalanceError, BalancedReaction,
    Compound, Element, Reactant,
};
use crate::rational::{
    decode_spec, fits_u64, limit_denominator, limit_spec, rational_from_bits, Ratio,
};
use vstd::prelude::*;

verus! {

/// The ceiling on denominators of the reconstructed rationals.
pub const MAX_DENOMINATOR: u64 = 100;

/// Element `e` occurs in some compound of `cs`.
pub open spec fn appears(cs: Seq<Compound>, e: Seq<char>) -> bool {
    exists|i: int| 0 <= i < cs.len() && mentions(cs[i].atoms@, e)
}

/// The two sides name exactly the same set of elements.
pub open spec fn same_elements(rs: Seq<Compound>, ps: Seq<Compound>) -> bool {
    forall|e: Seq<char>| appears(rs, e) == appears(ps, e)
}

/// Element `e` occurs in the list of elements.
pub open spec fn listed(es: Seq<Element>, e: Seq<char>) -> bool {
    exists|i: int| 0 <= i < es.len() && es[i]@ == e
}

/// No element symbol occurs twice in the list.
pub open spec fn distinct_elems(es: Seq<Element>) -> bool {
    forall|i: int, j: int| 0 <= i < j < es.len() ==> es[i]@ != es[j]@
}

/// The set of element symbols occurring in the compounds.
pub open spec fn element_set(cs: Seq<Compound>) -> Set<Seq<char>> {
    Set::new(|e: Seq<char>| appears(cs, e))
}

/// How many distinct elements occur in the compounds.
pub open spec fn element_count(cs: Seq<Compound>) -> nat {
    element_set(cs).len()
}

/// A repetition-free list of exactly the elements of `cs` has the
/// element count as its length.
proof fn lemma_element_list_length(els: Seq<Element>, cs: Seq<Compound>)
    requires
        distinct_elems(els),
        forall|e: Seq<char>| listed(els, e) == appears(cs, e),
    ensures
        els.len() == element_count(cs),
        element_set(cs).finite(),
{
    let vs = Seq::new(els.len(), |i: int| els[i]@);
    assert forall|i: int, j: int|
        0 <= i < vs.len() && 0 <= j < vs.len() && i != j implies vs[i] != vs[j] by {
        if i < j {
            assert(els[i]@ != els[j]@);
        } else {
            assert(els[j]@ != els[i]@);
        }
    }
    assert(vs.no_duplicates());
    assert forall|x: Seq<char>|
        vs.to_set().contains(x) == element_set(cs).contains(x) by {
        if vs.contains(x) {
            let i = choose|i: int| 0 <= i < vs.len() && vs[i] == x;
            assert(els[i]@ == x);
            assert(listed(els, x));
        }
        if appears(cs, x) {
            assert(listed(els, x));
            let i = choose|i: int| 0 <= i < els.len() && els[i]@ == x;
            assert(vs[i] == x);
            assert(vs.contains(x));
        }
    }
    assert(vs.to_set() =~= element_set(cs));
    vs.unique_seq_to_set();
    vstd::seq_lib::seq_to_set_is_finite(vs);
}

/// Element `e` occurs in some compound of the side.
pub open spec fn appears_r(rs: Seq<Reactant>, e: Seq<char>) -> bool {
    exists|i: int| 0 <= i < rs.len() && mentions(rs[i].compound.atoms@, e)
}

fn contains_elem(es: &Vec<Element>, e: &Element) -> (r: bool)
    ensures
        r == listed(es@, e@),
{
    let mut i: usize = 0;
    while i < es.len()
        invariant
            i <= es@.len(),
            forall|k: int| 0 <= k < i ==> (#[trigger] es@[k])@ != e@,
        decreases es@.len() - i,
    {
        if es[i].same(e) {
            return true;
        }
        i = i + 1;
    }
    false
}

/// Append the elements named in one atom list, keeping the list free of
/// repetitions.
fn add_atom_elements(es: Vec<Element>, atoms: &Vec<(Element, u32)>) -> (out: Vec<Element>)
    requires
        distinct_elems(es@),
    ensures
        distinct_elems(out@),
        forall|e: Seq<char>| (#[trigger] listed(out@, e)) == (listed(es@, e) || mentions(atoms@, e)),
{
    let mut out = es;
    let ghost es0 = out@;
    let mut j: usize = 0;
    while j < atoms.len()
        invariant
            j <= atoms@.len(),
            distinct_elems(out@),
            forall|e: Seq<char>|
                (#[trigger] listed(out@, e)) == (listed(es0, e) || (exists|y: int|
                    0 <= y < j && atoms@[y].0@ == e)),
        decreases atoms@.len() - j,
    {
        let el = &atoms[j].0;
        let present = contains_elem(&out, el);
        let ghost before = out@;
        if !present {
            out.push(Element::new(el.symbol.clone()));
            proof {
                assert(forall|k: int| 0 <= k < before.len() ==> (#[trigger] out@[k]) == before[k]);
                assert(out@[before.len() as int]@ == el@);
            }
        }
        proof {
            assert forall|e: Seq<char>|
                (#[trigger] listed(out@, e)) == (listed(es0, e) || (exists|y: int|
                    0 <= y < j + 1 && atoms@[y].0@ == e)) by {
                if listed(out@, e) {
                    let k = choose|k: int| 0 <= k < out@.len() && out@[k]@ == e;
                    if k < before.len() {
                        assert(before[k]@ == e);
                        assert(listed(before, e));
                        if !listed(es0, e) {
                            let y = choose|y: int| 0 <= y < j && atoms@[y].0@ == e;
                            assert(0 <= y < j + 1 && atoms@[y].0@ == e);
                        }
                    } else {
                        assert(out@[k]@ == el@);
                        assert(atoms@[j as int].0@ == e);
                    }
                }
                if listed(es0, e) {
                    assert(listed(before, e));
                    let k = choose|k: int| 0 <= k < before.len() && before[k]@ == e;
                    assert(out@[k]@ == e);
                }
                if exists|y: int| 0 <= y < j + 1 && atoms@[y].0@ == e {
                    let y = choose|y: int| 0 <= y < j + 1 && atoms@[y].0@ == e;
                    if y < j {
                        assert(listed(before, e));
                        let k = choose|k: int| 0 <= k < before.len() && before[k]@ == e;
                        assert(out@[k]@ == e);
                    } else {
                        assert(el@ == e);
                        if present {
                            assert(listed(before, e));
                            let k = choose|k: int| 0 <= k < before.len() && before[k]@ == e;
                            assert(out@[k]@ == e);
                        } else {
                            assert(out@[before.len() as int]@ == e);
                        }
                    }
                }
            }
        }
        j = j + 1;
    }
    out
}

/// Append each element named in the compounds, keeping the list free of
/// repetitions.
fn collect_elements(cs: &Vec<Compound>, es: Vec<Element>) -> (out: Vec<Element>)
    requires
        distinct_elems(es@),
    ensures
        distinct_elems(out@),
        forall|e: Seq<char>| (#[trigger] listed(out@, e)) == (listed(es@, e) || appears(cs@, e)),
{
    let mut out = es;
    let ghost es0 = out@;
    let mut i: usize = 0;
    while i < cs.len()
        invariant
            i <= cs@.len(),
            distinct_elems(out@),
            forall|e: Seq<char>|
                (#[trigger] listed(out@, e)) == (listed(es0, e) || (exists|x: int|
                    0 <= x < i && mentions(cs@[x].atoms@, e))),
        decreases cs@.len() - i,
    {
        let ghost before = out@;
        out = add_atom_elements(out, &cs[i].atoms);
        proof {
            assert forall|e: Seq<char>|
                (#[trigger] listed(out@, e)) == (listed(es0, e) || (exists|x: int|
                    0 <= x < i + 1 && mentions(cs@[x].atoms@, e))) by {
                if listed(out@, e) && !listed(before, e) {
                    assert(mentions(cs@[i as int].atoms@, e));
                }
                if exists|x: int| 0 <= x < i + 1 && mentions(cs@[x].atoms@, e) {
                    let x = choose|x: int| 0 <= x < i + 1 && mentions(cs@[x].atoms@, e);
                    if x < i {
                        assert(listed(before, e));
                    } else {
                        assert(mentions(cs@[i as int].atoms@, e));
                    }
                }
            }
        }
        i = i + 1;
    }
    proof {
        assert forall|e: Seq<char>|
            (#[trigger] listed(out@, e)) == (listed(es0, e) || appears(cs@, e)) by {
            if appears(cs@, e) {
                let x = choose|x: int| 0 <= x < cs@.len() && mentions(cs@[x].atoms@, e);
                assert(exists|x: int| 0 <= x < cs@.len() && mentions(cs@[x].atoms@, e));
            }
            if exists|x: int| 0 <= x < cs@.len() && mentions(cs@[x].atoms@, e) {
                assert(appears(cs@, e));
            }
        }
    }
    out
}

/// The elements of `from` that occur in no entry of `other`, kept in
/// first-appearance order without repetitions.
fn missing_from(from: &Vec<Element>, other: &Vec<Element>) -> (m: Vec<Element>)
    requires
        distinct_elems(from@),
    ensures
        distinct_elems(m@),
        forall|e: Seq<char>| (#[trigger] listed(m@, e)) == (listed(from@, e) && !listed(other@, e)),
{
    let mut m: Vec<Element> = Vec::new();
    let mut i: usize = 0;
    while i < from.len()
        invariant
            i <= from@.len(),
            distinct_elems(from@),
            distinct_elems(m@),
            forall|e: Seq<char>|
                (#[trigger] listed(m@, e)) == ((exists|k: int| 0 <= k < i && from@[k]@ == e)
                    && !listed(other@, e)),
        decreases from@.len() - i,
    {
        let absent = !contains_elem(other, &from[i]);
        let ghost before = m@;
        if absent {
            m.push(Element::new(from[i].symbol.clone()));
            proof {
                assert(forall|k: int| 0 <= k < before.len() ==> (#[trigger] m@[k]) == before[k]);
                assert(m@[before.len() as int]@ == from@[i as int]@);
                assert forall|a: int| 0 <= a < before.len() implies m@[a]@ != from@[i as int]@ by {
                    assert(listed(before, before[a]@));
                    let k = choose|k: int| 0 <= k < i && from@[k]@ == before[a]@;
                    assert(from@[k]@ != from@[i as int]@);
                }
                assert forall|a: int, b: int|
                    0 <= a < b < m@.len() implies m@[a]@ != m@[b]@ by {
                    if b < before.len() {
                        assert(m@[a]@ == before[a]@ && m@[b]@ == before[b]@);
                    } else {
                        assert(m@[b]@ == from@[i as int]@);
                    }
                }
            }
        }
        proof {
            assert forall|e: Seq<char>|
                (#[trigger] listed(m@, e)) == ((exists|k: int| 0 <= k < i + 1 && from@[k]@ == e)
                    && !listed(other@, e)) by {
                if listed(m@, e) {
                    let k = choose|k: int| 0 <= k < m@.len() && m@[k]@ == e;
                    if k < before.len() {
                        assert(before[k]@ == e);
                        assert(listed(before, e));
                    } else {
                        assert(from@[i as int]@ == e);
                    }
                }
                if (exists|k: int| 0 <= k < i + 1 && from@[k]@ == e) && !listed(other@, e) {
                    let k = choose|k: int| 0 <= k < i + 1 && from@[k]@ == e;
                    if k < i {
                        assert(listed(before, e));
                        let t = choose|t: int| 0 <= t < before.len() && before[t]@ == e;
                        assert(m@[t]@ == e);
                    } else {
                        assert(from@[i as int]@ == e);
                        assert(absent);
                        assert(m@[before.len() as int]@ == e);
                    }
                }
            }
        }
        i = i + 1;
    }
    proof {
        assert forall|e: Seq<char>|
            (#[trigger] listed(m@, e)) == (listed(from@, e) && !listed(other@, e)) by {
            if listed(from@, e) {
                assert(exists|k: int| 0 <= k < from@.len() && from@[k]@ == e);
            }
            if exists|k: int| 0 <= k < from@.len() && from@[k]@ == e {
                assert(listed(from@, e));
            }
        }
    }
    m
}

/// The compound of column `j`, reagents first, then products.
pub open spec fn col_compound(rs: Seq<Compound>, ps: Seq<Compound>, j: int) -> Compound {
    if j < rs.len() {
        rs[j]
    } else {
        ps[j - rs.len()]
    }
}

/// The stoichiometric matrix, row-major: one row per element, one column
/// per compound (reagents then products), each entry the atom count of
/// that row's element in that column's compound.
fn build_matrix(elements: &Vec<Element>, reagents: &Vec<Compound>, products: &Vec<Compound>) -> (m:
    Vec<u32>)
    requires
        reagents@.len() + products@.len() <= usize::MAX,
        1 <= reagents@.len() + products@.len(),
        elements@.len() * (reagents@.len() + products@.len()) <= usize::MAX,
    ensures
        m@.len() == elements@.len() * (reagents@.len() + products@.len()),
        forall|i: int, j: int|
            0 <= i < elements@.len() && 0 <= j < reagents@.len() + products@.len()
                ==> (#[trigger] m@[i * (reagents@.len() + products@.len()) + j]) as nat == count_in(
                col_compound(reagents@, products@, j).atoms@,
                elements@[i]@,
            ),
{
    let cols: usize = reagents.len() + products.len();
    let rows: usize = elements.len();
    let mut m: Vec<u32> = Vec::new();
    let mut i: usize = 0;
    while i < rows
        invariant
            i <= rows,
            rows == elements@.len(),
            1 <= cols,
            cols == reagents@.len() + products@.len(),
            rows * cols <= usize::MAX,
            m@.len() == i * cols,
            forall|t: int|
                0 <= t < m@.len() ==> (#[trigger] m@[t]) as nat == count_in(
                    col_compound(reagents@, products@, t % (cols as int)).atoms@,
                    elements@[t / (cols as int)]@,
                ),
        decreases rows - i,
    {
        proof {
            assert((i + 1) * cols <= rows * cols && (i + 1) * cols == i * cols + cols)
                by (nonlinear_arith)
                requires
                    i < rows,
                    cols >= 1,
            ;
        }
        let e = &elements[i];
        let mut j: usize = 0;
        while j < cols
            invariant
                i < rows,
                rows == elements@.len(),
                j <= cols,
                1 <= cols,
                cols == reagents@.len() + products@.len(),
                i * cols + cols <= usize::MAX,
                m@.len() == i * cols + j,
                e@ == elements@[i as int]@,
                forall|t: int|
                    0 <= t < m@.len() ==> (#[trigger] m@[t]) as nat == count_in(
                        col_compound(reagents@, products@, t % (cols as int)).atoms@,
                        elements@[t / (cols as int)]@,
                    ),
            decreases cols - j,
        {
            let c: u32 = if j < reagents.len() {
                reagents[j].count_of(e)
            } else {
                products[j - reagents.len()].count_of(e)
            };
            let ghost t = (i * cols + j) as int;
            m.push(c);
            proof {
                vstd::arithmetic::div_mod::lemma_fundamental_div_mod_converse(
                    t,
                    cols as int,
                    i as int,
                    j as int,
                );
                assert(m@[t] == c);
                assert(t % (cols as int) == j as int && t / (cols as int) == i as int);
            }
            j = j + 1;
        }
        i = i + 1;
    }
    proof {
        assert forall|i: int, j: int|
            0 <= i < elements@.len() && 0 <= j < reagents@.len() + products@.len()
                implies (#[trigger] m@[i * (reagents@.len() + products@.len()) + j]) as nat
                == count_in(
                col_compound(reagents@, products@, j).atoms@,
                elements@[i]@,
            ) by {
            let colsn = (reagents@.len() + products@.len()) as int;
            let t = i * colsn + j;
            assert(0 <= t && t < elements@.len() * colsn) by (nonlinear_arith)
                requires
                    0 <= i < elements@.len(),
                    0 <= j < colsn,
                    t == i * colsn + j,
            ;
            vstd::arithmetic::div_mod::lemma_fundamental_div_mod_converse(t, colsn, i, j);
            assert(t % colsn == j && t / colsn == i);
        }
    }
    m
}

/// The bounded-denominator rational reconstructed from one solver output.
pub open spec fn limited_of(bits: u32) -> (nat, nat) {
    limit_spec(decode_spec(bits).0, decode_spec(bits).1, MAX_DENOMINATOR as nat)
}

/// The denominators of the reconstructed rationals.
pub open spec fn dens_of(bs: Seq<u32>) -> Seq<u64> {
    Seq::new(bs.len(), |i: int| limited_of(bs[i]).1 as u64)
}

/// The integer scale: the denominator-list scale of the reconstruction.
pub open spec fn scale_value(bs: Seq<u32>) -> nat {
    scale_spec(dens_of(bs))
}

/// Every solver output decodes to a machine-word rational.
pub open spec fn all_fit(bs: Seq<u32>) -> bool {
    forall|i: int| 0 <= i < bs.len() ==> fits_u64(#[trigger] bs[i])
}

/// The integer coefficient of the compound in column `i`: the scaled
/// reconstructed rational, or the scale itself for the last compound.
pub open spec fn coeff_at(bs: Seq<u32>, i: int) -> nat {
    if i < bs.len() {
        (limited_of(bs[i]).0 * scale_value(bs)) / limited_of(bs[i]).1
    } else {
        scale_value(bs)
    }
}

/// The side that would result from giving each compound its integer
/// coefficient, the side's coefficients starting at `offset`.
pub open spec fn attach_spec(cs: Seq<Compound>, bs: Seq<u32>, offset: int) -> Seq<Reactant> {
    Seq::new(
        cs.len(),
        |i: int|
            (Reactant { compound: cs[i], molar_coefficient: coeff_at(bs, offset + i) as u32 }),
    )
}

/// Every reconstructed rational times the scale is an exact machine
/// integer.
pub open spec fn scaled_exact(bs: Seq<u32>) -> bool {
    forall|i: int|
        0 <= i < bs.len() ==> ((limited_of(#[trigger] bs[i]).0 * scale_value(bs)) % limited_of(
            bs[i],
        ).1 == 0 && (limited_of(bs[i]).0 * scale_value(bs)) / limited_of(bs[i]).1 <= u64::MAX)
}

/// The integer coefficients of the reconstruction: each solver output,
/// decoded to an exact rational, snapped to a denominator of at most
/// `MAX_DENOMINATOR`, and multiplied by the common scale; the scale itself
/// is appended as the coefficient of the last compound. Fails exactly when
/// an output has no machine-word rational form, or a scaled value is not
/// an exact machine integer.
pub fn coefficients_from_bits(bits: &Vec<u32>) -> (r: Result<Vec<u64>, BalanceError>)
    ensures
        match r {
            Ok(cs) => {
                &&& all_fit(bits@)
                &&& scaled_exact(bits@)
                &&& cs@.len() == bits@.len() + 1
                &&& forall|i: int|
                    0 <= i < bits@.len() ==> (#[trigger] cs@[i]) as nat == (limited_of(
                        bits@[i],
                    ).0 * scale_value(bits@)) / limited_of(bits@[i]).1
                &&& cs@[bits@.len() as int] as nat == scale_value(bits@)
            },
            Err(e) => {
                &&& !(all_fit(bits@) && scaled_exact(bits@))
                &&& (e matches BalanceError::RationalConversionFailure { .. } || e
                    matches BalanceError::ScalingFailure { .. })
                &&& (e matches BalanceError::RationalConversionFailure { .. } ==> !all_fit(bits@))
                &&& (e matches BalanceError::ScalingFailure { .. } ==> all_fit(bits@)
                    && !scaled_exact(bits@))
            },
        },
{
    let mut rats: Vec<Ratio> = Vec::new();
    let mut i: usize = 0;
    while i < bits.len()
        invariant
            i <= bits@.len(),
            rats@.len() == i,
            forall|k: int|
                0 <= k < i ==> ((#[trigger] rats@[k]).num as nat, rats@[k].den as nat)
                    == limited_of(bits@[k]),
            forall|k: int| 0 <= k < i ==> 1 <= (#[trigger] rats@[k]).den <= MAX_DENOMINATOR,
            forall|k: int| 0 <= k < i ==> fits_u64(#[trigger] bits@[k]),
        decreases bits@.len() - i,
    {
        match rational_from_bits(bits[i]) {
            Ok(q) => {
                let limited = limit_denominator(q, MAX_DENOMINATOR);
                rats.push(limited);
            },
            Err(e) => {
                proof {
                    assert(!all_fit(bits@)) by {
                        assert(0 <= i < bits@.len() && !fits_u64(bits@[i as int]));
                    }
                }
                return Err(e);
            },
        }
        i = i + 1;
    }
    let mut dens: Vec<u64> = Vec::new();
    let mut k: usize = 0;
    while k < rats.len()
        invariant
            k <= rats@.len(),
            dens@.len() == k,
            forall|t: int| 0 <= t < k ==> (#[trigger] dens@[t]) == rats@[t].den,
            forall|t: int|
                0 <= t < rats@.len() ==> ((#[trigger] rats@[t]).num as nat, rats@[t].den as nat)
                    == limited_of(bits@[t]),
            forall|t: int| 0 <= t < rats@.len() ==> 1 <= (#[trigger] rats@[t]).den
                <= MAX_DENOMINATOR,
            rats@.len() == bits@.len(),
        decreases rats@.len() - k,
    {
        dens.push(rats[k].den);
        k = k + 1;
    }
    proof {
        assert(dens@ =~= dens_of(bits@));
        assert(all_fit(bits@));
    }
    let sc: u64 = scale_of(&dens);
    let mut out: Vec<u64> = Vec::new();
    let mut t: usize = 0;
    while t < rats.len()
        invariant
            t <= rats@.len(),
            out@.len() == t,
            rats@.len() == bits@.len(),
            all_fit(bits@),
            sc as nat == scale_value(bits@),
            1 <= sc <= 10000,
            forall|x: int|
                0 <= x < rats@.len() ==> ((#[trigger] rats@[x]).num as nat, rats@[x].den as nat)
                    == limited_of(bits@[x]),
            forall|x: int| 0 <= x < rats@.len() ==> 1 <= (#[trigger] rats@[x]).den
                <= MAX_DENOMINATOR,
            forall|x: int|
                0 <= x < t ==> ((limited_of(#[trigger] bits@[x]).0 * scale_value(bits@))
                    % limited_of(bits@[x]).1 == 0 && (limited_of(bits@[x]).0 * scale_value(bits@))
                    / limited_of(bits@[x]).1 <= u64::MAX),
            forall|x: int|
                0 <= x < t ==> (#[trigger] out@[x]) as nat == (limited_of(bits@[x]).0 * scale_value(
                    bits@,
                )) / limited_of(bits@[x]).1,
        decreases rats@.len() - t,
    {
        let q = rats[t];
        let prod: u128 = mul_u64(q.num, sc);
        if prod % (q.den as u128) != 0 {
            proof {
                assert(!scaled_exact(bits@)) by {
                    assert(0 <= t < bits@.len() && (limited_of(bits@[t as int]).0 * scale_value(
                        bits@,
                    )) % limited_of(bits@[t as int]).1 != 0);
                }
            }
            return Err(BalanceError::ScalingFailure { numerator: q.num, denominator: q.den });
        }
        let v: u128 = prod / (q.den as u128);
        if v > u64::MAX as u128 {
            proof {
                assert(!scaled_exact(bits@)) by {
                    assert(0 <= t < bits@.len() && (limited_of(bits@[t as int]).0 * scale_value(
                        bits@,
                    )) / limited_of(bits@[t as int]).1 > u64::MAX);
                }
            }
            return Err(BalanceError::ScalingFailure { numerator: q.num, denominator: q.den });
        }
        out.push(v as u64);
        t = t + 1;
    }
    out.push(sc);
    Ok(out)
}

/// Whether the integer coefficients conserve every element: the per
/// element totals of the two sides are compared for exact equality.
pub fn check_balance(reactants: &Vec<Reactant>, products: &Vec<Reactant>) -> (r: Result<
    bool,
    String,
>)
    ensures
        r matches Ok(b) && b == conserved(reactants@, products@),
{
    let r_els = collect_reactant_elements(reactants, Vec::new());
    let els = collect_reactant_elements(products, r_els);
    let mut i: usize = 0;
    while i < els.len()
        invariant
            i <= els@.len(),
            forall|e: Seq<char>|
                listed(els@, e) == (appears_r(reactants@, e) || appears_r(products@, e)),
            forall|k: int|
                0 <= k < i ==> side_total(reactants@, (#[trigger] els@[k])@) == side_total(
                    products@,
                    els@[k]@,
                ),
        decreases els@.len() - i,
    {
        let s1 = side_sum(reactants, &els[i]);
        let s2 = side_sum(products, &els[i]);
        if s1 != s2 {
            return Ok(false);
        }
        i = i + 1;
    }
    proof {
        assert forall|e: Seq<char>|
            side_total(reactants@, e) == side_total(products@, e) by {
            if listed(els@, e) {
                let k = choose|k: int| 0 <= k < els@.len() && els@[k]@ == e;
                assert(side_total(reactants@, els@[k]@) == side_total(products@, els@[k]@));
            } else {
                lemma_side_absent(reactants@, e);
                lemma_side_absent(products@, e);
            }
        }
    }
    Ok(true)
}

/// Append each element named on the side, keeping the list free of
/// repetitions.
fn collect_reactant_elements(rs: &Vec<Reactant>, es: Vec<Element>) -> (out: Vec<Element>)
    requires
        distinct_elems(es@),
    ensures
        distinct_elems(out@),
        forall|e: Seq<char>| (#[trigger] listed(out@, e)) == (listed(es@, e) || appears_r(rs@, e)),
{
    let mut out = es;
    let ghost es0 = out@;
    let mut i: usize = 0;
    while i < rs.len()
        invariant
            i <= rs@.len(),
            distinct_elems(out@),
            forall|e: Seq<char>|
                (#[trigger] listed(out@, e)) == (listed(es0, e) || (exists|x: int|
                    0 <= x < i && mentions(rs@[x].compound.atoms@, e))),
        decreases rs@.len() - i,
    {
        let ghost before = out@;
        out = add_atom_elements(out, &rs[i].compound.atoms);
        proof {
            assert forall|e: Seq<char>|
                (#[trigger] listed(out@, e)) == (listed(es0, e) || (exists|x: int|
                    0 <= x < i + 1 && mentions(rs@[x].compound.atoms@, e))) by {
                if listed(out@, e) && !listed(before, e) {
                    assert(mentions(rs@[i as int].compound.atoms@, e));
                }
                if exists|x: int| 0 <= x < i + 1 && mentions(rs@[x].compound.atoms@, e) {
                    let x = choose|x: int| 0 <= x < i + 1 && mentions(rs@[x].compound.atoms@, e);
                    if x < i {
                        assert(listed(before, e));
                    } else {
                        assert(mentions(rs@[i as int].compound.atoms@, e));
                    }
                }
            }
        }
        i = i + 1;
    }
    proof {
        assert forall|e: Seq<char>|
            (#[trigger] listed(out@, e)) == (listed(es0, e) || appears_r(rs@, e)) by {
            if appears_r(rs@, e) {
                assert(exists|x: int| 0 <= x < rs@.len() && mentions(rs@[x].compound.atoms@, e));
            }
            if exists|x: int| 0 <= x < rs@.len() && mentions(rs@[x].compound.atoms@, e) {
                assert(appears_r(rs@, e));
            }
        }
    }
    out
}

/// The atoms of one element on one side, as coefficient-weighted total.
fn side_sum(rs: &Vec<Reactant>, e: &Element) -> (s: u128)
    ensures
        s as nat == side_total(rs@, e@),
{
    let mut acc: u128 = 0;
    let mut i: usize = 0;
    proof {
        assert(rs@.skip(0) =~= rs@);
    }
    while i < rs.len()
        invariant
            i <= rs@.len(),
            side_total(rs@, e@) == acc as nat + side_total(rs@.skip(i as int), e@),
            acc as nat <= side_total(rs@, e@),
        decreases rs@.len() - i,
    {
        proof {
            lemma_side_total_bound(rs@, e@);
            lemma_side_total_bound(rs@.skip(i as int), e@);
            assert(rs@.skip(i as int)[0] == rs@[i as int]);
        }
        let c: u32 = rs[i].compound.count_of(e);
        let coeff: u32 = rs[i].molar_coefficient;
        let term: u128 = (coeff as u128) * (c as u128);
        proof {
            assert((coeff as int) * (c as int) <= 0xFFFFFFFFFFFFFFFF) by (nonlinear_arith)
                requires
                    0 <= coeff <= 0xFFFFFFFFu32,
                    0 <= c <= 0xFFFFFFFFu32,
            ;
            assert(rs@.skip(i as int).skip(1) =~= rs@.skip(i as int + 1));
        }
        acc = acc + term;
        i = i + 1;
    }
    proof {
        assert(rs@.skip(rs@.len() as int) =~= Seq::<Reactant>::empty());
    }
    acc
}

/// The side total never exceeds one maximal term per entry.
proof fn lemma_side_total_bound(side: Seq<Reactant>, e: Seq<char>)
    ensures
        side_total(side, e) <= side.len() * 0xFFFFFFFFFFFFFFFF,
    decreases side.len(),
{
    if side.len() == 0 {
    } else {
        lemma_side_total_bound(side.skip(1), e);
        lemma_count_in_bound(side[0].compound.atoms@, e);
        assert((side[0].molar_coefficient as nat) * count_in(side[0].compound.atoms@, e)
            <= 0xFFFFFFFFFFFFFFFF) by (nonlinear_arith)
            requires
                side[0].molar_coefficient <= 0xFFFFFFFFu32,
                count_in(side[0].compound.atoms@, e) <= 0xFFFFFFFFu32,
        ;
        assert(side.len() * 0xFFFFFFFFFFFFFFFF == (side.len() - 1) * 0xFFFFFFFFFFFFFFFF
            + 0xFFFFFFFFFFFFFFFF) by (nonlinear_arith)
            requires
                side.len() >= 1,
        ;
    }
}

proof fn lemma_count_in_bound(atoms: Seq<(Element, u32)>, e: Seq<char>)
    ensures
        count_in(atoms, e) <= 0xFFFFFFFFu32,
    decreases atoms.len(),
{
    if atoms.len() != 0 && atoms[0].0@ != e {
        lemma_count_in_bound(atoms.skip(1), e);
    }
}

/// A side mentioning an element nowhere carries none of its atoms.
proof fn lemma_side_absent(side: Seq<Reactant>, e: Seq<char>)
    requires
        !appears_r(side, e),
    ensures
        side_total(side, e) == 0,
    decreases side.len(),
{
    if side.len() != 0 {
        assert(!mentions(side[0].compound.atoms@, e));
        lemma_count_absent(side[0].compound.atoms@, e);
        assert(forall|i: int|
            0 <= i < side.skip(1).len() ==> side.skip(1)[i] == side[i + 1]);
        assert(!appears_r(side.skip(1), e));
        lemma_side_absent(side.skip(1), e);
        assert((side[0].molar_coefficient as nat) * 0 == 0) by (nonlinear_arith);
    }
}

proof fn lemma_count_absent(atoms: Seq<(Element, u32)>, e: Seq<char>)
    requires
        !mentions(atoms, e),
    ensures
        count_in(atoms, e) == 0,
    decreases atoms.len(),
{
    if atoms.len() != 0 {
        assert(atoms[0].0@ != e);
        assert(forall|i: int|
            0 <= i < atoms.skip(1).len() ==> atoms.skip(1)[i] == atoms[i + 1]);
        assert(!mentions(atoms.skip(1), e));
        lemma_count_absent(atoms.skip(1), e);
    }
}

/// Move each compound into a reactant carrying its coefficient, the side
/// starting at `offset` in the coefficient list.
fn attach_coefficients(cs: Vec<Compound>, coeffs: &Vec<u32>, offset: usize) -> (out: Vec<Reactant>)
    requires
        offset + cs@.len() <= coeffs@.len(),
        forall|k: int| offset <= k < offset + cs@.len() ==> (#[trigger] coeffs@[k]) >= 1,
    ensures
        out@.len() == cs@.len(),
        forall|i: int|
            0 <= i < cs@.len() ==> (#[trigger] out@[i]).compound == cs@[i]
                && out@[i].molar_coefficient == coeffs@[offset + i],
        all_positive(out@),
{
    let ghost orig = cs@;
    let mut rest = cs;
    let mut out: Vec<Reactant> = Vec::new();
    while rest.len() > 0
        invariant
            out@.len() + rest@.len() == orig.len(),
            rest@ == orig.skip(out@.len() as int),
            offset + orig.len() <= coeffs@.len(),
            forall|k: int| offset <= k < offset + orig.len() ==> (#[trigger] coeffs@[k]) >= 1,
            forall|i: int|
                0 <= i < out@.len() ==> (#[trigger] out@[i]).compound == orig[i]
                    && out@[i].molar_coefficient == coeffs@[offset + i],
        decreases rest@.len(),
    {
        let c = rest.remove(0);
        proof {
            assert(orig.skip(out@.len() as int)[0] == orig[out@.len() as int]);
        }
        let clen: usize = coeffs.len();
        proof {
            assert(offset + out@.len() < clen);
        }
        let coeff = coeffs[offset + out.len()];
        out.push(Reactant::of_compound(c, coeff));
        proof {
            assert(rest@ =~= orig.skip(out@.len() as int));
        }
    }
    out
}

/// The first half of balancing: reject element asymmetry, then lay out
/// the stoichiometric system as `(rows, cols, entries)`, row-major, one
/// row per element of the reaction and one column per compound, reagents
/// first. A caller solves the least-squares system for the first
/// `cols - 1` columns against the last and hands the solution to
/// `balance_from_solution`.
pub fn build_system(reagents: &Vec<Compound>, products: &Vec<Compound>) -> (r: Result<
    (usize, usize, Vec<u32>),
    BalanceError,
>)
    requires
        1 <= reagents@.len() + products@.len(),
        reagents@.len() + products@.len() <= usize::MAX,
    ensures
        (r matches Ok(_)) <==> (same_elements(reagents@, products@) && element_count(reagents@) * (
        reagents@.len() + products@.len()) <= usize::MAX),
        match r {
            Ok((rows, cols, m)) => {
                &&& same_elements(reagents@, products@)
                &&& rows == element_count(reagents@)
                &&& cols == reagents@.len() + products@.len()
                &&& m@.len() == rows * cols
                &&& exists|els: Seq<Element>|
                    {
                        &&& distinct_elems(els)
                        &&& els.len() == rows
                        &&& (forall|e: Seq<char>| listed(els, e) == appears(reagents@, e))
                        &&& (forall|i: int, j: int|
                            0 <= i < rows && 0 <= j < cols
                                ==> (#[trigger] m@[i * (cols as int) + j]) as nat == count_in(
                                col_compound(reagents@, products@, j).atoms@,
                                els[i]@,
                            ))
                    }
            },
            Err(e) => e matches BalanceError::UnbalanceableFormula { .. } || e
                matches BalanceError::SolverFailure { .. },
        },
        !same_elements(reagents@, products@) ==> (r matches Err(e) && e
            matches BalanceError::UnbalanceableFormula { .. }),
        r matches Err(e) ==> (e matches BalanceError::UnbalanceableFormula {
            missing_from_products: mp,
            missing_from_reagents: mr,
        } ==> {
            &&& !same_elements(reagents@, products@)
            &&& forall|e: Seq<char>|
                listed(mp@, e) == (appears(reagents@, e) && !appears(products@, e))
            &&& forall|e: Seq<char>|
                listed(mr@, e) == (appears(products@, e) && !appears(reagents@, e))
        }),
{
    let reagent_els = collect_elements(reagents, Vec::new());
    let product_els = collect_elements(products, Vec::new());
    let mp = missing_from(&reagent_els, &product_els);
    let mr = missing_from(&product_els, &reagent_els);
    if mp.len() > 0 || mr.len() > 0 {
        proof {
            if mp@.len() > 0 {
                assert(listed(mp@, mp@[0]@));
            } else {
                assert(listed(mr@, mr@[0]@));
            }
        }
        proof {
            if mp@.len() > 0 {
                assert(!same_elements(reagents@, products@)) by {
                    assert(appears(reagents@, mp@[0]@) && !appears(products@, mp@[0]@));
                }
            } else {
                assert(!same_elements(reagents@, products@)) by {
                    assert(appears(products@, mr@[0]@) && !appears(reagents@, mr@[0]@));
                }
            }
        }
        return Err(
            BalanceError::UnbalanceableFormula {
                missing_from_products: mp,
                missing_from_reagents: mr,
            },
        );
    }
    proof {
        assert forall|e: Seq<char>| appears(reagents@, e) == appears(products@, e) by {
            assert(!listed(mp@, e));
            assert(!listed(mr@, e));
        }
        assert(same_elements(reagents@, products@));
        assert forall|e: Seq<char>| listed(reagent_els@, e) == appears(reagents@, e) by {
            assert(!listed(Seq::<Element>::empty(), e));
        }
        lemma_element_list_length(reagent_els@, reagents@);
    }
    let rows = reagent_els.len();
    let cols = reagents.len() + products.len();
    if rows > usize::MAX / cols {
        proof {
            vstd::arithmetic::div_mod::lemma_fundamental_div_mod(usize::MAX as int, cols as int);
            assert(rows * cols > usize::MAX) by (nonlinear_arith)
                requires
                    rows >= (usize::MAX as int) / (cols as int) + 1,
                    usize::MAX as int == (cols as int) * ((usize::MAX as int) / (cols as int)) + (
                    usize::MAX as int) % (cols as int),
                    (usize::MAX as int) % (cols as int) < cols as int,
                    cols >= 1,
            ;
        }
        return Err(
            BalanceError::SolverFailure {
                detail: "the stoichiometric matrix would not fit machine bounds".to_owned(),
            },
        );
    }
    proof {
        vstd::arithmetic::div_mod::lemma_fundamental_div_mod(usize::MAX as int, cols as int);
        assert(rows * cols <= usize::MAX) by (nonlinear_arith)
            requires
                rows <= (usize::MAX as int) / (cols as int),
                usize::MAX as int == (cols as int) * ((usize::MAX as int) / (cols as int)) + (
                usize::MAX as int) % (cols as int),
                (usize::MAX as int) % (cols as int) >= 0,
                cols >= 1,
                rows >= 0,
        ;
    }
    let matrix = build_matrix(&reagent_els, reagents, products);
    proof {
        assert(distinct_elems(reagent_els@) && reagent_els@.len() == rows && (forall|e: Seq<char>|
            listed(reagent_els@, e) == appears(reagents@, e)));
    }
    Ok((rows, cols, matrix))
}

/// The integer coefficients of the solution are acceptable: each in
/// `1 ..= u32::MAX`, and together they conserve every element.
pub open spec fn coefficients_admissible(rs: Seq<Compound>, ps: Seq<Compound>, bs: Seq<u32>) -> bool {
    &&& forall|i: int|
        0 <= i < rs.len() + ps.len() ==> 1 <= #[trigger] coeff_at(bs, i) <= u32::MAX
    &&& conserved(attach_spec(rs, bs, 0), attach_spec(ps, bs, rs.len() as int))
}

/// The second half of balancing: from the solver's solution (one
/// single-precision bit pattern per compound but the last), reconstruct
/// bounded-denominator rationals, scale them to integers, and accept only
/// coefficients that are positive and conserve every element. The element
/// symmetry of the two sides is checked again first, so the rejection of
/// asymmetric reactions does not depend on the solution handed in.
pub fn balance_from_solution(reagents: Vec<Compound>, products: Vec<Compound>, bits: &Vec<u32>) -> (
    r: Result<BalancedReaction, BalanceError>)
    requires
        1 <= reagents@.len() + products@.len(),
        reagents@.len() + products@.len() <= usize::MAX,
        forall|i: int| 0 <= i < reagents@.len() ==> (#[trigger] reagents@[i]).wf(),
        forall|i: int| 0 <= i < products@.len() ==> (#[trigger] products@[i]).wf(),
    ensures
        match r {
            Ok(br) => {
                &&& br.reagents@.len() == reagents@.len()
                &&& br.products@.len() == products@.len()
                &&& forall|i: int|
                    0 <= i < reagents@.len() ==> (#[trigger] br.reagents@[i]).compound
                        == reagents@[i]
                &&& forall|i: int|
                    0 <= i < products@.len() ==> (#[trigger] br.products@[i]).compound
                        == products@[i]
                &&& all_positive(br.reagents@)
                &&& all_positive(br.products@)
                &&& conserved(br.reagents@, br.products@)
                &&& br.wf()
                &&& bits@.len() + 1 == reagents@.len() + products@.len()
                &&& all_fit(bits@)
                &&& scaled_exact(bits@)
                &&& forall|i: int|
                    0 <= i < reagents@.len() ==> (#[trigger] br.reagents@[i]).molar_coefficient
                        as nat == coeff_at(bits@, i)
                &&& forall|j: int|
                    0 <= j < products@.len() ==> (#[trigger] br.products@[j]).molar_coefficient
                        as nat == coeff_at(bits@, reagents@.len() + j)
            },
            Err(_) => true,
        },
        (r matches Ok(_)) <==> {
            &&& same_elements(reagents@, products@)
            &&& bits@.len() + 1 == reagents@.len() + products@.len()
            &&& all_fit(bits@)
            &&& scaled_exact(bits@)
            &&& coefficients_admissible(reagents@, products@, bits@)
        },
        r matches Err(e) ==> {
            &&& (e matches BalanceError::SolverFailure { .. } ==> same_elements(
                reagents@,
                products@,
            ) && bits@.len() + 1 != reagents@.len() + products@.len())
            &&& (e matches BalanceError::RationalConversionFailure { .. } ==> !all_fit(bits@))
            &&& (e matches BalanceError::ScalingFailure { .. } ==> all_fit(bits@)
                && !scaled_exact(bits@))
            &&& (e matches BalanceError::VerificationFailure ==> !coefficients_admissible(
                reagents@,
                products@,
                bits@,
            ))
        },
        !same_elements(reagents@, products@) ==> (r matches Err(e) && e
            matches BalanceError::UnbalanceableFormula { .. }),
        r matches Err(e) ==> (e matches BalanceError::UnbalanceableFormula {
            missing_from_products: mp,
            missing_from_reagents: mr,
        } ==> {
            &&& !same_elements(reagents@, products@)
            &&& forall|e: Seq<char>|
                listed(mp@, e) == (appears(reagents@, e) && !appears(products@, e))
            &&& forall|e: Seq<char>|
                listed(mr@, e) == (appears(products@, e) && !appears(reagents@, e))
        }),
{
    let reagent_els = collect_elements(&reagents, Vec::new());
    let product_els = collect_elements(&products, Vec::new());
    let mp = missing_from(&reagent_els, &product_els);
    let mr = missing_from(&product_els, &reagent_els);
    if mp.len() > 0 || mr.len() > 0 {
        proof {
            if mp@.len() > 0 {
                assert(listed(mp@, mp@[0]@));
            } else {
                assert(listed(mr@, mr@[0]@));
            }
        }
        return Err(
            BalanceError::UnbalanceableFormula {
                missing_from_products: mp,
                missing_from_reagents: mr,
            },
        );
    }
    proof {
        assert forall|e: Seq<char>| appears(reagents@, e) == appears(products@, e) by {
            assert(!listed(mp@, e));
            assert(!listed(mr@, e));
        }
        assert(same_elements(reagents@, products@));
    }
    let cols = reagents.len() + products.len();
    if bits.len() != cols - 1 {
        return Err(
            BalanceError::SolverFailure {
                detail: "the solution length does not match the compound count".to_owned(),
            },
        );
    }
    let coeffs = match coefficients_from_bits(bits) {
        Ok(cs) => cs,
        Err(e) => {
            return Err(e);
        },
    };
    proof {
        assert forall|t: int| 0 <= t < coeffs@.len() implies (#[trigger] coeffs@[t]) as nat
            == coeff_at(bits@, t) by {
            if t < bits@.len() {
            } else {
                assert(t == bits@.len());
            }
        }
    }
    let mut cu: Vec<u32> = Vec::new();
    let mut k: usize = 0;
    while k < coeffs.len()
        invariant
            k <= coeffs@.len(),
            cu@.len() == k,
            same_elements(reagents@, products@),
            coeffs@.len() == bits@.len() + 1,
            coeffs@.len() == reagents@.len() + products@.len(),
            forall|t: int|
                0 <= t < coeffs@.len() ==> (#[trigger] coeffs@[t]) as nat == coeff_at(bits@, t),
            forall|t: int| 0 <= t < k ==> 1 <= (#[trigger] cu@[t]),
            forall|t: int| 0 <= t < k ==> (#[trigger] cu@[t]) as nat == coeffs@[t] as nat,
        decreases coeffs@.len() - k,
    {
        let v = coeffs[k];
        if v < 1 || v > u32::MAX as u64 {
            proof {
                assert(coeff_at(bits@, k as int) < 1 || coeff_at(bits@, k as int) > u32::MAX);
                assert(!coefficients_admissible(reagents@, products@, bits@));
            }
            return Err(BalanceError::VerificationFailure);
        }
        cu.push(v as u32);
        k = k + 1;
    }
    let n_reagents = reagents.len();
    let rg = attach_coefficients(reagents, &cu, 0);
    let pd = attach_coefficients(products, &cu, n_reagents);
    proof {
        assert forall|i: int| 0 <= i < rg@.len() implies (#[trigger] rg@[i]) == attach_spec(
            reagents@,
            bits@,
            0,
        )[i] by {
            assert(rg@[i].molar_coefficient as nat == coeff_at(bits@, i));
        }
        assert(rg@ =~= attach_spec(reagents@, bits@, 0));
        assert forall|i: int| 0 <= i < pd@.len() implies (#[trigger] pd@[i]) == attach_spec(
            products@,
            bits@,
            reagents@.len() as int,
        )[i] by {
            assert(pd@[i].molar_coefficient as nat == coeff_at(bits@, reagents@.len() + i));
        }
        assert(pd@ =~= attach_spec(products@, bits@, reagents@.len() as int));
    }
    proof {
        assert forall|i: int|
            0 <= i < reagents@.len() + products@.len() implies 1 <= #[trigger] coeff_at(bits@, i)
            <= u32::MAX by {
            assert(coeffs@[i] as nat == coeff_at(bits@, i));
            assert(cu@[i] as nat == coeffs@[i] as nat);
            assert(cu@[i] >= 1);
        }
    }
    match check_balance(&rg, &pd) {
        Ok(true) => {
            proof {
                assert(coefficients_admissible(reagents@, products@, bits@));
            }
            Ok(BalancedReaction::new(rg, pd))
        },
        Ok(false) => {
            proof {
                assert(!conserved(
                    attach_spec(reagents@, bits@, 0),
                    attach_spec(products@, bits@, reagents@.len() as int),
                ));
                assert(!coefficients_admissible(reagents@, products@, bits@));
            }
            Err(BalanceError::VerificationFailure)
        },
        Err(_) => {
            proof {
                assert(false);
            }
            Err(BalanceError::VerificationFailure)
        },
    }
}

} // verus!

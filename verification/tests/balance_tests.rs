#![allow(non_snake_case)]

use stoich::model::{BalanceError, BalancedReaction, Compound, Element, Reactant};
use stoich::rational::{rational_from_bits, Ratio};
use stoich::solve::{balance_from_solution, build_system, check_balance, coefficients_from_bits};

fn elem(symbol: &str) -> Element {
    Element::new(symbol.to_string())
}

fn compound(formula: &str, atoms: &[(&str, u32)]) -> Compound {
    let entries: Vec<(Element, u32)> = atoms.iter().map(|(s, n)| (elem(s), *n)).collect();
    Compound::new(formula.to_string(), entries)
}

fn reactant(formula: &str, atoms: &[(&str, u32)], coefficient: u32) -> Reactant {
    Reactant::of_compound(compound(formula, atoms), coefficient)
}

fn solve_bits(rows: usize, cols: usize, entries: &[u32]) -> Result<Vec<u32>, String> {
    let data: Vec<f64> = entries.iter().map(|x| *x as f64).collect();
    let m = nalgebra::DMatrix::from_row_slice(rows, cols, &data);
    let (a, b) = m.columns_range_pair(0..cols - 1, cols - 1..);
    match a.clone_owned().svd(true, true).solve(&b.clone_owned(), 0.0) {
        Ok(x) => Ok(x.column(0).iter().map(|c| (*c as f32).to_bits()).collect()),
        Err(e) => Err(e.to_string()),
    }
}

fn balance(
    reagents: Vec<Compound>,
    products: Vec<Compound>,
) -> Result<BalancedReaction, BalanceError> {
    let (rows, cols, entries) = build_system(&reagents, &products)?;
    let bits = match solve_bits(rows, cols, &entries) {
        Ok(b) => b,
        Err(detail) => return Err(BalanceError::SolverFailure { detail }),
    };
    balance_from_solution(reagents, products, &bits)
}

#[test]
fn test_AlCl3() {
    let solution = balance(
        vec![compound("Al", &[("Al", 1)]), compound("Cl2", &[("Cl", 2)])],
        vec![compound("AlCl3", &[("Al", 1), ("Cl", 3)])],
    )
    .unwrap();
    let expected = BalancedReaction::new(
        vec![
            reactant("Al", &[("Al", 1)], 2),
            reactant("Cl2", &[("Cl", 2)], 3),
        ],
        vec![reactant("AlCl3", &[("Al", 1), ("Cl", 3)], 2)],
    );
    assert_eq!(solution, expected);
}

#[test]
// C6H5COOH + O2 = CO2 + H2O
fn test_CO2() {
    let solution = balance(
        vec![
            compound("C6H5COOH", &[("C", 7), ("H", 6), ("O", 2)]),
            compound("O2", &[("O", 2)]),
        ],
        vec![
            compound("CO2", &[("C", 1), ("O", 2)]),
            compound("H2O", &[("H", 2), ("O", 1)]),
        ],
    )
    .unwrap();
    let expected = BalancedReaction::new(
        vec![
            reactant("C6H5COOH", &[("C", 7), ("H", 6), ("O", 2)], 2),
            reactant("O2", &[("O", 2)], 15),
        ],
        vec![
            reactant("CO2", &[("C", 1), ("O", 2)], 14),
            reactant("H2O", &[("H", 2), ("O", 1)], 6),
        ],
    );
    assert_eq!(solution, expected);
}

#[test]
// KMnO4 + HCl = KCl + MnCl2 + H2O + Cl2
fn test_KMnO4() {
    let solution = balance(
        vec![
            compound("KMnO4", &[("K", 1), ("Mn", 1), ("O", 4)]),
            compound("HCl", &[("H", 1), ("Cl", 1)]),
        ],
        vec![
            compound("KCl", &[("K", 1), ("Cl", 1)]),
            compound("MnCl2", &[("Mn", 1), ("Cl", 2)]),
            compound("H2O", &[("H", 2), ("O", 1)]),
            compound("Cl2", &[("Cl", 2)]),
        ],
    )
    .unwrap();
    let expected = BalancedReaction::new(
        vec![
            reactant("KMnO4", &[("K", 1), ("Mn", 1), ("O", 4)], 2),
            reactant("HCl", &[("H", 1), ("Cl", 1)], 16),
        ],
        vec![
            reactant("KCl", &[("K", 1), ("Cl", 1)], 2),
            reactant("MnCl2", &[("Mn", 1), ("Cl", 2)], 2),
            reactant("H2O", &[("H", 2), ("O", 1)], 8),
            reactant("Cl2", &[("Cl", 2)], 5),
        ],
    );
    assert_eq!(solution, expected);
}

#[test]
fn test_H2O() {
    let solution = balance(
        vec![compound("H2", &[("H", 2)]), compound("O2", &[("O", 2)])],
        vec![compound("H2O", &[("H", 2), ("O", 1)])],
    )
    .unwrap();
    let expected = BalancedReaction::new(
        vec![reactant("H2", &[("H", 2)], 2), reactant("O2", &[("O", 2)], 1)],
        vec![reactant("H2O", &[("H", 2), ("O", 1)], 2)],
    );
    assert_eq!(solution, expected);
}

#[test]
fn test_missing_products() {
    // Fe3 + Cl5 = Cl2Fe5H2O
    let result = balance(
        vec![compound("Fe3", &[("Fe", 3)]), compound("Cl5", &[("Cl", 5)])],
        vec![compound(
            "Cl2Fe5H2O",
            &[("Cl", 2), ("Fe", 5), ("H", 2), ("O", 1)],
        )],
    );
    assert!(result.is_err(), "Balance solution was not Err: {:?}", result);
}

#[test]
fn test_impossible_reaction() {
    // H2O + NO2 = HNO3
    let result = balance(
        vec![
            compound("H2O", &[("H", 2), ("O", 1)]),
            compound("NO2", &[("N", 1), ("O", 2)]),
        ],
        vec![compound("HNO3", &[("H", 1), ("N", 1), ("O", 3)])],
    );
    assert!(result.is_err(), "Balance solution was not Err: {:?}", result);
}

#[test]
fn test_element_mismatch_reports_asymmetric_elements() {
    let result = build_system(
        &vec![compound("Fe3", &[("Fe", 3)]), compound("Cl5", &[("Cl", 5)])],
        &vec![compound(
            "Cl2Fe5H2O",
            &[("Cl", 2), ("Fe", 5), ("H", 2), ("O", 1)],
        )],
    );
    match result {
        Err(BalanceError::UnbalanceableFormula {
            missing_from_products,
            missing_from_reagents,
        }) => {
            assert!(missing_from_products.is_empty());
            assert_eq!(missing_from_reagents, vec![elem("H"), elem("O")]);
        }
        other => panic!("expected UnbalanceableFormula, got {:?}", other),
    }
}

#[test]
fn test_empty_side_rejected_as_unbalanceable() {
    // One empty side: the element sets differ, so the rejection comes
    // before any numeric work.
    let result = balance(
        vec![compound("H2O", &[("H", 2), ("O", 1)])],
        vec![],
    );
    match result {
        Err(BalanceError::UnbalanceableFormula {
            missing_from_products,
            missing_from_reagents,
        }) => {
            assert_eq!(missing_from_products, vec![elem("H"), elem("O")]);
            assert!(missing_from_reagents.is_empty());
        }
        other => panic!("expected UnbalanceableFormula, got {:?}", other),
    }
}

#[test]
fn test_limit_denominator_pi() {
    let r = stoich::rational::limit_denominator(
        Ratio {
            num: 314159,
            den: 100000,
        },
        100,
    );
    assert_eq!(r, Ratio { num: 311, den: 99 });
}

#[test]
fn test_limit_denominator_within_bound_is_identity() {
    let r = stoich::rational::limit_denominator(Ratio { num: 7, den: 3 }, 100);
    assert_eq!(r, Ratio { num: 7, den: 3 });
    let s = stoich::rational::limit_denominator(Ratio { num: 5, den: 1 }, 100);
    assert_eq!(s, Ratio { num: 5, den: 1 });
}

#[test]
fn test_rational_from_bits_exact_values() {
    assert_eq!(
        rational_from_bits(0.5f32.to_bits()),
        Ok(Ratio { num: 1, den: 2 })
    );
    assert_eq!(
        rational_from_bits(1.5f32.to_bits()),
        Ok(Ratio { num: 3, den: 2 })
    );
    assert_eq!(
        rational_from_bits(12.0f32.to_bits()),
        Ok(Ratio { num: 12, den: 1 })
    );
    assert_eq!(
        rational_from_bits((-0.25f32).to_bits()),
        Ok(Ratio { num: 1, den: 4 })
    );
    assert_eq!(
        rational_from_bits(0.0f32.to_bits()),
        Ok(Ratio { num: 0, den: 1 })
    );
}

#[test]
fn test_rational_from_bits_rejects_non_finite() {
    let bits = f32::NAN.to_bits();
    assert_eq!(
        rational_from_bits(bits),
        Err(BalanceError::RationalConversionFailure { bits })
    );
    let inf = f32::INFINITY.to_bits();
    assert_eq!(
        rational_from_bits(inf),
        Err(BalanceError::RationalConversionFailure { bits: inf })
    );
}

#[test]
fn test_gcd_lcm() {
    assert_eq!(stoich::arith::gcd(12, 18), 6);
    assert_eq!(stoich::arith::gcd(7, 0), 7);
    assert_eq!(stoich::arith::lcm(4, 6), 12);
    assert_eq!(stoich::arith::lcm(1, 1), 1);
}

#[test]
fn test_scale_is_largest_pairwise_lcm() {
    assert_eq!(stoich::arith::scale_of(&vec![2, 3, 5]), 15);
    assert_eq!(stoich::arith::scale_of(&vec![4, 6, 9]), 36);
    assert_eq!(stoich::arith::scale_of(&vec![7]), 7);
    assert_eq!(stoich::arith::scale_of(&vec![]), 1);
}

#[test]
fn test_coefficients_from_bits_scales_exactly() {
    let bits = vec![0.5f32.to_bits(), (1.0f32 / 3.0f32).to_bits()];
    assert_eq!(coefficients_from_bits(&bits), Ok(vec![3, 2, 6]));
}

#[test]
fn test_coefficients_from_bits_scaling_failure() {
    // Denominators 2, 3 and 5: the largest pairwise least common multiple
    // is 15, by which one half does not scale to an integer.
    let bits = vec![
        0.5f32.to_bits(),
        (1.0f32 / 3.0f32).to_bits(),
        0.2f32.to_bits(),
    ];
    assert_eq!(
        coefficients_from_bits(&bits),
        Err(BalanceError::ScalingFailure {
            numerator: 1,
            denominator: 2
        })
    );
}

#[test]
fn test_check_balance() {
    let balanced = check_balance(
        &vec![
            reactant("H2", &[("H", 2)], 2),
            reactant("O2", &[("O", 2)], 1),
        ],
        &vec![reactant("H2O", &[("H", 2), ("O", 1)], 2)],
    );
    assert_eq!(balanced, Ok(true));
    let unbalanced = check_balance(
        &vec![
            reactant("H2", &[("H", 2)], 1),
            reactant("O2", &[("O", 2)], 1),
        ],
        &vec![reactant("H2O", &[("H", 2), ("O", 1)], 2)],
    );
    assert_eq!(unbalanced, Ok(false));
}

#[test]
fn test_count_of() {
    let c = compound("KMnO4", &[("K", 1), ("Mn", 1), ("O", 4)]);
    assert_eq!(c.count_of(&elem("O")), 4);
    assert_eq!(c.count_of(&elem("Fe")), 0);
}

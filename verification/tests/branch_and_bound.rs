use bitcoin::blockdata::transaction::OutPoint;
use bitcoin::Txid;
use branch_and_bound::branch_and_bound::{BranchAndBound, Error, OutPointValue};
use rand::rngs::StdRng;
use rand::seq::SliceRandom;
use rand::{thread_rng, Rng, SeedableRng};

fn utxo(value: u64) -> OutPointValue {
    OutPointValue(
        OutPoint {
            txid: <Txid as bitcoin::hashes::Hash>::all_zeros(),
            vout: 0,
        },
        value,
    )
}

fn utxos(values: &[u64]) -> Vec<OutPointValue> {
    values.iter().map(|v| utxo(*v)).collect()
}

fn sum(selection: &[OutPointValue]) -> u64 {
    selection.iter().fold(0, |acc, x| acc + x.1)
}

fn generate_random_utxos(rng: &mut StdRng, utxos_number: i32) -> Vec<OutPointValue> {
    let mut optional_utxos = Vec::new();
    for _i in 0..utxos_number {
        optional_utxos.push(OutPointValue(
            OutPoint {
                txid: <Txid as bitcoin::hashes::Hash>::all_zeros(),
                vout: 0,
            },
            rng.gen_range(0..2000),
        ));
    }
    optional_utxos
}

fn sum_random_utxos(rng: &mut StdRng, optional_utxos: &mut Vec<OutPointValue>) -> u64 {
    let utxos_picked_len = rng.gen_range(2..optional_utxos.len() / 2);
    optional_utxos.shuffle(&mut thread_rng());
    optional_utxos[..utxos_picked_len]
        .iter()
        .fold(0, |acc, x| acc + x.1)
}

#[test]
fn test_exact_match() {
    // Exact matches, if they exist,
    // are always found when tries < 2^len(utxos)
    let seed = [0; 32];
    let mut rng: StdRng = SeedableRng::from_seed(seed);
    for _i in 0..200 {
        let mut optional_utxos = generate_random_utxos(&mut rng, 30);
        let mandatory_utxos = Vec::new();
        let sum_utxos_picked = sum_random_utxos(&mut rng, &mut optional_utxos);
        let b = BranchAndBound {
            spending_target: sum_utxos_picked,
            optional_utxos,
            mandatory_utxos,
            addressees_num: 1,
            estimated_fee_rate: 0,
            size_of_header: 0,
            size_per_output: 0,
            size_per_input: 0,
            tries: 100000,
        };
        assert_eq!(
            b.select_coins()
                .unwrap()
                .into_iter()
                .fold(0, |acc, x| acc + x.1),
            sum_utxos_picked
        );
    }
}

#[test]
fn test_maybe_exact_match() {
    let seed = [0; 32];
    let mut rng: StdRng = SeedableRng::from_seed(seed);
    for _i in 0..200 {
        let mut optional_utxos = generate_random_utxos(&mut rng, 1000);
        let mandatory_utxos = Vec::new();
        let spending_target = sum_random_utxos(&mut rng, &mut optional_utxos);
        let addressees_num = 3;
        let estimated_fee_rate = 20;
        let size_of_header = 10;
        let size_per_output = 10;
        let size_per_input = 5;
        let b = BranchAndBound {
            spending_target,
            optional_utxos,
            mandatory_utxos,
            addressees_num,
            estimated_fee_rate,
            size_of_header,
            size_per_output,
            size_per_input,
            tries: 100000,
        };
        let selected_coins = b.select_coins().unwrap();
        let target = spending_target
            + estimated_fee_rate
                * (addressees_num * size_per_output
                    + (selected_coins.len() as u64) * size_per_input
                    + size_of_header);
        assert!(selected_coins.into_iter().fold(0, |acc, x| acc + x.1) >= target);
    }
}

#[test]
#[should_panic]
fn test_insufficient_funds() {
    let seed = [0; 32];
    let mut rng: StdRng = SeedableRng::from_seed(seed);
    let optional_utxos = generate_random_utxos(&mut rng, 5);
    let mandatory_utxos = Vec::new();
    let sum_utxos_picked = optional_utxos.iter().fold(0, |acc, x| acc + x.1);
    let b = BranchAndBound {
        spending_target: sum_utxos_picked,
        optional_utxos: optional_utxos,
        mandatory_utxos,
        addressees_num: rng.gen_range(1..100),
        estimated_fee_rate: rng.gen_range(1..200),
        size_of_header: rng.gen_range(1..200),
        size_per_output: rng.gen_range(1..200),
        size_per_input: rng.gen_range(1..200),
        tries: 100000,
    };

    b.select_coins().unwrap();
}

#[test]
fn test_mandatory() {
    // Exact matches, if they exist,
    // are always found when tries < 2^len(utxos)
    let seed = [0; 32];
    let mut rng: StdRng = SeedableRng::from_seed(seed);
    for _i in 0..200 {
        let mut optional_utxos = generate_random_utxos(&mut rng, 30);
        let mandatory_utxos = generate_random_utxos(&mut rng, 3);
        let sum_utxos_picked = sum_random_utxos(&mut rng, &mut optional_utxos);
        let b = BranchAndBound {
            spending_target: sum_utxos_picked,
            optional_utxos,
            mandatory_utxos: mandatory_utxos.clone(),
            addressees_num: 1,
            estimated_fee_rate: 0,
            size_of_header: 0,
            size_per_output: 0,
            size_per_input: 0,
            tries: 100000,
        };
        let utxos_selected = b.select_coins().unwrap();

        for utxo in mandatory_utxos {
            assert!(utxos_selected.contains(&utxo));
        }

        assert!(utxos_selected.into_iter().fold(0, |acc, x| acc + x.1) >= sum_utxos_picked);
    }
}

#[test]
fn exact_subset_is_found_with_zero_fees() {
    // An exact subset exists ({9}) and the budget covers the whole tree,
    // so the result must sum to the target exactly.
    let b = BranchAndBound {
        spending_target: 9,
        mandatory_utxos: Vec::new(),
        optional_utxos: utxos(&[9, 4, 5, 16]),
        addressees_num: 1,
        estimated_fee_rate: 0,
        size_of_header: 0,
        size_per_output: 0,
        size_per_input: 0,
        tries: 100000,
    };
    let selected = b.select_coins().unwrap();
    assert_eq!(sum(&selected), 9);
}

#[test]
fn duplicate_values_exact_match() {
    // Equal values are distinct inputs: two of the three 5s make the
    // target exactly.
    let b = BranchAndBound {
        spending_target: 10,
        mandatory_utxos: Vec::new(),
        optional_utxos: utxos(&[5, 5, 5]),
        addressees_num: 1,
        estimated_fee_rate: 0,
        size_of_header: 0,
        size_per_output: 0,
        size_per_input: 0,
        tries: 100000,
    };
    let selected = b.select_coins().unwrap();
    assert_eq!(selected.len(), 2);
    assert_eq!(sum(&selected), 10);
}

#[test]
fn target_above_total_value_fails() {
    // The target exceeds the total available value: the only error kind
    // this selector knows is InsufficientFunds.
    let b = BranchAndBound {
        spending_target: 100,
        mandatory_utxos: Vec::new(),
        optional_utxos: utxos(&[1, 2]),
        addressees_num: 1,
        estimated_fee_rate: 0,
        size_of_header: 0,
        size_per_output: 0,
        size_per_input: 0,
        tries: 100000,
    };
    let result = b.select_coins();
    assert!(matches!(result, Err(Error::InsufficientFunds)));
}

#[test]
fn mandatory_inputs_always_selected() {
    // mandatory = [23], optional = [9, 4, 5, 16], target 26, zero fees:
    // the result must contain 23 and reach at least 26.
    let b = BranchAndBound {
        spending_target: 26,
        mandatory_utxos: utxos(&[23]),
        optional_utxos: utxos(&[9, 4, 5, 16]),
        addressees_num: 1,
        estimated_fee_rate: 0,
        size_of_header: 0,
        size_per_output: 0,
        size_per_input: 0,
        tries: 100000,
    };
    let selected = b.select_coins().unwrap();
    assert!(selected.iter().any(|x| x.1 == 23));
    assert!(sum(&selected) >= 26);
}

#[test]
fn cost_model_is_pure() {
    // The three cost functions depend only on the numeric parameters:
    // recomputing them yields identical values, and the values are exact.
    let b = BranchAndBound {
        spending_target: 1000,
        mandatory_utxos: Vec::new(),
        optional_utxos: utxos(&[1, 2, 3]),
        addressees_num: 3,
        estimated_fee_rate: 20,
        size_of_header: 10,
        size_per_output: 10,
        size_per_input: 5,
        tries: 1,
    };
    assert_eq!(b.input_cost(3), 5 * 20 * 3);
    assert_eq!(b.input_cost(3), b.input_cost(3));
    assert_eq!(b.output_cost(), 3 * 10 * 20);
    assert_eq!(b.output_cost(), b.output_cost());
    assert_eq!(b.header_cost(), 10 * 20);
    assert_eq!(b.header_cost(), b.header_cost());
    assert_eq!(b.input_cost(0), 0);
}

#[test]
fn zero_target_zero_inputs() {
    // The empty selection already matches a zero target exactly.
    let b = BranchAndBound {
        spending_target: 0,
        mandatory_utxos: Vec::new(),
        optional_utxos: Vec::new(),
        addressees_num: 0,
        estimated_fee_rate: 0,
        size_of_header: 0,
        size_per_output: 0,
        size_per_input: 0,
        tries: 1,
    };
    let selected = b.select_coins().unwrap();
    assert!(selected.is_empty());
}

#[test]
fn mandatory_overshoot_falls_back() {
    // The mandatory input alone far overshoots the match window, so the
    // exact search fails, and the fallback still returns it.
    let b = BranchAndBound {
        spending_target: 30,
        mandatory_utxos: utxos(&[100]),
        optional_utxos: Vec::new(),
        addressees_num: 1,
        estimated_fee_rate: 0,
        size_of_header: 0,
        size_per_output: 0,
        size_per_input: 0,
        tries: 100000,
    };
    let selected = b.select_coins().unwrap();
    assert_eq!(selected.len(), 1);
    assert_eq!(sum(&selected), 100);
}

#[test]
fn fallback_covers_fee_adjusted_target() {
    // No exact match inside the window: the single input overshoots it, so
    // the fallback takes it, and the feasibility bound holds: 100 >=
    // 50 + 10*1 + 1*10*1 + 1*2*1.
    let b = BranchAndBound {
        spending_target: 50,
        mandatory_utxos: Vec::new(),
        optional_utxos: utxos(&[100]),
        addressees_num: 1,
        estimated_fee_rate: 1,
        size_of_header: 10,
        size_per_output: 10,
        size_per_input: 2,
        tries: 100000,
    };
    let selected = b.select_coins().unwrap();
    assert_eq!(selected.len(), 1);
    assert_eq!(sum(&selected), 100);
    assert!(sum(&selected) >= 50 + 10 + 10 + 2);
}

use settlement::share::{commission_surcharge_share, surcharge_share};
use settlement::{calculate_balance_changes, Balance, Coin, DenomDefinition, MultiSend, Rate, SettlementError};

fn rate(x: f64) -> Rate {
    Rate { billionths: (x * 1e9).round() as u64 }
}

fn coin(denom: &str, amount: i128) -> Coin {
    Coin { denom: denom.to_string(), amount }
}

fn bal(address: &str, coins: Vec<Coin>) -> Balance {
    Balance { address: address.to_string(), coins }
}

fn def(denom: &str, issuer: &str, burn: f64, commission: f64) -> DenomDefinition {
    DenomDefinition {
        denom: denom.to_string(),
        issuer: issuer.to_string(),
        burn_rate: rate(burn),
        commission_rate: rate(commission),
    }
}

/// The change of `address` in `denom` in a result, zero where it is not listed.
fn change(result: &Vec<Balance>, address: &str, denom: &str) -> i128 {
    let mut found = 0;
    for b in result {
        if b.address == address {
            for c in &b.coins {
                if c.denom == denom {
                    found = c.amount;
                }
            }
        }
    }
    found
}

fn entries(result: &Vec<Balance>) -> usize {
    result.iter().map(|b| b.coins.len()).sum()
}

fn single_transfer(balance: i128) -> Result<Vec<Balance>, SettlementError> {
    calculate_balance_changes(
        vec![bal("account1", vec![coin("denom1", balance)])],
        vec![def("denom1", "issuer_A", 0.08, 0.12)],
        MultiSend {
            inputs: vec![bal("account1", vec![coin("denom1", 1000)])],
            outputs: vec![bal("account_recipient", vec![coin("denom1", 1000)])],
        },
    )
}

#[test]
fn single_input_pays_burn_and_commission() {
    let r = single_transfer(1_000_000).unwrap();
    assert_eq!(change(&r, "account_recipient", "denom1"), 1000);
    assert_eq!(change(&r, "issuer_A", "denom1"), 120);
    assert_eq!(change(&r, "account1", "denom1"), -1200);
    assert_eq!(r.len(), 3);
    assert_eq!(entries(&r), 3);
}

#[test]
fn balance_equal_to_debit_suffices() {
    let r = single_transfer(1200).unwrap();
    assert_eq!(change(&r, "account1", "denom1"), -1200);
    assert_eq!(change(&r, "issuer_A", "denom1"), 120);
}

#[test]
fn balance_one_short_is_rejected() {
    match single_transfer(1199) {
        Err(SettlementError::InsufficientBalance { address, denom }) => {
            assert_eq!(address, "account1");
            assert_eq!(denom, "denom1");
        }
        _ => panic!("expected an insufficient balance"),
    }
}

#[test]
fn mismatched_totals_are_rejected() {
    let r = calculate_balance_changes(
        vec![bal("account1", vec![coin("denom1", 1_000_000)])],
        vec![def("denom1", "issuer_A", 0.0, 0.0)],
        MultiSend {
            inputs: vec![bal("account1", vec![coin("denom1", 350)])],
            outputs: vec![bal("account_recipient", vec![coin("denom1", 450)])],
        },
    );
    assert!(matches!(r, Err(SettlementError::ConservationMismatch)));
}

#[test]
fn denom_on_one_side_only_is_a_mismatch() {
    let r = calculate_balance_changes(
        vec![bal("a", vec![coin("d1", 100), coin("d2", 100)])],
        vec![def("d1", "i", 0.0, 0.0), def("d2", "i", 0.0, 0.0)],
        MultiSend {
            inputs: vec![bal("a", vec![coin("d1", 10), coin("d2", 5)])],
            outputs: vec![bal("b", vec![coin("d1", 10)])],
        },
    );
    assert_eq!(r.unwrap_err().message(), "notice that input and output does not match");
}

#[test]
fn partial_issuer_participation() {
    let r = calculate_balance_changes(
        vec![
            bal("addr1", vec![coin("denom1", 1000), coin("denom2", 2000)]),
            bal("addr2", vec![coin("denom1", 500), coin("denom3", 3000)]),
        ],
        vec![
            def("denom1", "addr1", 0.1, 0.05),
            def("denom2", "addr1", 0.2, 0.1),
            def("denom3", "addr2", 0.15, 0.07),
        ],
        MultiSend {
            inputs: vec![
                bal("addr1", vec![coin("denom1", 30), coin("denom2", 50)]),
                bal("addr2", vec![coin("denom1", 20), coin("denom3", 100)]),
            ],
            outputs: vec![
                bal("addr1", vec![coin("denom1", 25), coin("denom2", 40)]),
                bal("addr2", vec![coin("denom1", 15), coin("denom3", 80)]),
                bal("addr3", vec![coin("denom1", 10), coin("denom2", 10), coin("denom3", 20)]),
            ],
        },
    )
    .unwrap();
    assert_eq!(change(&r, "addr1", "denom1"), -4);
    assert_eq!(change(&r, "addr1", "denom2"), -10);
    assert_eq!(change(&r, "addr2", "denom1"), -8);
    assert_eq!(change(&r, "addr2", "denom3"), -20);
    assert_eq!(change(&r, "addr3", "denom1"), 10);
    assert_eq!(change(&r, "addr3", "denom2"), 10);
    assert_eq!(change(&r, "addr3", "denom3"), 20);
    assert_eq!(r.len(), 3);
    assert_eq!(entries(&r), 7);
}

#[test]
fn sender_without_balance_is_rejected() {
    let r = calculate_balance_changes(
        vec![bal("someone_else", vec![coin("denom1", 1000)])],
        vec![def("denom1", "issuer_A", 0.0, 0.0)],
        MultiSend {
            inputs: vec![bal("account1", vec![coin("denom1", 10)])],
            outputs: vec![bal("account2", vec![coin("denom1", 10)])],
        },
    );
    let e = r.unwrap_err();
    assert_eq!(e.message(), "No original balance specified for account1");
    assert!(matches!(e, SettlementError::MissingBalance { address } if address == "account1"));
}

#[test]
fn undefined_denomination_is_rejected() {
    let r = calculate_balance_changes(
        vec![bal("a", vec![coin("d1", 100), coin("d2", 100)])],
        vec![def("d1", "i", 0.0, 0.0)],
        MultiSend {
            inputs: vec![bal("a", vec![coin("d1", 10), coin("d2", 5)])],
            outputs: vec![bal("b", vec![coin("d1", 10), coin("d2", 5)])],
        },
    );
    let e = r.unwrap_err();
    assert_eq!(e.message(), "no definition for denomination d2");
    assert!(matches!(e, SettlementError::UnknownDenomination { denom } if denom == "d2"));
}

#[test]
fn undefined_denomination_on_output_side_only() {
    let r = calculate_balance_changes(
        vec![bal("a", vec![coin("d1", 100)])],
        vec![def("d1", "i", 0.0, 0.0)],
        MultiSend {
            inputs: vec![bal("a", vec![coin("d1", 10)])],
            outputs: vec![bal("b", vec![coin("d1", 10), coin("ghost", 0)])],
        },
    );
    assert!(matches!(r, Err(SettlementError::UnknownDenomination { denom }) if denom == "ghost"));
}

#[test]
fn all_zero_transfer_gives_no_changes() {
    let r = calculate_balance_changes(
        vec![bal("a", vec![coin("d1", 0)]), bal("b", vec![coin("d2", 0)])],
        vec![def("d1", "i", 1.0, 1.0), def("d2", "b", 0.5, 0.25)],
        MultiSend {
            inputs: vec![bal("a", vec![coin("d1", 0)]), bal("b", vec![coin("d2", 0)])],
            outputs: vec![bal("c", vec![coin("d1", 0), coin("d2", 0)])],
        },
    )
    .unwrap();
    assert!(r.is_empty());
}

#[test]
fn shares_round_up_per_sender() {
    // Base is min(60 + 90, 50 + 25) = 75; burn is 10% of it, spread over 150.
    let r = calculate_balance_changes(
        vec![
            bal("s1", vec![coin("d", 1000)]),
            bal("s2", vec![coin("d", 1000)]),
            bal("iss", vec![coin("d", 1000)]),
        ],
        vec![def("d", "iss", 0.1, 0.0)],
        MultiSend {
            inputs: vec![
                bal("s1", vec![coin("d", 60)]),
                bal("s2", vec![coin("d", 90)]),
                bal("iss", vec![coin("d", 25)]),
            ],
            outputs: vec![
                bal("r1", vec![coin("d", 50)]),
                bal("iss", vec![coin("d", 100)]),
                bal("r2", vec![coin("d", 25)]),
            ],
        },
    )
    .unwrap();
    assert_eq!(change(&r, "s1", "d"), -63);
    assert_eq!(change(&r, "s2", "d"), -95);
    assert_eq!(change(&r, "iss", "d"), 75);
    assert_eq!(change(&r, "r1", "d"), 50);
    assert_eq!(change(&r, "r2", "d"), 25);
    // Debits exceed credits by the burn: 3 + 5.
    let net: i128 = r.iter().flat_map(|b| b.coins.iter()).map(|c| c.amount).sum();
    assert_eq!(net, -8);
}

#[test]
fn same_sender_twice_accumulates() {
    let r = calculate_balance_changes(
        vec![bal("a", vec![coin("d", 100)])],
        vec![def("d", "i", 0.1, 0.1)],
        MultiSend {
            inputs: vec![bal("a", vec![coin("d", 10)]), bal("a", vec![coin("d", 20)])],
            outputs: vec![bal("b", vec![coin("d", 30)])],
        },
    )
    .unwrap();
    // Each coin pays ceil(30 * 0.1 * x / 30) twice: 1 + 1 on 10, 2 + 2 on 20.
    assert_eq!(change(&r, "a", "d"), -36);
    assert_eq!(change(&r, "i", "d"), 3);
    assert_eq!(change(&r, "b", "d"), 30);
}

#[test]
fn issuer_pays_no_surcharge() {
    let r = calculate_balance_changes(
        vec![bal("iss", vec![coin("d", 100)])],
        vec![def("d", "iss", 0.5, 0.5)],
        MultiSend {
            inputs: vec![bal("iss", vec![coin("d", 40)])],
            outputs: vec![bal("b", vec![coin("d", 40)])],
        },
    )
    .unwrap();
    assert_eq!(change(&r, "iss", "d"), -40);
    assert_eq!(change(&r, "b", "d"), 40);
    assert_eq!(entries(&r), 2);
}

#[test]
fn transfer_to_issuer_carries_no_surcharge() {
    let r = calculate_balance_changes(
        vec![bal("a", vec![coin("d", 100)])],
        vec![def("d", "iss", 0.5, 0.5)],
        MultiSend {
            inputs: vec![bal("a", vec![coin("d", 40)])],
            outputs: vec![bal("iss", vec![coin("d", 40)])],
        },
    )
    .unwrap();
    assert_eq!(change(&r, "a", "d"), -40);
    assert_eq!(change(&r, "iss", "d"), 40);
}

#[test]
fn missing_denomination_entry_is_rejected() {
    let zero = calculate_balance_changes(
        vec![bal("a", vec![coin("other", 5)])],
        vec![def("d", "i", 0.5, 0.5)],
        MultiSend {
            inputs: vec![bal("a", vec![coin("d", 0)])],
            outputs: vec![bal("b", vec![coin("d", 0)])],
        },
    );
    assert!(matches!(
        zero,
        Err(SettlementError::InsufficientBalance { address, denom }) if address == "a" && denom == "d"
    ));
    let short = calculate_balance_changes(
        vec![bal("account1", vec![])],
        vec![def("denom1", "i", 0.0, 0.0)],
        MultiSend {
            inputs: vec![bal("account1", vec![coin("denom1", 350)])],
            outputs: vec![bal("b", vec![coin("denom1", 350)])],
        },
    );
    assert_eq!(
        short.unwrap_err().message(),
        "notice that account1 does not have enough balance for denom1"
    );
}

#[test]
fn first_failing_input_decides() {
    let r = calculate_balance_changes(
        vec![bal("a", vec![coin("d", 5)])],
        vec![def("d", "i", 0.0, 0.0)],
        MultiSend {
            inputs: vec![bal("a", vec![coin("d", 10)]), bal("nobody", vec![coin("d", 10)])],
            outputs: vec![bal("b", vec![coin("d", 20)])],
        },
    );
    assert!(matches!(r, Err(SettlementError::InsufficientBalance { address, .. }) if address == "a"));
}

#[test]
fn exact_multiple_commission_is_not_rounded_up() {
    // 2600 * 0.07 * 1100 / 2600 is exactly 77.
    assert_eq!(surcharge_share(2600, 1100, 2600, rate(0.07)), 77);
    assert_eq!(surcharge_share(2600, 1500, 2600, rate(0.07)), 105);
    assert_eq!(surcharge_share(2600, 1100, 2600, rate(0.15)), 165);
}

#[test]
fn share_formula_values() {
    assert_eq!(surcharge_share(75, 60, 150, rate(0.1)), 3);
    assert_eq!(surcharge_share(75, 90, 150, rate(0.1)), 5);
    assert_eq!(surcharge_share(0, 90, 150, rate(0.1)), 0);
    assert_eq!(surcharge_share(0, 0, 0, rate(0.5)), 0);
    assert_eq!(surcharge_share(1, 1, 3, rate(1.0)), 1);
    assert_eq!(surcharge_share(1000, 1000, 1000, rate(210000.0)), 210_000_000);
    let big: i128 = 9_223_372_036_854_775_807;
    assert_eq!(surcharge_share(big, big, big, rate(0.5)), 4_611_686_018_427_387_904);
}

#[test]
fn issuer_sending_to_itself_changes_nothing() {
    let run = |extra: i128| {
        let mut inputs = vec![bal("account1", vec![coin("denom1", 1000)])];
        let mut outputs = vec![bal("account_recipient", vec![coin("denom1", 1000)])];
        let mut balances = vec![bal("account1", vec![coin("denom1", 1_000_000)])];
        if extra > 0 {
            inputs.push(bal("issuer_A", vec![coin("denom1", extra)]));
            outputs.push(bal("issuer_A", vec![coin("denom1", extra)]));
            balances.push(bal("issuer_A", vec![coin("denom1", extra)]));
        }
        calculate_balance_changes(balances, vec![def("denom1", "issuer_A", 0.08, 0.12)], MultiSend { inputs, outputs })
            .unwrap()
    };
    let plain = run(0);
    let with_round_trip = run(500);
    for (a, d) in [("account1", "denom1"), ("account_recipient", "denom1"), ("issuer_A", "denom1")] {
        assert_eq!(change(&plain, a, d), change(&with_round_trip, a, d));
    }
    assert_eq!(entries(&plain), entries(&with_round_trip));
    assert_eq!(change(&with_round_trip, "issuer_A", "denom1"), 120);
}

#[test]
fn surcharges_only_take_from_senders() {
    let r = calculate_balance_changes(
        vec![bal("a", vec![coin("d", 1000)]), bal("iss", vec![coin("d", 1000)])],
        vec![def("d", "iss", 0.3, 0.2)],
        MultiSend {
            inputs: vec![bal("a", vec![coin("d", 100)]), bal("iss", vec![coin("d", 50)])],
            outputs: vec![bal("b", vec![coin("d", 120)]), bal("iss", vec![coin("d", 30)])],
        },
    )
    .unwrap();
    // Base min(100, 120) = 100: burn 30, commission 20.
    assert_eq!(change(&r, "a", "d"), -150);
    assert!(change(&r, "a", "d") <= 0 - 100);
    assert_eq!(change(&r, "iss", "d"), 30 - 50 + 20);
    assert!(change(&r, "iss", "d") >= 30 - 50);
    let net: i128 = r.iter().flat_map(|b| b.coins.iter()).map(|c| c.amount).sum();
    assert_eq!(net, -30);
}

#[test]
fn commission_drops_shares_just_above_a_whole_number() {
    // 1 * 1e-9 * 1 / 11 is about 9.1e-11, within 1e-10 of zero.
    let one_billionth = Rate { billionths: 1 };
    assert_eq!(surcharge_share(1, 1, 11, one_billionth), 1);
    assert_eq!(commission_surcharge_share(1, 1, 11, one_billionth), 0);
    assert_eq!(commission_surcharge_share(1, 10, 11, one_billionth), 1);
    // Exact multiples are not rounded up, and plain fractions still round up.
    assert_eq!(commission_surcharge_share(2600, 1100, 2600, rate(0.07)), 77);
    assert_eq!(commission_surcharge_share(1000, 1000, 1000, rate(0.12)), 120);
    assert_eq!(commission_surcharge_share(75, 90, 150, rate(0.1)), 5);
    assert_eq!(commission_surcharge_share(0, 0, 0, rate(0.5)), 0);
}

#[test]
fn commission_correction_applies_in_settlement() {
    let r = calculate_balance_changes(
        vec![bal("a", vec![coin("d", 100)]), bal("b", vec![coin("d", 100)])],
        vec![DenomDefinition {
            denom: "d".to_string(),
            issuer: "i".to_string(),
            burn_rate: Rate { billionths: 0 },
            commission_rate: Rate { billionths: 1 },
        }],
        MultiSend {
            inputs: vec![bal("a", vec![coin("d", 1)]), bal("b", vec![coin("d", 10)])],
            outputs: vec![bal("c", vec![coin("d", 1)]), bal("i", vec![coin("d", 10)])],
        },
    )
    .unwrap();
    assert_eq!(change(&r, "a", "d"), -1);
    assert_eq!(change(&r, "b", "d"), -11);
    assert_eq!(change(&r, "c", "d"), 1);
    assert_eq!(change(&r, "i", "d"), 11);
}

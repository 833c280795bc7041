use settlement::{calculate_balance_changes, Balance, Coin, DenomDefinition, MultiSend, Rate};

/// One transfer with the balances and definitions it runs against, and what it should give.
struct TestCase {
    original_balances: Vec<Balance>,
    definitions: Vec<DenomDefinition>,
    multi_send_tx: MultiSend,
    result: Result<Vec<Balance>, String>,
}

/// A group of related cases under one name.
struct TestCases {
    case_name: String,
    cases: Vec<TestCase>,
}

/// A rate given as a fraction, in billionths.
fn rate(x: f64) -> Rate {
    Rate { billionths: (x * 1e9).round() as u64 }
}

/// Compares two lists of balances, ignoring the order of addresses and of coins.
fn compare_balances(expected: &Vec<Balance>, result: &Vec<Balance>) -> bool {
    if expected.len() != result.len() {
        return false;
    }
    let mut sorted_expected = expected.clone();
    sorted_expected.sort_by(|a, b| a.address.cmp(&b.address));
    let mut sorted_result = result.clone();
    sorted_result.sort_by(|a, b| a.address.cmp(&b.address));
    for i in 0..sorted_expected.len() {
        if sorted_expected[i].address != sorted_result[i].address {
            return false;
        }
        let mut expected_coins = sorted_expected[i].coins.clone();
        expected_coins.sort_by(|a, b| a.denom.cmp(&b.denom));
        let mut result_coins = sorted_result[i].coins.clone();
        result_coins.sort_by(|a, b| a.denom.cmp(&b.denom));
        if expected_coins.len() != result_coins.len() {
            return false;
        }
        for j in 0..expected_coins.len() {
            if expected_coins[j].denom != result_coins[j].denom
                || expected_coins[j].amount != result_coins[j].amount
            {
                return false;
            }
        }
    }
    true
}

fn run(test_case: TestCase) {
    let result = calculate_balance_changes(
        test_case.original_balances,
        test_case.definitions,
        test_case.multi_send_tx,
    );
    match test_case.result {
        Ok(expected) => {
            assert!(compare_balances(&expected, &result.unwrap()));
        }
        Err(expected_message) => {
            assert_eq!(expected_message, result.unwrap_err().message());
        }
    }
}

#[test]
fn test_all() {
    let vec_test_cases: Vec<TestCases> = vec![
        TestCases {
            case_name: "one input, one output, one denom".to_string(),
            cases: vec![TestCase {
                original_balances: vec![Balance {
                    address: "account1".to_string(),
                    coins: vec![Coin {
                        denom: "denom1".to_string(),
                        amount: 1000_000,
                    }],
                }],
                definitions: vec![DenomDefinition {
                    denom: "denom1".to_string(),
                    issuer: "issuer_account_A".to_string(),
                    burn_rate: rate(0.08),
                    commission_rate: rate(0.12),
                }],
                multi_send_tx: MultiSend {
                    inputs: vec![Balance {
                        address: "account1".to_string(),
                        coins: vec![Coin {
                            denom: "denom1".to_string(),
                            amount: 1000,
                        }],
                    }],
                    outputs: vec![Balance {
                        address: "account_recipient".to_string(),
                        coins: vec![Coin {
                            denom: "denom1".to_string(),
                            amount: 1000,
                        }],
                    }],
                },
                result: Ok(vec![
                    Balance {
                        address: "account_recipient".to_string(),
                        coins: vec![Coin {
                            denom: "denom1".to_string(),
                            amount: 1000,
                        }],
                    },
                    Balance {
                        address: "issuer_account_A".to_string(),
                        coins: vec![Coin {
                            denom: "denom1".to_string(),
                            amount: 120,
                        }],
                    },
                    Balance {
                        address: "account1".to_string(),
                        coins: vec![Coin {
                            denom: "denom1".to_string(),
                            amount: -1200,
                        }],
                    },
                ]),
            }],
        },
        TestCases {
            case_name: "no issuer on sender or receiver".to_string(),
            cases: vec![TestCase {
                original_balances: vec![
                    Balance {
                        address: "account1".to_string(),
                        coins: vec![Coin {
                            denom: "denom1".to_string(),
                            amount: 1000_000,
                        }],
                    },
                    Balance {
                        address: "account2".to_string(),
                        coins: vec![Coin {
                            denom: "denom2".to_string(),
                            amount: 1000_000,
                        }],
                    },
                ],
                definitions: vec![
                    DenomDefinition {
                        denom: "denom1".to_string(),
                        issuer: "issuer_account_A".to_string(),
                        burn_rate: rate(0.08),
                        commission_rate: rate(0.12),
                    },
                    DenomDefinition {
                        denom: "denom2".to_string(),
                        issuer: "issuer_account_A".to_string(),
                        burn_rate: rate(1.0),
                        commission_rate: rate(0.0),
                    },
                ],
                multi_send_tx: MultiSend {
                    inputs: vec![
                        Balance {
                            address: "account1".to_string(),
                            coins: vec![Coin {
                                denom: "denom1".to_string(),
                                amount: 1000,
                            }],
                        },
                        Balance {
                            address: "account2".to_string(),
                            coins: vec![Coin {
                                denom: "denom2".to_string(),
                                amount: 1000,
                            }],
                        },
                    ],
                    outputs: vec![Balance {
                        address: "account_recipient".to_string(),
                        coins: vec![
                            Coin {
                                denom: "denom1".to_string(),
                                amount: 1000,
                            },
                            Coin {
                                denom: "denom2".to_string(),
                                amount: 1000,
                            },
                        ],
                    }],
                },
                result: Ok(vec![
                    Balance {
                        address: "account_recipient".to_string(),
                        coins: vec![
                            Coin {
                                denom: "denom1".to_string(),
                                amount: 1000,
                            },
                            Coin {
                                denom: "denom2".to_string(),
                                amount: 1000,
                            },
                        ],
                    },
                    Balance {
                        address: "issuer_account_A".to_string(),
                        coins: vec![Coin {
                            denom: "denom1".to_string(),
                            amount: 120,
                        }],
                    },
                    Balance {
                        address: "account1".to_string(),
                        coins: vec![Coin {
                            denom: "denom1".to_string(),
                            amount: -1200,
                        }],
                    },
                    Balance {
                        address: "account2".to_string(),
                        coins: vec![Coin {
                            denom: "denom2".to_string(),
                            amount: -2000,
                        }],
                    },
                ]),
            }],
        },
        TestCases {
            case_name: "multi input, multi output, multi denom".to_string(),
            cases: vec![TestCase {
                original_balances: vec![
                    Balance {
                        address: "addr1".to_string(),
                        coins: vec![
                            Coin {
                                denom: "denom1".to_string(),
                                amount: 1000,
                            },
                            Coin {
                                denom: "denom2".to_string(),
                                amount: 2000,
                            },
                        ],
                    },
                    Balance {
                        address: "addr2".to_string(),
                        coins: vec![
                            Coin {
                                denom: "denom1".to_string(),
                                amount: 500,
                            },
                            Coin {
                                denom: "denom3".to_string(),
                                amount: 3000,
                            },
                        ],
                    },
                ],
                definitions: vec![
                    DenomDefinition {
                        denom: "denom1".to_string(),
                        issuer: "addr1".to_string(),
                        burn_rate: rate(0.1),
                        commission_rate: rate(0.05),
                    },
                    DenomDefinition {
                        denom: "denom2".to_string(),
                        issuer: "addr1".to_string(),
                        burn_rate: rate(0.2),
                        commission_rate: rate(0.1),
                    },
                    DenomDefinition {
                        denom: "denom3".to_string(),
                        issuer: "addr2".to_string(),
                        burn_rate: rate(0.15),
                        commission_rate: rate(0.07),
                    },
                ],
                multi_send_tx: MultiSend {
                    inputs: vec![
                        Balance {
                            address: "addr1".to_string(),
                            coins: vec![
                                Coin {
                                    denom: "denom1".to_string(),
                                    amount: 30,
                                },
                                Coin {
                                    denom: "denom2".to_string(),
                                    amount: 50,
                                },
                            ],
                        },
                        Balance {
                            address: "addr2".to_string(),
                            coins: vec![
                                Coin {
                                    denom: "denom1".to_string(),
                                    amount: 20,
                                },
                                Coin {
                                    denom: "denom3".to_string(),
                                    amount: 100,
                                },
                            ],
                        },
                    ],
                    outputs: vec![
                        Balance {
                            address: "addr1".to_string(),
                            coins: vec![
                                Coin {
                                    denom: "denom1".to_string(),
                                    amount: 25,
                                },
                                Coin {
                                    denom: "denom2".to_string(),
                                    amount: 40,
                                },
                            ],
                        },
                        Balance {
                            address: "addr2".to_string(),
                            coins: vec![
                                Coin {
                                    denom: "denom1".to_string(),
                                    amount: 15,
                                },
                                Coin {
                                    denom: "denom3".to_string(),
                                    amount: 80,
                                },
                            ],
                        },
                        Balance {
                            address: "addr3".to_string(),
                            coins: vec![
                                Coin {
                                    denom: "denom1".to_string(),
                                    amount: 10,
                                },
                                Coin {
                                    denom: "denom2".to_string(),
                                    amount: 10,
                                },
                                Coin {
                                    denom: "denom3".to_string(),
                                    amount: 20,
                                },
                            ],
                        },
                    ],
                },
                result: Ok(vec![
                    Balance {
                        address: "addr1".to_string(),
                        coins: vec![
                            Coin {
                                denom: "denom1".to_string(),
                                amount: -4,
                            },
                            Coin {
                                denom: "denom2".to_string(),
                                amount: -10,
                            },
                        ],
                    },
                    Balance {
                        address: "addr2".to_string(),
                        coins: vec![
                            Coin {
                                denom: "denom1".to_string(),
                                amount: -8,
                            },
                            Coin {
                                denom: "denom3".to_string(),
                                amount: -20,
                            },
                        ],
                    },
                    Balance {
                        address: "addr3".to_string(),
                        coins: vec![
                            Coin {
                                denom: "denom1".to_string(),
                                amount: 10,
                            },
                            Coin {
                                denom: "denom2".to_string(),
                                amount: 10,
                            },
                            Coin {
                                denom: "denom3".to_string(),
                                amount: 20,
                            },
                        ],
                    },
                ]),
            }],
        },
        TestCases {
            case_name: "zero input".to_string(),
            cases: vec![TestCase {
                original_balances: vec![Balance {
                    address: "account1".to_string(),
                    coins: vec![Coin {
                        denom: "denom1".to_string(),
                        amount: 0,
                    }],
                }],
                definitions: vec![DenomDefinition {
                    denom: "denom1".to_string(),
                    issuer: "issuer_account_A".to_string(),
                    burn_rate: rate(210000.0),
                    commission_rate: rate(0.12),
                }],
                multi_send_tx: MultiSend {
                    inputs: vec![Balance {
                        address: "account1".to_string(),
                        coins: vec![Coin {
                            denom: "denom1".to_string(),
                            amount: 0,
                        }],
                    }],
                    outputs: vec![Balance {
                        address: "account_recipient".to_string(),
                        coins: vec![Coin {
                            denom: "denom1".to_string(),
                            amount: 0,
                        }],
                    }],
                },
                result: Ok(vec![]),
            }],
        },
        TestCases {
            case_name: "input output same".to_string(),
            cases: vec![TestCase {
                original_balances: vec![
                    Balance {
                        address: "addr1".to_string(),
                        coins: vec![
                            Coin {
                                denom: "denom1".to_string(),
                                amount: 3000,
                            },
                            Coin {
                                denom: "denom2".to_string(),
                                amount: 2000,
                            },
                            Coin {
                                denom: "denom3".to_string(),
                                amount: 2000,
                            },
                        ],
                    },
                    Balance {
                        address: "addr2".to_string(),
                        coins: vec![
                            Coin {
                                denom: "denom1".to_string(),
                                amount: 5000,
                            },
                            Coin {
                                denom: "denom3".to_string(),
                                amount: 3000,
                            },
                        ],
                    },
                ],
                definitions: vec![
                    DenomDefinition {
                        denom: "denom1".to_string(),
                        issuer: "addr1".to_string(),
                        burn_rate: rate(0.1),
                        commission_rate: rate(0.05),
                    },
                    DenomDefinition {
                        denom: "denom2".to_string(),
                        issuer: "addr2".to_string(),
                        burn_rate: rate(0.2),
                        commission_rate: rate(0.1),
                    },
                    DenomDefinition {
                        denom: "denom3".to_string(),
                        issuer: "addr3".to_string(),
                        burn_rate: rate(0.15),
                        commission_rate: rate(0.07),
                    },
                ],
                multi_send_tx: MultiSend {
                    inputs: vec![
                        Balance {
                            address: "addr1".to_string(),
                            coins: vec![
                                Coin {
                                    denom: "denom2".to_string(),
                                    amount: 1000,
                                },
                                Coin {
                                    denom: "denom3".to_string(),
                                    amount: 1100,
                                },
                            ],
                        },
                        Balance {
                            address: "addr2".to_string(),
                            coins: vec![
                                Coin {
                                    denom: "denom1".to_string(),
                                    amount: 1200,
                                },
                                Coin {
                                    denom: "denom3".to_string(),
                                    amount: 1500,
                                },
                            ],
                        },
                    ],
                    outputs: vec![
                        Balance {
                            address: "addr1".to_string(),
                            coins: vec![
                                Coin {
                                    denom: "denom2".to_string(),
                                    amount: 1000,
                                },
                                Coin {
                                    denom: "denom3".to_string(),
                                    amount: 1100,
                                },
                            ],
                        },
                        Balance {
                            address: "addr2".to_string(),
                            coins: vec![
                                Coin {
                                    denom: "denom1".to_string(),
                                    amount: 1200,
                                },
                                Coin {
                                    denom: "denom3".to_string(),
                                    amount: 1500,
                                },
                            ],
                        },
                    ],
                },
                result: Ok(vec![
                    Balance {
                        address: "addr1".to_string(),
                        coins: vec![
                            Coin {
                                denom: "denom1".to_string(),
                                amount: 60,
                            },
                            Coin {
                                denom: "denom2".to_string(),
                                amount: -300,
                            },
                            Coin {
                                denom: "denom3".to_string(),
                                amount: -242,
                            },
                        ],
                    },
                    Balance {
                        address: "addr2".to_string(),
                        coins: vec![
                            Coin {
                                denom: "denom1".to_string(),
                                amount: -180,
                            },
                            Coin {
                                denom: "denom2".to_string(),
                                amount: 100,
                            },
                            Coin {
                                denom: "denom3".to_string(),
                                amount: -330,
                            },
                        ],
                    },
                    Balance {
                        address: "addr3".to_string(),
                        coins: vec![Coin {
                            denom: "denom3".to_string(),
                            amount: 182,
                        }],
                    },
                ]),
            }],
        },
        TestCases {
            case_name: "input output mismatch".to_string(),
            cases: vec![TestCase {
                original_balances: vec![Balance {
                    address: "account1".to_string(),
                    coins: vec![Coin {
                        denom: "denom1".to_string(),
                        amount: 1000_000,
                    }],
                }],
                definitions: vec![DenomDefinition {
                    denom: "denom1".to_string(),
                    issuer: "issuer_account_A".to_string(),
                    burn_rate: rate(0.0),
                    commission_rate: rate(0.0),
                }],
                multi_send_tx: MultiSend {
                    inputs: vec![Balance {
                        address: "account1".to_string(),
                        coins: vec![Coin {
                            denom: "denom1".to_string(),
                            amount: 350,
                        }],
                    }],
                    outputs: vec![Balance {
                        address: "account_recipient".to_string(),
                        coins: vec![Coin {
                            denom: "denom1".to_string(),
                            amount: 450,
                        }],
                    }],
                },
                result: Err("notice that input and output does not match".to_string()),
            }],
        },
        TestCases {
            case_name: "min balance".to_string(),
            cases: vec![TestCase {
                original_balances: vec![Balance {
                    address: "account1".to_string(),
                    coins: vec![Coin {
                        denom: "denom1".to_string(),
                        amount: 1200,
                    }],
                }],
                definitions: vec![DenomDefinition {
                    denom: "denom1".to_string(),
                    issuer: "issuer_account_A".to_string(),
                    burn_rate: rate(0.08),
                    commission_rate: rate(0.12),
                }],
                multi_send_tx: MultiSend {
                    inputs: vec![Balance {
                        address: "account1".to_string(),
                        coins: vec![Coin {
                            denom: "denom1".to_string(),
                            amount: 1000,
                        }],
                    }],
                    outputs: vec![Balance {
                        address: "account_recipient".to_string(),
                        coins: vec![Coin {
                            denom: "denom1".to_string(),
                            amount: 1000,
                        }],
                    }],
                },
                result: Ok(vec![
                    Balance {
                        address: "account_recipient".to_string(),
                        coins: vec![Coin {
                            denom: "denom1".to_string(),
                            amount: 1000,
                        }],
                    },
                    Balance {
                        address: "issuer_account_A".to_string(),
                        coins: vec![Coin {
                            denom: "denom1".to_string(),
                            amount: 120,
                        }],
                    },
                    Balance {
                        address: "account1".to_string(),
                        coins: vec![Coin {
                            denom: "denom1".to_string(),
                            amount: -1200,
                        }],
                    },
                ]),
            }],
        },
        TestCases {
            case_name: "min balance - 1".to_string(),
            cases: vec![TestCase {
                original_balances: vec![Balance {
                    address: "account1".to_string(),
                    coins: vec![Coin {
                        denom: "denom1".to_string(),
                        amount: 1199,
                    }],
                }],
                definitions: vec![DenomDefinition {
                    denom: "denom1".to_string(),
                    issuer: "issuer_account_A".to_string(),
                    burn_rate: rate(0.08),
                    commission_rate: rate(0.12),
                }],
                multi_send_tx: MultiSend {
                    inputs: vec![Balance {
                        address: "account1".to_string(),
                        coins: vec![Coin {
                            denom: "denom1".to_string(),
                            amount: 1000,
                        }],
                    }],
                    outputs: vec![Balance {
                        address: "account_recipient".to_string(),
                        coins: vec![Coin {
                            denom: "denom1".to_string(),
                            amount: 1000,
                        }],
                    }],
                },
                result: Err(
                    "notice that account1 does not have enough balance for denom1".to_string(),
                ),
            }],
        },
        TestCases {
            case_name: "not enough balance".to_string(),
            cases: vec![TestCase {
                original_balances: vec![Balance {
                    address: "account1".to_string(),
                    coins: vec![],
                }],
                definitions: vec![DenomDefinition {
                    denom: "denom1".to_string(),
                    issuer: "issuer_account_A".to_string(),
                    burn_rate: rate(0.0),
                    commission_rate: rate(0.0),
                }],
                multi_send_tx: MultiSend {
                    inputs: vec![Balance {
                        address: "account1".to_string(),
                        coins: vec![Coin {
                            denom: "denom1".to_string(),
                            amount: 350,
                        }],
                    }],
                    outputs: vec![Balance {
                        address: "account_recipient".to_string(),
                        coins: vec![Coin {
                            denom: "denom1".to_string(),
                            amount: 350,
                        }],
                    }],
                },
                result: Err(
                    "notice that account1 does not have enough balance for denom1".to_string(),
                ),
            }],
        },
    ];
    for test_cases in vec_test_cases {
        println!("Test Case: {:?}, Count: {}", test_cases.case_name, test_cases.cases.len());
        for test_case in test_cases.cases {
            run(test_case);
        }
    }
}

//! Score requests, timestamps and the vectors they give.

use rinha_gpu_bruteforce::binary32::Binary32;
use rinha_gpu_bruteforce::payload::{
    clamp01, default_mcc_risk, mcc_risk, round4, vectorize_payload, CustomerPayload, FraudPayload,
    LastTransactionPayload, MerchantPayload, Normalization, RiskTable, RuntimeConfig,
    TerminalPayload, TransactionPayload, VectorizeError,
};
use rinha_gpu_bruteforce::quantize::quantize_value;
use rinha_gpu_bruteforce::rng::SplitMix64;
use rinha_gpu_bruteforce::timestamp::{
    days_from_civil, parse_digits, parse_timestamp, ParsedTimestamp,
};

fn of(value: f32) -> Binary32 {
    Binary32 { bits: value.to_bits() }
}

fn value(number: Binary32) -> f32 {
    f32::from_bits(number.bits)
}

fn machine_round4(value: f32) -> f32 {
    (value * 10_000.0).round() * 0.0001
}

fn machine_clamp01(value: f32) -> f32 {
    machine_round4(value.clamp(0.0, 1.0))
}

fn config() -> RuntimeConfig {
    RuntimeConfig { normalization: Normalization::default(), mcc_risk: default_mcc_risk() }
}

/// The transaction of the documented example.
fn example() -> FraudPayload {
    FraudPayload {
        transaction: TransactionPayload {
            amount: of(384.88),
            installments: 3,
            requested_at: "2026-03-11T20:23:35Z".to_string(),
        },
        customer: CustomerPayload {
            avg_amount: of(769.76),
            tx_count_24h: 3,
            known_merchants: vec!["MERC-009".to_string(), "MERC-001".to_string()],
        },
        merchant: MerchantPayload {
            id: "MERC-001".to_string(),
            mcc: "5912".to_string(),
            avg_amount: of(298.95),
        },
        terminal: TerminalPayload {
            is_online: false,
            card_present: true,
            km_from_home: of(13.7),
        },
        last_transaction: Some(LastTransactionPayload {
            timestamp: "2026-03-11T14:58:35Z".to_string(),
            km_from_current: of(18.8),
        }),
    }
}

#[test]
fn the_example_is_vectorised_as_on_the_machine() {
    let vector = vectorize_payload(&example(), &config()).unwrap();
    let expected = [
        machine_clamp01(384.88f32 / 10_000.0),
        machine_clamp01(3.0f32 / 12.0),
        machine_clamp01((384.88f32 / 769.76) / 10.0),
        machine_round4(20.0f32 / 23.0),
        machine_round4(2.0f32 / 6.0),
        machine_clamp01(325.0f32 / 1_440.0),
        machine_clamp01(18.8f32 / 1_000.0),
        machine_clamp01(13.7f32 / 1_000.0),
        machine_clamp01(3.0f32 / 20.0),
        0.0,
        1.0,
        0.0,
        0.2f32,
        machine_clamp01(298.95f32 / 10_000.0),
    ];
    for dim in 0..14 {
        assert_eq!(vector[dim].bits, expected[dim].to_bits(), "dimension {dim}");
    }
    assert_eq!(value(vector[0]), 0.0385);
    assert_eq!(value(vector[1]), 0.25);
}

#[test]
fn a_missing_previous_transaction_shows_in_two_places() {
    let mut payload = example();
    payload.last_transaction = None;
    let vector = vectorize_payload(&payload, &config()).unwrap();
    assert_eq!(value(vector[5]), -1.0);
    assert_eq!(value(vector[6]), -1.0);
    assert_eq!(quantize_value(vector[5]), -8192);
}

#[test]
fn other_branches_of_the_vector() {
    let mut payload = example();
    payload.customer.avg_amount = of(0.0);
    payload.customer.known_merchants = vec![];
    payload.merchant.mcc = "0000".to_string();
    payload.terminal.is_online = true;
    payload.terminal.card_present = false;
    payload.transaction.installments = 100;
    payload.last_transaction = Some(LastTransactionPayload {
        timestamp: "2026-03-12T00:00:00Z".to_string(),
        km_from_current: of(5_000.0),
    });
    let vector = vectorize_payload(&payload, &config()).unwrap();
    assert_eq!(value(vector[1]), 1.0);
    assert_eq!(value(vector[2]), 1.0);
    assert_eq!(value(vector[5]), 0.0);
    assert_eq!(value(vector[6]), 1.0);
    assert_eq!(value(vector[9]), 1.0);
    assert_eq!(value(vector[10]), 0.0);
    assert_eq!(value(vector[11]), 1.0);
    assert_eq!(value(vector[12]), 0.5);
}

#[test]
fn a_merchant_is_known_by_its_whole_name() {
    let mut payload = example();
    payload.customer.known_merchants = vec!["MERC-0011".to_string(), "MERC-00".to_string()];
    let vector = vectorize_payload(&payload, &config()).unwrap();
    assert_eq!(value(vector[11]), 1.0);
}

#[test]
fn unreadable_timestamps_are_told_apart() {
    let mut payload = example();
    payload.last_transaction = Some(LastTransactionPayload {
        timestamp: "yesterday".to_string(),
        km_from_current: of(1.0),
    });
    assert_eq!(
        vectorize_payload(&payload, &config()),
        Err(VectorizeError::LastTransactionTimestamp)
    );
    payload.transaction.requested_at = "2026-13-11T20:23:35Z".to_string();
    assert_eq!(vectorize_payload(&payload, &config()), Err(VectorizeError::RequestedAt));
}

#[test]
fn a_zero_scale_gives_no_number_and_zero_steps() {
    let mut config = config();
    config.normalization.max_amount = of(0.0);
    let mut payload = example();
    payload.transaction.amount = of(0.0);
    let vector = vectorize_payload(&payload, &config).unwrap();
    assert!(value(vector[0]).is_nan());
    assert_eq!(quantize_value(vector[0]), 0);
}

#[test]
fn coordinates_stay_on_the_scale() {
    let mut rng = SplitMix64::new(77);
    for _ in 0..300 {
        let mut payload = example();
        payload.transaction.amount = Binary32 { bits: (rng.next_u64() >> 32) as u32 };
        payload.customer.avg_amount = Binary32 { bits: (rng.next_u64() >> 32) as u32 };
        payload.terminal.km_from_home = Binary32 { bits: (rng.next_u64() >> 32) as u32 };
        let vector = vectorize_payload(&payload, &config()).unwrap();
        for dim in 0..14 {
            let v = value(vector[dim]);
            assert!(v.is_nan() || (0.0..=1.0).contains(&v));
            assert!((0..=8192).contains(&quantize_value(vector[dim])));
        }
    }
}

#[test]
fn rounding_to_four_places_is_that_of_the_machine() {
    let mut rng = SplitMix64::new(1);
    for _ in 0..5_000 {
        let v = f32::from_bits(rng.next_f32().bits) * 3.0 - 1.0;
        assert_eq!(round4(of(v)).bits, machine_round4(v).to_bits());
        assert_eq!(clamp01(of(v)).bits, machine_clamp01(v).to_bits());
    }
    assert_eq!(value(clamp01(of(2.0))), 1.0);
    assert_eq!(value(clamp01(of(-2.0))), 0.0);
    assert_eq!(value(round4(of(0.12345))), 0.1235);
}

#[test]
fn the_default_scales_are_the_documented_ones() {
    let n = Normalization::default();
    assert_eq!(value(n.max_amount), 10_000.0);
    assert_eq!(value(n.max_installments), 12.0);
    assert_eq!(value(n.amount_vs_avg_ratio), 10.0);
    assert_eq!(value(n.max_minutes), 1_440.0);
    assert_eq!(value(n.max_km), 1_000.0);
    assert_eq!(value(n.max_tx_count_24h), 20.0);
    assert_eq!(value(n.max_merchant_avg_amount), 10_000.0);
}

#[test]
fn risks_are_looked_up_by_code() {
    let config = config();
    for (code, risk) in [
        ("5411", 0.15f32),
        ("5812", 0.30),
        ("5912", 0.20),
        ("5944", 0.45),
        ("7801", 0.80),
        ("7802", 0.75),
        ("7995", 0.85),
        ("4511", 0.35),
        ("5311", 0.25),
        ("5999", 0.50),
        ("", 0.5),
        ("54", 0.5),
        ("54111", 0.5),
    ] {
        assert_eq!(mcc_risk(code, &config).bits, risk.to_bits(), "{code}");
    }
}

#[test]
fn a_later_risk_replaces_an_earlier_one() {
    let mut table = RiskTable::new();
    assert_eq!(table.get("1"), None);
    table.insert("1".to_string(), of(0.25));
    table.insert("2".to_string(), of(0.5));
    table.insert("1".to_string(), of(0.75));
    assert_eq!(table.get("1"), Some(of(0.75)));
    assert_eq!(table.get("2"), Some(of(0.5)));
    assert_eq!(table.get("3"), None);
}

#[test]
fn timestamps_are_read_to_the_minute() {
    assert_eq!(
        parse_timestamp("1970-01-01T00:00:00Z"),
        Some(ParsedTimestamp { total_minutes: 0, hour: 0, day_of_week: 3 })
    );
    assert_eq!(
        parse_timestamp("2026-03-11T20:23:35Z"),
        Some(ParsedTimestamp { total_minutes: 20_523 * 1_440 + 20 * 60 + 23, hour: 20, day_of_week: 2 })
    );
    assert_eq!(parse_timestamp("0000-01-01T00:00:00Z").unwrap().total_minutes, -719_528 * 1_440);
    assert!(parse_timestamp("2026-03-11T20:23:xxxx").is_some());
}

#[test]
fn other_texts_are_no_timestamps() {
    for text in [
        "",
        "2026-03-11T20:23:35",
        "2026/03-11T20:23:35Z",
        "2026-03/11T20:23:35Z",
        "2026-03-11 20:23:35Z",
        "2026-03-11T20-23:35Z",
        "2026-03-11T20:23-35Z",
        "2026-00-11T20:23:35Z",
        "2026-13-11T20:23:35Z",
        "2026-03-00T20:23:35Z",
        "2026-03-32T20:23:35Z",
        "2026-03-11T24:23:35Z",
        "2026-03-11T20:60:35Z",
        "202a-03-11T20:23:35Z",
        "2026-0a-11T20:23:35Z",
        "2026-03-1 T20:23:35Z",
        "2026-03-11T2x:23:35Z",
        "2026-03-11T20:2x:35Z",
    ] {
        assert_eq!(parse_timestamp(text), None, "{text}");
    }
}

#[test]
fn digits_spell_numbers() {
    assert_eq!(parse_digits(b"0042"), Some(42));
    assert_eq!(parse_digits(b""), Some(0));
    assert_eq!(parse_digits(b"4294967295"), Some(u32::MAX));
    assert_eq!(parse_digits(b"4 2"), None);
}

#[test]
fn days_follow_the_calendar() {
    assert_eq!(days_from_civil(1970, 1, 1), 0);
    assert_eq!(days_from_civil(1969, 12, 31), -1);
    assert_eq!(days_from_civil(2000, 2, 29), 11_016);
    assert_eq!(days_from_civil(2000, 3, 1), 11_017);
    assert_eq!(days_from_civil(1900, 3, 1) - days_from_civil(1900, 2, 28), 1);
    assert_eq!(days_from_civil(2400, 1, 1) - days_from_civil(2000, 1, 1), 146_097);
    assert_eq!(days_from_civil(-1, 1, 1), -719_893);
    let lengths = [31, 29, 31, 30, 31, 30, 31, 31, 30, 31, 30, 31];
    for month in 1..12u32 {
        let step = days_from_civil(2024, month + 1, 1) - days_from_civil(2024, month, 1);
        assert_eq!(step, lengths[month as usize - 1]);
    }
}

use rinha_2026::distance::DIM;
use rinha_2026::features::{
    has_calendar_month, mcc_risk, vectorize, Customer, Feature, FraudRequest, LastTransaction,
    Merchant, Terminal, Transaction,
};
use serde_json::Value;

fn clamp01(x: f32) -> f32 {
    x.max(0.0).min(1.0)
}

fn evaluate(feature: &Feature<f32>) -> f32 {
    match feature {
        Feature::Quantity { value, scale } => clamp01(*value / *scale as f32),
        Feature::Ratio { value, base, scale } => clamp01((*value / *base) / *scale as f32),
        Feature::Count { count, scale } => clamp01(*count as f32 / *scale as f32),
        Feature::Minutes { seconds, scale } => clamp01((*seconds as f32 / 60.0) / *scale as f32),
        Feature::Fraction { num, den } => *num as f32 / *den as f32,
        Feature::Missing => -1.0,
    }
}

fn query(req: &FraudRequest<f32>) -> [f32; DIM] {
    let features = vectorize(req, req.customer.avg_amount > 0.0);
    let mut v = [0.0f32; DIM];
    for i in 0..DIM {
        v[i] = evaluate(&features[i]);
    }
    v
}

fn round4(v: [f32; DIM]) -> [f32; DIM] {
    let mut out = v;
    for x in out.iter_mut() {
        *x = (*x * 10000.0).round() / 10000.0;
    }
    out
}

fn quantity(v: &Value) -> f32 {
    v.as_f64().unwrap() as f32
}

fn request(json: &Value) -> FraudRequest<'_, f32> {
    let last = &json["last_transaction"];
    FraudRequest {
        id: json["id"].as_str().unwrap(),
        transaction: Transaction {
            amount: quantity(&json["transaction"]["amount"]),
            installments: json["transaction"]["installments"].as_u64().unwrap() as u32,
            requested_at: json["transaction"]["requested_at"].as_str().unwrap(),
        },
        customer: Customer {
            avg_amount: quantity(&json["customer"]["avg_amount"]),
            tx_count_24h: json["customer"]["tx_count_24h"].as_u64().unwrap() as u32,
            known_merchants: json["customer"]["known_merchants"]
                .as_array()
                .unwrap()
                .iter()
                .map(|m| m.as_str().unwrap())
                .collect(),
        },
        merchant: Merchant {
            id: json["merchant"]["id"].as_str().unwrap(),
            mcc: json["merchant"]["mcc"].as_str().unwrap(),
            avg_amount: quantity(&json["merchant"]["avg_amount"]),
        },
        terminal: Terminal {
            is_online: json["terminal"]["is_online"].as_bool().unwrap(),
            card_present: json["terminal"]["card_present"].as_bool().unwrap(),
            km_from_home: quantity(&json["terminal"]["km_from_home"]),
        },
        last_transaction: if last.is_null() {
            None
        } else {
            Some(LastTransaction {
                timestamp: last["timestamp"].as_str().unwrap(),
                km_from_current: quantity(&last["km_from_current"]),
            })
        },
    }
}

fn plain<'a>() -> FraudRequest<'a, f32> {
    FraudRequest {
        id: "tx-1",
        transaction: Transaction {
            amount: 100.0,
            installments: 1,
            requested_at: "2026-03-11T18:45:53Z",
        },
        customer: Customer {
            avg_amount: 50.0,
            tx_count_24h: 1,
            known_merchants: vec!["A", "B"],
        },
        merchant: Merchant {
            id: "B",
            mcc: "5411",
            avg_amount: 500.0,
        },
        terminal: Terminal {
            is_online: true,
            card_present: false,
            km_from_home: 10.0,
        },
        last_transaction: None,
    }
}

#[test]
fn legit_example_from_spec() {
    let json = br#"{
        "id": "tx-1329056812",
        "transaction": { "amount": 41.12, "installments": 2, "requested_at": "2026-03-11T18:45:53Z" },
        "customer": { "avg_amount": 82.24, "tx_count_24h": 3, "known_merchants": ["MERC-003", "MERC-016"] },
        "merchant": { "id": "MERC-016", "mcc": "5411", "avg_amount": 60.25 },
        "terminal": { "is_online": false, "card_present": true, "km_from_home": 29.23 },
        "last_transaction": null
    }"#;
    let json: Value = serde_json::from_slice(json).unwrap();
    let got = round4(query(&request(&json)));
    let expect = [
        0.0041, 0.1667, 0.05, 0.7826, 0.3333, -1.0, -1.0, 0.0292, 0.15, 0.0, 1.0, 0.0, 0.15, 0.006,
    ];
    for i in 0..DIM {
        let diff = (got[i] - expect[i]).abs();
        assert!(diff < 0.0002, "dim {} got {} expected {} (diff {})", i, got[i], expect[i], diff);
    }
}

#[test]
fn fraud_example_from_spec() {
    let json = br#"{
        "id": "tx-3330991687",
        "transaction": { "amount": 9505.97, "installments": 10, "requested_at": "2026-03-14T05:15:12Z" },
        "customer": { "avg_amount": 81.28, "tx_count_24h": 20, "known_merchants": ["MERC-008", "MERC-007", "MERC-005"] },
        "merchant": { "id": "MERC-068", "mcc": "7802", "avg_amount": 54.86 },
        "terminal": { "is_online": false, "card_present": true, "km_from_home": 952.27 },
        "last_transaction": null
    }"#;
    let json: Value = serde_json::from_slice(json).unwrap();
    let got = round4(query(&request(&json)));
    let expect = [
        0.9506, 0.8333, 1.0, 0.2174, 0.8333, -1.0, -1.0, 0.9523, 1.0, 0.0, 1.0, 1.0, 0.75, 0.0055,
    ];
    for i in 0..DIM {
        let diff = (got[i] - expect[i]).abs();
        assert!(diff < 0.0002, "dim {} got {} expected {} (diff {})", i, got[i], expect[i], diff);
    }
}

#[test]
fn features_name_their_quantities() {
    let req = plain();
    let v = vectorize(&req, true);
    assert!(matches!(v[0], Feature::Quantity { value, scale: 10000 } if value == 100.0));
    assert!(matches!(v[1], Feature::Count { count: 1, scale: 12 }));
    assert!(matches!(v[2], Feature::Ratio { value, base, scale: 10 } if value == 100.0 && base == 50.0));
    assert!(matches!(v[3], Feature::Fraction { num: 18, den: 23 }));
    assert!(matches!(v[4], Feature::Fraction { num: 2, den: 6 }));
    assert!(matches!(v[5], Feature::Missing));
    assert!(matches!(v[6], Feature::Missing));
    assert!(matches!(v[7], Feature::Quantity { value, scale: 1000 } if value == 10.0));
    assert!(matches!(v[8], Feature::Count { count: 1, scale: 20 }));
    assert!(matches!(v[9], Feature::Fraction { num: 1, den: 1 }));
    assert!(matches!(v[10], Feature::Fraction { num: 0, den: 1 }));
    assert!(matches!(v[11], Feature::Fraction { num: 0, den: 1 }));
    assert!(matches!(v[12], Feature::Fraction { num: 15, den: 100 }));
    assert!(matches!(v[13], Feature::Quantity { value, scale: 10000 } if value == 500.0));
}

#[test]
fn a_last_transaction_fills_its_features() {
    let mut req = plain();
    req.last_transaction = Some(LastTransaction {
        timestamp: "2026-03-11T18:15:53Z",
        km_from_current: 250.0,
    });
    let v = vectorize(&req, true);
    assert!(matches!(v[5], Feature::Minutes { seconds: 1800, scale: 1440 }));
    assert!(matches!(v[6], Feature::Quantity { value, scale: 1000 } if value == 250.0));
    let q = query(&req);
    assert_eq!(q[5], 30.0 / 1440.0);
    assert_eq!(q[6], 0.25);
}

#[test]
fn a_last_transaction_that_cannot_be_dated_counts_as_now() {
    let mut req = plain();
    req.last_transaction = Some(LastTransaction {
        timestamp: "unknown",
        km_from_current: 0.0,
    });
    assert!(matches!(vectorize(&req, true)[5], Feature::Minutes { seconds: 0, scale: 1440 }));
    req.last_transaction = Some(LastTransaction {
        timestamp: "2027-01-01T00:00:00Z",
        km_from_current: 0.0,
    });
    assert!(matches!(vectorize(&req, true)[5], Feature::Minutes { seconds: 0, scale: 1440 }));
}

#[test]
fn without_an_average_the_ratio_is_full() {
    let mut req = plain();
    req.customer.avg_amount = 0.0;
    assert!(matches!(vectorize(&req, false)[2], Feature::Fraction { num: 1, den: 1 }));
    assert_eq!(query(&req)[2], 1.0);
}

#[test]
fn unknown_merchants_are_flagged() {
    let mut req = plain();
    req.merchant.id = "C";
    assert!(matches!(vectorize(&req, true)[11], Feature::Fraction { num: 1, den: 1 }));
    req.merchant.id = "A";
    assert!(matches!(vectorize(&req, true)[11], Feature::Fraction { num: 0, den: 1 }));
    req.customer.known_merchants = vec![];
    assert!(matches!(vectorize(&req, true)[11], Feature::Fraction { num: 1, den: 1 }));
}

#[test]
fn an_unreadable_timestamp_reads_as_the_start_of_1970() {
    let mut req = plain();
    req.transaction.requested_at = "soon";
    assert!(has_calendar_month("soon"));
    let v = vectorize(&req, true);
    assert!(matches!(v[3], Feature::Fraction { num: 0, den: 23 }));
    assert!(matches!(v[4], Feature::Fraction { num: 3, den: 6 }));
}

#[test]
fn months_outside_the_calendar_are_noticed() {
    assert!(has_calendar_month("2026-01-11T18:45:53Z"));
    assert!(has_calendar_month("2026-12-11T18:45:53Z"));
    assert!(!has_calendar_month("2026-00-11T18:45:53Z"));
    assert!(!has_calendar_month("2026-13-11T18:45:53Z"));
}

#[test]
fn categories_have_their_risk() {
    let known = [
        ("5411", 15, 0.15f32),
        ("5812", 30, 0.30),
        ("5912", 20, 0.20),
        ("5944", 45, 0.45),
        ("7801", 80, 0.80),
        ("7802", 75, 0.75),
        ("7995", 85, 0.85),
        ("4511", 35, 0.35),
        ("5311", 25, 0.25),
        ("5999", 50, 0.50),
        ("0000", 50, 0.50),
        ("", 50, 0.50),
        ("54110", 50, 0.50),
    ];
    for (mcc, hundredths, risk) in known {
        assert_eq!(mcc_risk(mcc), hundredths);
        assert_eq!(mcc_risk(mcc) as f32 / 100.0, risk);
    }
}

#[test]
fn coordinates_are_clamped() {
    let mut req = plain();
    req.transaction.amount = 1.0e9;
    req.terminal.km_from_home = -5.0;
    let v = query(&req);
    assert_eq!(v[0], 1.0);
    assert_eq!(v[2], 1.0);
    assert_eq!(v[7], 0.0);
}

use exgine::account::{fixed_amount, Account, Quantity, Tranx};
use exgine::asset;
use exgine::rate::Rate;
use std::collections::HashMap;
use std::time::Instant;

#[derive(Debug, PartialEq, Eq, PartialOrd, Hash, Clone, Copy)]
pub enum Resource {
    Battery,
    RgbSensor,
    ThermalSensor,
    PoseEstimation,
}

#[derive(Debug, PartialEq, Eq, PartialOrd, Hash, Clone, Copy)]
pub enum Reward {
    Score,
    Token,
    Prediction,
    Currency,
    Policy,
}

#[derive(Debug, PartialEq, Eq, PartialOrd, Hash, Clone, Copy)]
pub enum RobotMissionAsset {
    Resource(Resource),
    Reward(Reward),
    MissionTime,
    Trust,
    EnlistCertificate(Instant),
}

impl asset::Asset for RobotMissionAsset {}

#[derive(Debug, PartialEq, Eq, Hash)]
pub enum RobotMissionMarket {
    MissionTimeWithResource,
    MissionTimeWithTrust,
}

type Asset = RobotMissionAsset;
type Market = RobotMissionMarket;

fn entries(pairs: &[(Asset, i32)]) -> HashMap<Asset, Quantity> {
    let mut assets = HashMap::new();
    for (asset, amount) in pairs {
        assets.insert(*asset, fixed_amount(*amount));
    }
    assets
}

fn account(pairs: &[(Asset, i32)]) -> Account<Asset> {
    Account::from(entries(pairs))
}

fn mission_default() -> Account<Asset> {
    account(&[(Asset::MissionTime, 1000000)])
}

fn agent_default() -> Account<Asset> {
    account(&[
        (Asset::Reward(Reward::Score), 10000),
        (Asset::Reward(Reward::Token), 10000),
        (Asset::Reward(Reward::Prediction), 10000),
        (Asset::Reward(Reward::Policy), 10000),
    ])
}

fn rates_default() -> HashMap<Market, Rate<Asset>> {
    let mut rates = HashMap::new();
    rates.insert(
        Market::MissionTimeWithResource,
        Rate {
            credit: entries(&[(Asset::MissionTime, 1)]),
            debit: entries(&[
                (Asset::Reward(Reward::Prediction), 9),
                (Asset::Reward(Reward::Token), 3),
                (Asset::Reward(Reward::Policy), 1),
            ]),
        },
    );
    rates
}

#[test]
fn rate_buy_lifetime() {
    let mission = mission_default();
    let agent = agent_default();
    let rates = rates_default();
    let rate = rates.get(&Market::MissionTimeWithResource).unwrap();

    let res_seller = account(&[
        (Asset::MissionTime, 999999),
        (Asset::Reward(Reward::Token), 3),
        (Asset::Reward(Reward::Prediction), 9),
        (Asset::Reward(Reward::Policy), 1),
    ]);

    let res_buyer = account(&[
        (Asset::MissionTime, 1),
        (Asset::Reward(Reward::Score), 10000),
        (Asset::Reward(Reward::Token), 9997),
        (Asset::Reward(Reward::Prediction), 9991),
        (Asset::Reward(Reward::Policy), 9999),
    ]);

    match Account::exchange(rate, fixed_amount(1), &agent, &mission) {
        Some(Tranx::Approved(buyer, seller)) => {
            assert!(res_seller.equals(&seller));
            assert!(res_buyer.equals(&buyer));
        }
        _ => assert!(false),
    }
}

#[test]
fn rate_buy_lifetime_quantity() {
    let mission = mission_default();
    let agent = agent_default();
    let rates = rates_default();
    let rate = rates.get(&Market::MissionTimeWithResource).unwrap();

    let res_seller = account(&[
        (Asset::MissionTime, 999998),
        (Asset::Reward(Reward::Token), 6),
        (Asset::Reward(Reward::Prediction), 18),
        (Asset::Reward(Reward::Policy), 2),
    ]);

    let res_buyer = account(&[
        (Asset::MissionTime, 2),
        (Asset::Reward(Reward::Score), 10000),
        (Asset::Reward(Reward::Token), 9994),
        (Asset::Reward(Reward::Prediction), 9982),
        (Asset::Reward(Reward::Policy), 9998),
    ]);

    match Account::exchange(rate, fixed_amount(2), &agent, &mission) {
        Some(Tranx::Approved(buyer, seller)) => {
            assert!(res_seller.equals(&seller));
            assert!(res_buyer.equals(&buyer));
        }
        _ => assert!(false),
    }
}

const R: Asset = Asset::Trust;
const T: Asset = Asset::MissionTime;

fn unit_rate() -> Rate<Asset> {
    Rate {
        credit: entries(&[(T, 1)]),
        debit: entries(&[(R, 10)]),
    }
}

#[test]
fn exchange_approves_exact_funds() {
    let buyer = account(&[(R, 10)]);
    let seller = account(&[]);
    match Account::exchange(&unit_rate(), fixed_amount(1), &buyer, &seller) {
        Some(Tranx::Approved(b, s)) => {
            assert_eq!(b.quantity(&R), fixed_amount(0));
            assert_eq!(b.quantity(&T), fixed_amount(1));
            assert_eq!(s.quantity(&R), fixed_amount(10));
            assert_eq!(s.quantity(&T), fixed_amount(-1));
        }
        _ => assert!(false),
    }
}

#[test]
fn exchange_denies_short_funds() {
    let buyer = account(&[(R, 9)]);
    let seller = account(&[]);
    match Account::exchange(&unit_rate(), fixed_amount(1), &buyer, &seller) {
        Some(Tranx::Denied(deficit)) => {
            assert_eq!(deficit.len(), 1);
            assert_eq!(deficit.get(&R), Some(&fixed_amount(-1)));
        }
        _ => assert!(false),
    }
}

#[test]
fn exchange_twice_matches_double() {
    let buyer = account(&[(R, 25), (T, 3)]);
    let seller = account(&[(T, 100)]);
    let rate = unit_rate();
    let (b1, s1) = match Account::exchange(&rate, fixed_amount(1), &buyer, &seller) {
        Some(Tranx::Approved(b, s)) => (b, s),
        _ => panic!("first trade denied"),
    };
    let (b2, s2) = match Account::exchange(&rate, fixed_amount(1), &b1, &s1) {
        Some(Tranx::Approved(b, s)) => (b, s),
        _ => panic!("second trade denied"),
    };
    match Account::exchange(&rate, fixed_amount(2), &buyer, &seller) {
        Some(Tranx::Approved(b, s)) => {
            assert!(b.equals(&b2));
            assert!(s.equals(&s2));
            assert_eq!(b.quantity(&R), fixed_amount(5));
            assert_eq!(b.quantity(&T), fixed_amount(5));
            assert_eq!(s.quantity(&R), fixed_amount(20));
            assert_eq!(s.quantity(&T), fixed_amount(98));
        }
        _ => assert!(false),
    }
}

#[test]
fn exchange_leaves_seller_unchecked() {
    let buyer = account(&[(R, 10)]);
    let seller = account(&[(T, 0)]);
    match Account::exchange(&unit_rate(), fixed_amount(3), &account(&[(R, 30)]), &seller) {
        Some(Tranx::Approved(_, s)) => {
            assert_eq!(s.quantity(&T), fixed_amount(-3));
            assert!(s.quantity(&T).is_negative());
        }
        _ => assert!(false),
    }
    assert!(matches!(
        Account::exchange(&unit_rate(), fixed_amount(1), &buyer, &seller),
        Some(Tranx::Approved(_, _))
    ));
}

#[test]
fn exchange_zero_quantity_changes_nothing() {
    let buyer = account(&[(R, 1)]);
    let seller = account(&[(T, 1)]);
    match Account::exchange(&unit_rate(), fixed_amount(0), &buyer, &seller) {
        Some(Tranx::Approved(b, s)) => {
            assert!(b.equals(&buyer));
            assert!(s.equals(&seller));
        }
        _ => assert!(false),
    }
}

#[test]
fn exchange_negative_quantity_reverses_roles() {
    let buyer = account(&[(T, 2)]);
    let seller = account(&[(R, 50)]);
    match Account::exchange(&unit_rate(), fixed_amount(-2), &buyer, &seller) {
        Some(Tranx::Approved(b, s)) => {
            assert_eq!(b.quantity(&R), fixed_amount(20));
            assert_eq!(b.quantity(&T), fixed_amount(0));
            assert_eq!(s.quantity(&R), fixed_amount(30));
            assert_eq!(s.quantity(&T), fixed_amount(2));
        }
        _ => assert!(false),
    }
}

#[test]
fn exchange_overflow_is_none() {
    let buyer = account(&[(R, 10), (T, i32::MAX)]);
    let seller = account(&[]);
    let rate = Rate {
        credit: entries(&[(T, i32::MAX)]),
        debit: entries(&[(R, 10)]),
    };
    assert!(Account::exchange(&rate, fixed_amount(1), &buyer, &seller).is_none());
}

#[test]
fn mission_runs_until_first_resource_runs_out() {
    let battery = Asset::Resource(Resource::Battery);
    let rate = Rate {
        credit: entries(&[(Asset::MissionTime, 1)]),
        debit: entries(&[
            (battery, 20),
            (Asset::Resource(Resource::ThermalSensor), 9),
            (Asset::Resource(Resource::RgbSensor), 3),
            (Asset::Resource(Resource::PoseEstimation), 1),
        ]),
    };
    let mut buyer = account(&[
        (battery, 10000),
        (Asset::Resource(Resource::ThermalSensor), 10000),
        (Asset::Resource(Resource::RgbSensor), 10000),
        (Asset::Resource(Resource::PoseEstimation), 10000),
        (Asset::MissionTime, 1),
    ]);
    let mut seller = account(&[(Asset::MissionTime, 1000000)]);

    match Account::exchange(&rate, fixed_amount(1), &buyer, &seller) {
        Some(Tranx::Approved(b, _)) => {
            assert_eq!(b.quantity(&Asset::MissionTime), fixed_amount(2));
            assert_eq!(b.quantity(&battery), fixed_amount(9980));
        }
        _ => assert!(false),
    }

    let mut trades = 0;
    let deficit = loop {
        match Account::exchange(&rate, fixed_amount(1), &buyer, &seller) {
            Some(Tranx::Approved(b, s)) => {
                buyer = b;
                seller = s;
                trades += 1;
            }
            Some(Tranx::Denied(deficit)) => break deficit,
            None => panic!("out of range"),
        }
    };
    assert_eq!(trades, 500);
    assert_eq!(buyer.quantity(&battery), fixed_amount(0));
    assert_eq!(buyer.quantity(&Asset::MissionTime), fixed_amount(501));
    assert_eq!(deficit.len(), 1);
    assert_eq!(deficit.get(&battery), Some(&fixed_amount(-20)));
}

use stats::calendar::{BatchWindow, Date, Resolution};
use stats::chart::{
    batch_window, AverageBlockRewardsQuery, ChartType, Properties, QueryParam, TimeRange,
    WEI_PER_ETH,
};
use stats::rollup::{reduce, Point, ReduceError, WeightPoint};
use stats::source::{points_from_rows, SourceRow};
use stats::store::{LocalChartStore, SourceError, UpdateError};
use stats::value::Decimal;

const UNITS: i128 = 10_000_000_000_000_000;

fn date(s: &str) -> Date {
    let parts: Vec<u32> = s.split('-').map(|p| p.parse().unwrap()).collect();
    Date::from_ymd(parts[0], parts[1], parts[2]).unwrap()
}

fn units_of(s: &str) -> i128 {
    Decimal::parse(s).unwrap().units()
}

fn point(d: &str, v: &str) -> Point {
    Point { date: date(d), value: Decimal::from_units(units_of(v)) }
}

fn weight(d: &str, w: u64) -> WeightPoint {
    WeightPoint { date: date(d), weight: w }
}

fn daily_points() -> Vec<Point> {
    vec![
        point("2022-11-09", "0"),
        point("2022-11-10", "2"),
        point("2022-11-11", "1.75"),
        point("2022-11-12", "3"),
        point("2022-12-01", "4"),
        point("2023-01-01", "0"),
        point("2023-02-01", "1"),
        point("2023-03-01", "2"),
    ]
}

/// Blocks per day.
fn daily_weights() -> Vec<WeightPoint> {
    vec![
        weight("2022-11-09", 1),
        weight("2022-11-10", 3),
        weight("2022-11-11", 4),
        weight("2022-11-12", 1),
        weight("2022-12-01", 1),
        weight("2023-01-01", 1),
        weight("2023-02-01", 1),
        weight("2023-03-01", 1),
    ]
}

fn daily_store() -> LocalChartStore {
    let mut store = LocalChartStore::new();
    let from = Date::from_ymd(2022, 1, 1).unwrap();
    assert!(store.apply(&from, Ok(daily_points())).is_ok());
    store
}

fn assert_chart(store: &LocalChartStore, expected: Vec<(&str, &str)>) {
    let got = store.points();
    assert_eq!(got.len(), expected.len());
    for (p, (d, v)) in got.iter().zip(expected.iter()) {
        assert_eq!(p.date, date(d));
        let got_value = p.value.units() as f64 / UNITS as f64;
        let want: f64 = v.parse().unwrap();
        assert!((got_value - want).abs() < 1e-15, "{} {} {}", d, got_value, want);
    }
}

fn now() -> Date {
    date("2023-03-01")
}

#[test]
fn update_average_block_rewards() {
    let store = daily_store();
    assert_chart(
        &store,
        vec![
            ("2022-11-09", "0"),
            ("2022-11-10", "2"),
            ("2022-11-11", "1.75"),
            ("2022-11-12", "3"),
            ("2022-12-01", "4"),
            ("2023-01-01", "0"),
            ("2023-02-01", "1"),
            ("2023-03-01", "2"),
        ],
    );
}

#[test]
fn update_average_block_rewards_weekly() {
    let daily = daily_store();
    let mut weekly = LocalChartStore::new();
    let window = batch_window(Resolution::Week);
    let r = weekly.update_derived(&window, &now(), daily.points(), &daily_weights());
    assert!(r.is_ok());
    assert_chart(
        &weekly,
        vec![
            ("2022-11-07", "1.7777777777777777"),
            ("2022-11-28", "4"),
            ("2022-12-26", "0"),
            ("2023-01-30", "1"),
            ("2023-02-27", "2"),
        ],
    );
}

fn monthly_store() -> LocalChartStore {
    let daily = daily_store();
    let mut monthly = LocalChartStore::new();
    let window = batch_window(Resolution::Month);
    assert!(monthly.update_derived(&window, &now(), daily.points(), &daily_weights()).is_ok());
    monthly
}

#[test]
fn update_average_block_rewards_monthly() {
    assert_chart(
        &monthly_store(),
        vec![
            ("2022-11-01", "1.7777777777777777"),
            ("2022-12-01", "4"),
            ("2023-01-01", "0"),
            ("2023-02-01", "1"),
            ("2023-03-01", "2"),
        ],
    );
}

#[test]
fn update_average_block_rewards_yearly() {
    let monthly = monthly_store();
    // blocks per month
    let monthly_weights = vec![
        weight("2022-11-01", 9),
        weight("2022-12-01", 1),
        weight("2023-01-01", 1),
        weight("2023-02-01", 1),
        weight("2023-03-01", 1),
    ];
    let mut yearly = LocalChartStore::new();
    let window = batch_window(Resolution::Year);
    assert!(yearly.update_derived(&window, &now(), monthly.points(), &monthly_weights).is_ok());
    assert_chart(&yearly, vec![("2022-01-01", "2"), ("2023-01-01", "1")]);
    assert_eq!(yearly.points()[0].value.units(), 2 * UNITS);
    assert_eq!(yearly.points()[1].value.units(), UNITS);
}

#[test]
fn daily_to_weekly_scenario() {
    let fine = vec![
        point("2022-11-09", "0"),
        point("2022-11-10", "2"),
        point("2022-11-11", "1.75"),
        point("2022-11-12", "3"),
    ];
    let ws = vec![
        weight("2022-11-09", 1),
        weight("2022-11-10", 3),
        weight("2022-11-11", 4),
        weight("2022-11-12", 1),
    ];
    let out = reduce(Resolution::Week, &fine, &ws).unwrap();
    assert_eq!(out.len(), 1);
    assert_eq!(out[0].date, date("2022-11-07"));
    // 16/9 rounded to sixteen places
    assert_eq!(out[0].value.units(), 17_777_777_777_777_778);
    let v = out[0].value.units() as f64 / UNITS as f64;
    assert!((v - 1.7777777777777777).abs() < 1e-15);
}

#[test]
fn monthly_to_yearly_scenario() {
    let fine = vec![point("2022-11-01", "1.7777777777777777"), point("2022-12-01", "4")];
    let ws = vec![weight("2022-11-01", 9), weight("2022-12-01", 1)];
    let out = reduce(Resolution::Year, &fine, &ws).unwrap();
    assert_eq!(out.len(), 1);
    assert_eq!(out[0].date, date("2022-01-01"));
    // (17777777777777777 * 9 + 4 * 10^16) / 10, exactly 1.99999999999999993
    assert_eq!(out[0].value.units(), 19_999_999_999_999_999);
    let v = out[0].value.units() as f64 / UNITS as f64;
    assert!((v - 2.0).abs() < 1e-15);

    let fine = vec![
        point("2023-01-01", "0"),
        point("2023-02-01", "1"),
        point("2023-03-01", "2"),
    ];
    let ws = vec![weight("2023-01-01", 5), weight("2023-02-01", 5), weight("2023-03-01", 5)];
    let out = reduce(Resolution::Year, &fine, &ws).unwrap();
    assert_eq!(out.len(), 1);
    assert_eq!(out[0].date, date("2023-01-01"));
    assert_eq!(out[0].value.units(), UNITS);
}

#[test]
fn weighted_not_plain_mean() {
    let fine = vec![point("2024-05-01", "1"), point("2024-05-02", "4")];
    let ws = vec![weight("2024-05-01", 3), weight("2024-05-02", 1)];
    let out = reduce(Resolution::Month, &fine, &ws).unwrap();
    assert_eq!(out[0].value.units(), units_of("1.75"));
}

#[test]
fn zero_weight_bucket_is_zero() {
    let fine = vec![point("2024-05-01", "7"), point("2024-05-02", "9")];
    let ws = vec![weight("2024-05-01", 0), weight("2024-05-02", 0)];
    let out = reduce(Resolution::Week, &fine, &ws).unwrap();
    assert_eq!(out.len(), 1);
    assert_eq!(out[0].date, date("2024-04-29"));
    assert_eq!(out[0].value.units(), 0);
}

#[test]
fn empty_fine_series_gives_nothing() {
    let out = reduce(Resolution::Year, &vec![], &vec![]).unwrap();
    assert!(out.is_empty());
}

#[test]
fn sparse_buckets_stay_sparse() {
    let fine = vec![point("2024-01-15", "1"), point("2024-03-15", "3")];
    let ws = vec![weight("2024-01-15", 1), weight("2024-03-15", 1)];
    let out = reduce(Resolution::Month, &fine, &ws).unwrap();
    assert_eq!(out.len(), 2);
    assert_eq!(out[0].date, date("2024-01-01"));
    assert_eq!(out[1].date, date("2024-03-01"));
}

#[test]
fn missing_weight_is_an_error() {
    let fine = vec![point("2024-01-15", "1")];
    let ws = vec![weight("2024-01-16", 1)];
    assert_eq!(reduce(Resolution::Month, &fine, &ws), Err(ReduceError::MissingWeight));
}

#[test]
fn overflow_is_an_error() {
    let fine = vec![Point { date: date("2024-01-15"), value: Decimal::from_units(i128::MAX) }];
    let ws = vec![weight("2024-01-15", 2)];
    assert_eq!(reduce(Resolution::Month, &fine, &ws), Err(ReduceError::Overflow));
}

#[test]
fn negative_values_round_half_away_from_zero() {
    let fine = vec![
        Point { date: date("2024-01-01"), value: Decimal::from_units(-1) },
        Point { date: date("2024-01-02"), value: Decimal::from_units(-2) },
    ];
    let ws = vec![weight("2024-01-01", 1), weight("2024-01-02", 1)];
    let out = reduce(Resolution::Year, &fine, &ws).unwrap();
    assert_eq!(out[0].value.units(), -2);
}

#[test]
fn update_twice_is_idempotent() {
    let daily = daily_store();
    let window = batch_window(Resolution::Week);
    let mut once = LocalChartStore::new();
    assert!(once.update_derived(&window, &now(), daily.points(), &daily_weights()).is_ok());
    let mut twice = LocalChartStore::new();
    assert!(twice.update_derived(&window, &now(), daily.points(), &daily_weights()).is_ok());
    assert!(twice.update_derived(&window, &now(), daily.points(), &daily_weights()).is_ok());
    assert_eq!(once.points(), twice.points());
}

#[test]
fn failed_update_leaves_store_unchanged() {
    let mut store = daily_store();
    let before = store.points().clone();
    let from = date("2023-02-01");
    assert_eq!(
        store.apply(&from, Err(SourceError::Unavailable)),
        Err(UpdateError::SourceUnavailable)
    );
    assert_eq!(store.points(), &before);
    assert_eq!(
        store.apply(&from, Err(SourceError::Malformed)),
        Err(UpdateError::SourceDataError)
    );
    assert_eq!(store.points(), &before);
}

#[test]
fn out_of_window_points_are_rejected() {
    let mut store = daily_store();
    let before = store.points().clone();
    let from = date("2023-02-01");
    let r = store.apply(&from, Ok(vec![point("2023-01-15", "5")]));
    assert_eq!(r, Err(UpdateError::SourceDataError));
    assert_eq!(store.points(), &before);
    let r = store.apply(&from, Ok(vec![point("2023-02-15", "5"), point("2023-02-10", "6")]));
    assert_eq!(r, Err(UpdateError::SourceDataError));
}

#[test]
fn upsert_replaces_only_window_buckets() {
    let mut store = daily_store();
    let from = date("2023-02-01");
    let r = store.apply(&from, Ok(vec![point("2023-02-01", "5"), point("2023-02-15", "6")]));
    assert!(r.is_ok());
    let pts = store.points();
    assert_eq!(pts.len(), 9);
    assert_eq!(pts[5], point("2023-01-01", "0"));
    assert_eq!(pts[6], point("2023-02-01", "5"));
    assert_eq!(pts[7], point("2023-02-15", "6"));
    assert_eq!(pts[8], point("2023-03-01", "2"));
}

#[test]
fn get_reads_a_range() {
    let store = daily_store();
    let got = store.get(&date("2022-11-10"), &date("2022-12-01"));
    assert_eq!(got.len(), 4);
    assert_eq!(got[0].date, date("2022-11-10"));
    assert_eq!(got[3].date, date("2022-12-01"));
}

#[test]
fn bucket_starts() {
    let d = date("2023-01-01");
    assert_eq!(Resolution::Day.bucket_start(&d), d);
    assert_eq!(Resolution::Week.bucket_start(&d), date("2022-12-26"));
    assert_eq!(Resolution::Month.bucket_start(&date("2024-02-29")), date("2024-02-01"));
    assert_eq!(Resolution::Year.bucket_start(&date("2024-02-29")), date("2024-01-01"));
    assert_eq!(Resolution::Week.bucket_start(&date("0001-01-03")), date("0001-01-01"));
}

#[test]
fn calendar_validity() {
    assert!(Date::from_ymd(2024, 2, 29).is_some());
    assert!(Date::from_ymd(2023, 2, 29).is_none());
    assert!(Date::from_ymd(1900, 2, 29).is_none());
    assert!(Date::from_ymd(2000, 2, 29).is_some());
    assert!(Date::from_ymd(2023, 13, 1).is_none());
    assert!(Date::from_ymd(0, 1, 1).is_none());
    assert_eq!(date("1970-01-01").ordinal(), 719_162);
    assert_eq!(date("0001-01-01").ordinal(), 0);
}

#[test]
fn batch_windows() {
    let now = date("2023-03-15");
    assert_eq!(batch_window(Resolution::Day).window_start(&now), date("2023-02-13"));
    assert_eq!(batch_window(Resolution::Month).window_start(&now), date("2020-03-01"));
    assert_eq!(batch_window(Resolution::Year).window_start(&now), date("1993-01-01"));
    let w = BatchWindow { resolution: Resolution::Week, count: 2 };
    assert_eq!(w.window_start(&now), date("2023-02-27"));
    let w = BatchWindow { resolution: Resolution::Year, count: 5 };
    assert_eq!(w.window_start(&date("0003-06-01")), date("0001-01-01"));
}

#[test]
fn statement_without_range() {
    let st = AverageBlockRewardsQuery::get_statement(None);
    assert!(!st.sql.contains("$2"));
    assert!(st.sql.contains("GROUP BY date"));
    assert_eq!(st.params, vec![QueryParam::BigInt(WEI_PER_ETH)]);
}

#[test]
fn statement_with_range() {
    let range = TimeRange { start_micros: 10, end_micros: 20 };
    let st = AverageBlockRewardsQuery::get_statement(Some(range));
    assert!(st.sql.contains(" AND blocks.timestamp < $3 AND blocks.timestamp >= $2"));
    assert_eq!(
        st.params,
        vec![
            QueryParam::BigInt(WEI_PER_ETH),
            QueryParam::TimestampMicros(10),
            QueryParam::TimestampMicros(20)
        ]
    );
}

#[test]
fn chart_properties() {
    assert_eq!(Properties::name(), "averageBlockRewards");
    assert_eq!(Properties::chart_type(), ChartType::Line);
    assert_eq!(Properties::resolution(), Resolution::Day);
}

#[test]
fn value_text_round_trip() {
    for units in [
        0i128,
        1,
        -1,
        17_500_000_000_000_000,
        17_777_777_777_777_778,
        -5_000_000_000_000_000,
        2 * UNITS,
        i128::MAX,
        i128::MIN,
    ] {
        let v = Decimal::from_units(units);
        assert_eq!(Decimal::parse(&v.to_text()), Some(v));
    }
}

#[test]
fn value_text_is_canonical() {
    assert_eq!(Decimal::from_units(17_500_000_000_000_000).to_text(), "1.75");
    assert_eq!(Decimal::from_units(2 * UNITS).to_text(), "2");
    assert_eq!(Decimal::from_units(0).to_text(), "0");
    assert_eq!(Decimal::from_units(-5_000_000_000_000_000).to_text(), "-0.5");
    assert_eq!(Decimal::from_units(17_777_777_777_777_778).to_text(), "1.7777777777777778");
    assert_eq!(Decimal::from_units(1).to_text(), "0.0000000000000001");
}

#[test]
fn value_parse() {
    assert_eq!(Decimal::parse("1.75"), Some(Decimal::from_units(17_500_000_000_000_000)));
    assert_eq!(Decimal::parse("-3"), Some(Decimal::from_units(-3 * UNITS)));
    assert_eq!(Decimal::parse("007.50"), Some(Decimal::from_units(75_000_000_000_000_000)));
    assert_eq!(Decimal::parse(""), None);
    assert_eq!(Decimal::parse("-"), None);
    assert_eq!(Decimal::parse(".5"), None);
    assert_eq!(Decimal::parse("1."), None);
    assert_eq!(Decimal::parse("1.2.3"), None);
    assert_eq!(Decimal::parse("1e5"), None);
    assert_eq!(Decimal::parse("0.00000000000000001"), None);
    assert_eq!(Decimal::parse("99999999999999999999999"), None);
}

#[test]
fn apply_twice_is_idempotent() {
    let from = date("2023-02-01");
    let fresh = vec![point("2023-02-01", "5"), point("2023-02-15", "6")];
    let mut once = daily_store();
    assert!(once.apply(&from, Ok(fresh.clone())).is_ok());
    let mut twice = daily_store();
    assert!(twice.apply(&from, Ok(fresh.clone())).is_ok());
    assert!(twice.apply(&from, Ok(fresh)).is_ok());
    assert_eq!(once.points(), twice.points());
}

#[test]
fn rows_are_sorted_deduplicated_and_zero_filled() {
    let rows = vec![
        SourceRow { date: date("2022-11-10"), value: Some(Decimal::from_units(2 * UNITS)) },
        SourceRow { date: date("2022-11-09"), value: None },
        SourceRow { date: date("2022-11-10"), value: Some(Decimal::from_units(3 * UNITS)) },
    ];
    let pts = points_from_rows(&rows).unwrap();
    assert_eq!(pts, vec![point("2022-11-09", "0"), point("2022-11-10", "3")]);
    let bad = vec![SourceRow { date: Date { year: 2023, month: 2, day: 30 }, value: None }];
    assert_eq!(points_from_rows(&bad), Err(SourceError::Malformed));
}

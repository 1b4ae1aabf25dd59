use std::str::FromStr;

use cog_engine::zonal::{StatValue, ZonalStat, ZonalStats};

/// The value of a statistic of a zone aggregated on a level whose pixels cover
/// `scale` times the area of a level-0 pixel: count and sum scale, the rest
/// does not.
fn value_scaled(z: &ZonalStats<f64>, stat: ZonalStat, scale: f64) -> Option<f64> {
    match z.pick(stat) {
        StatValue::Count(n) => Some(n as f64 * scale),
        StatValue::Sum(s) => Some(s * scale),
        StatValue::Mean(s, n) => Some(s / n as f64),
        StatValue::Extreme(v) => Some(v),
        StatValue::Missing => None,
    }
}

fn value(z: &ZonalStats<f64>, stat: ZonalStat) -> Option<f64> {
    value_scaled(z, stat, 1.0)
}

#[test]
fn stat_names_parse_case_insensitively() {
    assert_eq!(ZonalStat::from_str("count").unwrap(), ZonalStat::Count);
    assert_eq!(ZonalStat::from_str("SUM").unwrap(), ZonalStat::Sum);
    assert_eq!(ZonalStat::from_str("Mean").unwrap(), ZonalStat::Mean);
    assert_eq!(ZonalStat::from_str("min").unwrap(), ZonalStat::Min);
    assert_eq!(ZonalStat::from_str("MAX").unwrap(), ZonalStat::Max);
}

#[test]
fn unknown_stat_reports_supported_list() {
    let err = ZonalStat::from_str("median").unwrap_err();
    assert_eq!(err, "unknown stat 'median' (count/sum/mean/min/max)");
    let err = ZonalStat::from_str("MEDIAN").unwrap_err();
    assert_eq!(err, "unknown stat 'median' (count/sum/mean/min/max)");
}

#[test]
fn stat_parse_rejects_near_misses() {
    assert!(ZonalStat::parse("counts").is_err());
    assert!(ZonalStat::parse("").is_err());
    assert!(ZonalStat::parse(" mean").is_err());
    assert_eq!(ZonalStat::parse("mIn"), Ok(ZonalStat::Min));
    assert_eq!(
        ZonalStat::parse("Avg"),
        Err("unknown stat 'avg' (count/sum/mean/min/max)".to_string())
    );
}

#[test]
fn value_extracts_with_count_asymmetry() {
    let z = ZonalStats {
        count: 4,
        sum: 10.0,
        min: Some(1.0),
        max: Some(4.0),
    };
    assert_eq!(value(&z, ZonalStat::Count), Some(4.0));
    assert_eq!(value(&z, ZonalStat::Sum), Some(10.0));
    assert_eq!(value(&z, ZonalStat::Mean), Some(2.5));
    assert_eq!(value(&z, ZonalStat::Min), Some(1.0));
    assert_eq!(value(&z, ZonalStat::Max), Some(4.0));

    let empty = ZonalStats {
        count: 0,
        sum: 0.0,
        min: None,
        max: None,
    };
    assert_eq!(value(&empty, ZonalStat::Count), Some(0.0), "an empty zone counts 0");
    assert_eq!(value(&empty, ZonalStat::Sum), None);
    assert_eq!(value(&empty, ZonalStat::Mean), None);
    assert_eq!(value(&empty, ZonalStat::Min), None);
    assert_eq!(value(&empty, ZonalStat::Max), None);
}

#[test]
fn value_scaled_applies_only_to_count_and_sum() {
    let z = ZonalStats {
        count: 100,
        sum: 1000.0,
        min: Some(2.0),
        max: Some(50.0),
    };
    assert_eq!(value_scaled(&z, ZonalStat::Count, 4.0), Some(400.0));
    assert_eq!(value_scaled(&z, ZonalStat::Sum, 4.0), Some(4000.0));
    assert_eq!(value_scaled(&z, ZonalStat::Mean, 4.0), Some(10.0), "mean unchanged");
    assert_eq!(value_scaled(&z, ZonalStat::Min, 4.0), Some(2.0), "min raw");
    assert_eq!(value_scaled(&z, ZonalStat::Max, 4.0), Some(50.0), "max raw");
    assert_eq!(value_scaled(&z, ZonalStat::Count, 1.0), value(&z, ZonalStat::Count));
}

#[test]
fn picks_name_the_number_each_stat_reads() {
    let z = ZonalStats { count: 3, sum: 9u32, min: Some(1u32), max: Some(5u32) };
    assert_eq!(z.pick(ZonalStat::Count), StatValue::Count(3));
    assert_eq!(z.pick(ZonalStat::Sum), StatValue::Sum(9));
    assert_eq!(z.pick(ZonalStat::Mean), StatValue::Mean(9, 3));
    assert_eq!(z.pick(ZonalStat::Min), StatValue::Extreme(1));
    assert_eq!(z.pick(ZonalStat::Max), StatValue::Extreme(5));
    let empty = ZonalStats { count: 0, sum: 0u32, min: None, max: None };
    assert_eq!(empty.pick(ZonalStat::Count), StatValue::Count(0));
    assert_eq!(empty.pick(ZonalStat::Mean), StatValue::Missing);
}

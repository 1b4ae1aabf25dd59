//! Zonal statistic names: count, sum, mean, min, max, matched without regard
//! to case.

use vstd::prelude::*;

verus! {

/// A zonal statistic.
#[derive(Clone, Copy, Debug, PartialEq, Eq, Structural)]
pub enum ZonalStat {
    Count,
    Sum,
    Mean,
    Min,
    Max,
}

/// `str::to_lowercase` of a string (Unicode lower case).
pub uninterp spec fn lowercase_of(s: Seq<char>) -> Seq<char>;

/// `str::to_lowercase`.
#[verifier::external_body]
fn to_lowercase(s: &str) -> (r: String)
    ensures
        r@ == lowercase_of(s@),
{
    s.to_lowercase()
}

/// The statistic a lower-cased name stands for.
pub open spec fn stat_named(name: Seq<char>) -> Option<ZonalStat> {
    if name == "count"@ {
        Some(ZonalStat::Count)
    } else if name == "sum"@ {
        Some(ZonalStat::Sum)
    } else if name == "mean"@ {
        Some(ZonalStat::Mean)
    } else if name == "min"@ {
        Some(ZonalStat::Min)
    } else if name == "max"@ {
        Some(ZonalStat::Max)
    } else {
        None
    }
}

/// The message for an unknown statistic name (reported lower-cased).
pub open spec fn unknown_stat_message(lowered: Seq<char>) -> Seq<char> {
    "unknown stat '"@ + lowered + "' (count/sum/mean/min/max)"@
}

impl ZonalStat {
    /// Parses a statistic name, case-insensitively.
    pub fn parse(s: &str) -> (r: Result<ZonalStat, String>)
        ensures
            stat_named(lowercase_of(s@)) matches Some(st) ==> r == Ok::<ZonalStat, String>(st),
            stat_named(lowercase_of(s@)) is None ==> (r matches Err(m) && m@ == unknown_stat_message(
                lowercase_of(s@),
            )),
    {
        let lowered = to_lowercase(s);
        if lowered == String::from_str("count") {
            Ok(ZonalStat::Count)
        } else if lowered == String::from_str("sum") {
            Ok(ZonalStat::Sum)
        } else if lowered == String::from_str("mean") {
            Ok(ZonalStat::Mean)
        } else if lowered == String::from_str("min") {
            Ok(ZonalStat::Min)
        } else if lowered == String::from_str("max") {
            Ok(ZonalStat::Max)
        } else {
            let mut m = String::from_str("unknown stat '");
            m.append(lowered.as_str());
            m.append("' (count/sum/mean/min/max)");
            Err(m)
        }
    }
}

/// Aggregate of the valid pixels of a zone: their count, their sum, and
/// their least and greatest value (none for an empty zone). `N` is the pixel
/// value type.
#[derive(Clone, Copy, Debug, PartialEq)]
pub struct ZonalStats<N> {
    pub count: u64,
    pub sum: N,
    pub min: Option<N>,
    pub max: Option<N>,
}

/// The number a statistic reads from an aggregate, before arithmetic on pixel
/// values.
#[derive(Clone, Copy, Debug, PartialEq)]
pub enum StatValue<N> {
    /// The pixel count. A count and a sum grow with the area a pixel covers,
    /// so a caller that aggregates an overview scales them by the area ratio.
    Count(u64),
    /// The sum (scaled like the count).
    Sum(N),
    /// The mean: sum over count (count > 0); not scaled.
    Mean(N, u64),
    /// The minimum or maximum, as is; not scaled.
    Extreme(N),
    /// No value: the zone has no valid pixel.
    Missing,
}

/// What statistic `stat` of an aggregate is: an empty zone still has a count
/// (0), every other statistic of it is missing.
pub open spec fn stat_value<N>(z: ZonalStats<N>, stat: ZonalStat) -> StatValue<N> {
    match stat {
        ZonalStat::Count => StatValue::Count(z.count),
        ZonalStat::Sum => if z.count > 0 {
            StatValue::Sum(z.sum)
        } else {
            StatValue::Missing
        },
        ZonalStat::Mean => if z.count > 0 {
            StatValue::Mean(z.sum, z.count)
        } else {
            StatValue::Missing
        },
        ZonalStat::Min => match z.min {
            Some(v) => StatValue::Extreme(v),
            None => StatValue::Missing,
        },
        ZonalStat::Max => match z.max {
            Some(v) => StatValue::Extreme(v),
            None => StatValue::Missing,
        },
    }
}

impl<N: Copy> ZonalStats<N> {
    /// The number statistic `stat` reads.
    pub fn pick(&self, stat: ZonalStat) -> (r: StatValue<N>)
        ensures
            r == stat_value(*self, stat),
    {
        match stat {
            ZonalStat::Count => StatValue::Count(self.count),
            ZonalStat::Sum => if self.count > 0 {
                StatValue::Sum(self.sum)
            } else {
                StatValue::Missing
            },
            ZonalStat::Mean => if self.count > 0 {
                StatValue::Mean(self.sum, self.count)
            } else {
                StatValue::Missing
            },
            ZonalStat::Min => match self.min {
                Some(v) => StatValue::Extreme(v),
                None => StatValue::Missing,
            },
            ZonalStat::Max => match self.max {
                Some(v) => StatValue::Extreme(v),
                None => StatValue::Missing,
            },
        }
    }
}

/// Only a count ever reads as a value from an empty zone, and it reads 0.
pub proof fn lemma_empty_zone<N>(z: ZonalStats<N>, stat: ZonalStat)
    requires
        z.count == 0,
        z.min is None,
        z.max is None,
    ensures
        stat == ZonalStat::Count ==> stat_value(z, stat) == StatValue::<N>::Count(0),
        stat != ZonalStat::Count ==> stat_value(z, stat) == StatValue::<N>::Missing,
{
}

impl std::str::FromStr for ZonalStat {
    type Err = String;

    fn from_str(s: &str) -> (r: Result<ZonalStat, String>)
        ensures
            stat_named(lowercase_of(s@)) matches Some(st) ==> r == Ok::<ZonalStat, String>(st),
            stat_named(lowercase_of(s@)) is None ==> (r matches Err(m) && m@ == unknown_stat_message(
                lowercase_of(s@),
            )),
    {
        ZonalStat::parse(s)
    }
}

} // verus!

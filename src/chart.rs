use vstd::prelude::*;
use vstd::string::StringExecFns;

use crate::calendar::{BatchWindow, Resolution};

verus! {

/// Wei in one ether: the divisor that turns a raw reward into the chart's unit.
pub const WEI_PER_ETH: i64 = 1_000_000_000_000_000_000;

/// A half-open time range `[start, end)`, as microseconds since the Unix epoch.
#[derive(Clone, Copy, Debug, PartialEq, Eq, Structural)]
pub struct TimeRange {
    pub start_micros: i64,
    pub end_micros: i64,
}

/// A parameter bound to a placeholder of a query.
#[derive(Clone, Copy, Debug, PartialEq, Eq, Structural)]
pub enum QueryParam {
    BigInt(i64),
    /// A UTC timestamp, as microseconds since the Unix epoch.
    TimestampMicros(i64),
}

/// A Postgres query with its parameters, `$1` being the first of `params`.
pub struct RangeStatement {
    pub sql: String,
    pub params: Vec<QueryParam>,
}

/// The query of daily average block rewards, with the range condition where a range is given.
pub open spec fn average_block_rewards_sql(filtered: bool) -> Seq<char> {
    "
                SELECT
                    DATE(blocks.timestamp) as date,
                    (AVG(block_rewards.reward) / $1)::FLOAT as value
                FROM block_rewards
                JOIN blocks ON block_rewards.block_hash = blocks.hash
                WHERE
                    blocks.timestamp != to_timestamp(0) AND
                    blocks.consensus = true "@ + if filtered {
        " AND blocks.timestamp < $3 AND blocks.timestamp >= $2"@
    } else {
        Seq::empty()
    } + "
                GROUP BY date
            "@
}

/// `$1` is the wei divisor; a range adds its start as `$2` and its end as `$3`.
pub open spec fn average_block_rewards_params(range: Option<TimeRange>) -> Seq<QueryParam> {
    match range {
        Some(r) => seq![
            QueryParam::BigInt(WEI_PER_ETH),
            QueryParam::TimestampMicros(r.start_micros),
            QueryParam::TimestampMicros(r.end_micros),
        ],
        None => seq![QueryParam::BigInt(WEI_PER_ETH)],
    }
}

/// How a chart is drawn.
#[derive(Clone, Copy, Debug, PartialEq, Eq, Structural)]
pub enum ChartType {
    Counter,
    Line,
}

/// The query behind the daily average block rewards chart.
pub struct AverageBlockRewardsQuery;

impl AverageBlockRewardsQuery {
    /// The query restricted to `range`, or over the whole history where there is none.
    pub fn get_statement(range: Option<TimeRange>) -> (r: RangeStatement)
        ensures
            r.sql@ == average_block_rewards_sql(range is Some),
            r.params@ == average_block_rewards_params(range),
    {
        let mut sql = String::from_str(
            "
                SELECT
                    DATE(blocks.timestamp) as date,
                    (AVG(block_rewards.reward) / $1)::FLOAT as value
                FROM block_rewards
                JOIN blocks ON block_rewards.block_hash = blocks.hash
                WHERE
                    blocks.timestamp != to_timestamp(0) AND
                    blocks.consensus = true ",
        );
        let mut params: Vec<QueryParam> = Vec::new();
        params.push(QueryParam::BigInt(WEI_PER_ETH));
        match range {
            Some(r) => {
                sql.append(" AND blocks.timestamp < $3 AND blocks.timestamp >= $2");
                params.push(QueryParam::TimestampMicros(r.start_micros));
                params.push(QueryParam::TimestampMicros(r.end_micros));
            },
            None => {},
        }
        sql.append(
            "
                GROUP BY date
            ",
        );
        proof {
            assert(params@ =~= average_block_rewards_params(range));
            if range is None {
                assert(sql@ =~= average_block_rewards_sql(false));
            }
        }
        RangeStatement { sql, params }
    }
}

/// The metadata of the daily average block rewards chart.
pub struct Properties;

impl Properties {
    pub fn name() -> (r: String)
        ensures
            r@ == "averageBlockRewards"@,
    {
        String::from_str("averageBlockRewards")
    }

    pub fn chart_type() -> (r: ChartType)
        ensures
            r == ChartType::Line,
    {
        ChartType::Line
    }

    pub fn resolution() -> (r: Resolution)
        ensures
            r == Resolution::Day,
    {
        Resolution::Day
    }
}

/// The trailing window each tier of the chart computes again: 30 days, 30 weeks, 36 months
/// or 30 years.
pub fn batch_window(res: Resolution) -> (r: BatchWindow)
    ensures
        r.resolution == res,
        r.count == match res {
            Resolution::Day => 30u32,
            Resolution::Week => 30u32,
            Resolution::Month => 36u32,
            Resolution::Year => 30u32,
        },
{
    let count: u32 = match res {
        Resolution::Day => 30,
        Resolution::Week => 30,
        Resolution::Month => 36,
        Resolution::Year => 30,
    };
    BatchWindow { resolution: res, count }
}

} // verus!
